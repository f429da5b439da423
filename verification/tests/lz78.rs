use jkl::bits::{ReadBits, WriteBits};
use jkl::lz78::{Decoder, Encoder};

#[test]
fn lz78_test_u16() {
    let mut encoder = Encoder::<16>::new();

    let data = [
        1u32, 1, 2, 1, 1, 2, 3, 1, 2, 1, 1, 1, 2, 1, 1, 3, 3, 1, 1, 1, 2,
    ];

    let mut writer = WriteBits::new();

    for word in data {
        encoder.encode(word, &mut writer);
    }

    encoder.finish(&mut writer);
    writer.finish();
    let compressed = writer.into_bytes();

    let mut decoder = Decoder::<16>::new();

    let mut input = ReadBits::new(&compressed[..]);
    let mut decoded = 0;

    while decoded < data.len() {
        let slice = decoder.decode_next_slice(&mut input).unwrap();
        assert_eq!(&data[decoded..][..slice.len()], &slice[..]);
        decoded += slice.len();
    }
}

#[test]
fn lz78_byte_roundtrip() {
    let data = [
        9u32, 9, 9, 1, 2, 9, 9, 1, 2, 3, 9, 9, 9, 9, 1, 2, 3, 4, 200, 255, 0, 0, 0,
    ];
    let mut encoder = Encoder::<8>::new();
    let mut writer = WriteBits::new();
    for byte in data {
        encoder.encode(byte, &mut writer);
    }
    encoder.finish(&mut writer);
    writer.finish();
    let compressed = writer.into_bytes();

    let mut decoder = Decoder::<8>::new();
    let mut input = ReadBits::new(&compressed[..]);
    for byte in data {
        assert_eq!(decoder.decode_next(&mut input).unwrap(), byte);
    }
    decoder.finish();
}
