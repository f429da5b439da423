use jkl::bits::{ReadBits, WriteBits};
use jkl::lzw::{DecodeError, Decoder, Encoder};

#[test]
fn lzw_test_u16() {
    let mut encoder = Encoder::<65536>::new();

    let data = [
        1u32, 1, 2, 1, 1, 2, 3, 1, 2, 1, 1, 1, 2, 1, 1, 3, 3, 1, 1, 1, 2,
    ];

    let mut writer = WriteBits::new();

    for word in data {
        encoder.encode(word, &mut writer);
    }

    encoder.finish(&mut writer);
    writer.finish();
    let compressed = writer.into_bytes();

    let mut decoder = Decoder::<65536>::new();

    let mut input = ReadBits::new(&compressed[..]);
    let mut decoded = 0;

    while decoded < data.len() {
        let word = decoder.decode_next(&mut input).unwrap();
        assert_eq!(data[decoded], word);
        decoded += 1;
    }
}

#[test]
fn byte_roundtrip() {
    let data = [
        1u32, 1, 2, 1, 1, 2, 3, 1, 2, 1, 1, 1, 2, 1, 1, 3, 3, 1, 1, 1, 2,
    ];
    let mut encoder = Encoder::<256>::new();
    let mut writer = WriteBits::new();
    for byte in data {
        encoder.encode(byte, &mut writer);
    }
    encoder.finish(&mut writer);
    writer.finish();
    let compressed = writer.into_bytes();

    let mut decoder = Decoder::<256>::new();
    let mut input = ReadBits::new(&compressed[..]);
    for byte in data {
        assert_eq!(decoder.decode_next(&mut input).unwrap(), byte);
    }
}

#[test]
fn first_codeword_is_nine_bits() {
    // After the first byte the dictionary has 257 codes' worth of address
    // space, so the first emitted codeword is nine bits wide.
    let mut encoder = Encoder::<256>::new();
    let mut writer = WriteBits::new();
    encoder.encode(1, &mut writer);
    encoder.encode(1, &mut writer);
    encoder.finish(&mut writer);
    writer.finish();
    // Two codewords of value one at nine bits each: eighteen bits, three
    // bytes, the second codeword starting at bit nine.
    assert_eq!(writer.into_bytes(), vec![1, 2, 0]);
}

#[test]
fn truncated_stream_gives_prefix_then_io_error() {
    let data = [7u32, 7, 7, 7, 7, 7, 7, 7, 9, 9, 9, 9, 1, 2, 3, 4, 5];
    let mut encoder = Encoder::<256>::new();
    let mut writer = WriteBits::new();
    for byte in data {
        encoder.encode(byte, &mut writer);
    }
    encoder.finish(&mut writer);
    writer.finish();
    let compressed = writer.into_bytes();

    // Cut the compressed stream short and decode as far as it goes: the
    // symbols handed out must be a prefix of the original data, and the
    // failure must be an I/O error, never corrupt output.
    for cut in 0..compressed.len() {
        let truncated = &compressed[..cut];
        let mut decoder = Decoder::<256>::new();
        let mut input = ReadBits::new(truncated);
        let mut produced = Vec::new();
        loop {
            match decoder.decode_next(&mut input) {
                Ok(byte) => produced.push(byte),
                Err(e) => {
                    assert_eq!(e, DecodeError::Io);
                    break;
                }
            }
            if produced.len() > data.len() {
                break;
            }
        }
        assert!(produced.len() <= data.len());
        assert_eq!(&data[..produced.len()], &produced[..]);
    }
}

#[test]
fn invalid_code_is_rejected() {
    // A nine-bit codeword valued 0x101 when only code 0x100 could exist:
    // bits 1000_0000_1 least-significant-first are bytes 0x01, 0x01.
    let bad = vec![0x01u8, 0x01];
    let mut decoder = Decoder::<256>::new();
    let mut input = ReadBits::new(&bad[..]);
    assert_eq!(decoder.decode_next(&mut input), Err(DecodeError::InvalidIndex));
}
