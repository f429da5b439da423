use jkl::bits::{ReadBits, WriteBits};

#[test]
fn test_writer() {
    let writes = [
        (&[1u8, 2, 3, 4][..], 27),
        (&[5], 3),
        (&[6, 7], 16),
        (&[8, 9, 10], 22),
        (&[11, 12, 13, 14], 30),
    ];

    let mut write = WriteBits::new();

    for (data, bit_len) in writes.iter() {
        write.write_bits(data, 0, *bit_len);
    }

    write.finish();
    let buffer = write.into_bytes();

    assert_eq!(
        buffer[..],
        [0x01, 0x02, 0x03, 0xAC, 0xC1, 0x01, 0x42, 0x82, 0xB2, 0xC0, 0xD0, 0xE0, 0]
    );
}

#[test]
fn test_reader() {
    let reads = [
        (&[1u8, 2, 3, 4][..], 27),
        (&[5], 3),
        (&[6, 7], 16),
        (&[8, 9, 10], 22),
        (&[11, 12, 13, 14], 30),
    ];

    let buffer = vec![
        0x01, 0x02, 0x03, 0xAC, 0xC1, 0x01, 0x42, 0x82, 0xB2, 0xC0, 0xD0, 0xE0, 0,
    ];

    let mut read = ReadBits::new(&buffer[..]);

    for &(data, bit_len) in reads.iter() {
        let mut buffer = vec![0u8; 4];
        read.read_bits(&mut buffer, 0, bit_len);
        assert_eq!(buffer[..data.len()], data[..]);
    }
}

#[test]
fn test_test() {
    let writes = [(0, &[0][..], &[0]), (1, &[1], &[0]), (2, &[0], &[0x1F])];

    let mut write = WriteBits::new();

    for (bit_len, index, value) in writes {
        write.write_bits(index, 0, bit_len);
        write.write_bits(value, 0, 8);
    }

    write.finish();
    let buffer = write.into_bytes();

    let mut read = ReadBits::new(&buffer[..]);

    for (bit_len, index, value) in writes {
        let mut buffer = vec![0u8];
        read.read_bits(&mut buffer, 0, bit_len);
        assert_eq!(buffer[0], index[0]);

        read.read_bits(&mut buffer, 0, 8);
        assert_eq!(buffer[0], value[0]);
    }
}

#[test]
fn short_read_reports_missing_bits() {
    let buffer = vec![0xFFu8];
    let mut read = ReadBits::new(&buffer[..]);
    let mut out = vec![0u8; 4];
    assert_eq!(read.read_bits(&mut out, 0, 8), 8);
    assert_eq!(read.read_bits(&mut out, 0, 8), 0);
}

#[test]
fn writer_preserves_bit_order() {
    let mut write = WriteBits::new();
    // Five single bits: 1, 0, 1, 1, 0 spell 0b01101 in stream order.
    write.write_bits(&[1], 0, 1);
    write.write_bits(&[0], 0, 1);
    write.write_bits(&[1], 0, 1);
    write.write_bits(&[1], 0, 1);
    write.write_bits(&[0], 0, 1);
    write.finish();
    assert_eq!(write.into_bytes(), vec![0b01101]);
}
