use jkl::math::{R8U, Rgb565};
use jkl::{bc1, bc2, bc3, bc4, bc5};

#[test]
fn bc1_bytes_roundtrip() {
    let block = bc1::Block {
        color0: Rgb565::from_bits(0xF800),
        color1: Rgb565::from_bits(0x001F),
        texels: [0x1B, 0xE4, 0x00, 0xFF],
    };
    let bytes = block.bytes();
    assert_eq!(bytes, [0x00, 0xF8, 0x1F, 0x00, 0x1B, 0xE4, 0x00, 0xFF]);
    assert_eq!(bc1::Block::from_bytes(bytes), block);
}

#[test]
fn bc1_black_is_all_zero() {
    let b = bc1::Block::black();
    assert_eq!(b.bytes(), [0; 8]);
}

#[test]
fn bc2_bytes_roundtrip() {
    let block = bc2::Block {
        alpha: [1, 2, 3, 4, 5, 6, 7, 8],
        color0: Rgb565::from_bits(0xAAAA),
        color1: Rgb565::from_bits(0x5555),
        texels: [9, 10, 11, 12],
    };
    let bytes = block.bytes();
    assert_eq!(
        bytes,
        [1, 2, 3, 4, 5, 6, 7, 8, 0xAA, 0xAA, 0x55, 0x55, 9, 10, 11, 12]
    );
    assert_eq!(bc2::Block::from_bytes(bytes), block);
}

#[test]
fn bc4_bytes_roundtrip() {
    let block = bc4::Block {
        color0: R8U::new(200),
        color1: R8U::new(20),
        texels: [1, 2, 3, 4, 5, 6],
    };
    let bytes = block.bytes();
    assert_eq!(bytes, [200, 20, 1, 2, 3, 4, 5, 6]);
    assert_eq!(bc4::Block::from_bytes(bytes), block);
}

#[test]
fn bc3_bytes_roundtrip() {
    let block = bc3::Block {
        alpha: bc4::Block { color0: R8U::new(1), color1: R8U::new(2), texels: [3, 4, 5, 6, 7, 8] },
        rgb: bc1::Block {
            color0: Rgb565::from_bits(0x1234),
            color1: Rgb565::from_bits(0x5678),
            texels: [1, 2, 3, 4],
        },
    };
    let bytes = block.bytes();
    assert_eq!(
        bytes,
        [1, 2, 3, 4, 5, 6, 7, 8, 0x34, 0x12, 0x78, 0x56, 1, 2, 3, 4]
    );
    assert_eq!(bc3::Block::from_bytes(bytes), block);
}

#[test]
fn bc5_bytes_roundtrip() {
    let block = bc5::Block {
        red: bc4::Block { color0: R8U::new(1), color1: R8U::new(2), texels: [3, 4, 5, 6, 7, 8] },
        green: bc4::Block {
            color0: R8U::new(9),
            color1: R8U::new(10),
            texels: [11, 12, 13, 14, 15, 16],
        },
    };
    let bytes = block.bytes();
    assert_eq!(bytes, [1, 2, 3, 4, 5, 6, 7, 8, 9, 10, 11, 12, 13, 14, 15, 16]);
    assert_eq!(bc5::Block::from_bytes(bytes), block);
}
