use jkl::bc1;
use jkl::jackal::{
    compress_bc1_texture, decompress_bc1_texture, read_header, read_jackal_blocks, DecodeError,
    DecompressError, Extent,
};
use jkl::math::Rgb565;

fn checker_block() -> bc1::Block {
    // A black-and-white checkerboard tile: white and black endpoints and
    // alternating palette indices.
    bc1::Block {
        color0: Rgb565::from_bits(0xFFFF),
        color1: Rgb565::from_bits(0x0000),
        texels: [0b11_00_11_00, 0b00_11_00_11, 0b11_00_11_00, 0b00_11_00_11],
    }
}

#[test]
fn two_block_texture_roundtrip() {
    let blocks = vec![checker_block(); 2];

    let output = compress_bc1_texture(Extent::D2 { width: 2, height: 1 }, &blocks);

    let (extent, decompressed) = decompress_bc1_texture(&output[..]).unwrap();

    assert_eq!(extent, Extent::D2 { width: 2, height: 1 });
    assert_eq!(decompressed[..], blocks[..]);
}

#[test]
fn container_geometry_single_super_block() {
    // An 8 by 8 grid fits one baseline super-block: the index is one
    // eight-byte entry at bytes 20..28, pointing at byte 28.
    let blocks = vec![checker_block(); 64];
    let output = compress_bc1_texture(Extent::D2 { width: 8, height: 8 }, &blocks);

    assert_eq!(&output[0..4], &[0x4A, 0x4B, 0x4C, 0x30]);
    let entry = u64::from_le_bytes(output[20..28].try_into().unwrap());
    assert_eq!(entry, 28);

    let (extent, decompressed) = decompress_bc1_texture(&output[..]).unwrap();
    assert_eq!(extent, Extent::D2 { width: 8, height: 8 });
    assert_eq!(decompressed[..], blocks[..]);
}

#[test]
fn bad_magic_is_rejected() {
    let zeros = [0u8; 20];
    match decompress_bc1_texture(&zeros[..]) {
        Err(DecompressError::Decode(DecodeError::InvalidMagic)) => {}
        other => panic!("expected an invalid-magic rejection, got {:?}", other),
    }
}

#[test]
fn short_header_is_io_error() {
    let short = [0u8; 10];
    assert!(matches!(
        decompress_bc1_texture(&short[..]),
        Err(DecompressError::Io)
    ));
}

#[test]
fn unsupported_format_is_rejected() {
    // Magic, then a configuration word whose format field is in the
    // reserved range.
    let mut data = Vec::new();
    data.extend_from_slice(&0x304C4B4Au32.to_le_bytes());
    data.extend_from_slice(&6u32.to_le_bytes());
    data.extend_from_slice(&1u32.to_le_bytes());
    data.extend_from_slice(&1u32.to_le_bytes());
    data.extend_from_slice(&1u32.to_le_bytes());
    assert!(matches!(
        read_header(&data[..]),
        Err(DecompressError::Decode(DecodeError::UnsupportedFormat))
    ));
}

#[test]
fn oversized_level_count_is_rejected() {
    // Format BC1 but a mip level field at its radix: 30 * 1250.
    let mut data = Vec::new();
    data.extend_from_slice(&0x304C4B4Au32.to_le_bytes());
    data.extend_from_slice(&(30u32 * 1250).to_le_bytes());
    data.extend_from_slice(&1u32.to_le_bytes());
    data.extend_from_slice(&1u32.to_le_bytes());
    data.extend_from_slice(&1u32.to_le_bytes());
    assert!(matches!(
        read_header(&data[..]),
        Err(DecompressError::Decode(DecodeError::InvalidHeader))
    ));
}

#[test]
fn inconsistent_extent_is_rejected() {
    // A one-dimensional texture whose height field is not one.
    let mut data = Vec::new();
    data.extend_from_slice(&0x304C4B4Au32.to_le_bytes());
    data.extend_from_slice(&(1u32 * 1250).to_le_bytes());
    data.extend_from_slice(&4u32.to_le_bytes());
    data.extend_from_slice(&2u32.to_le_bytes());
    data.extend_from_slice(&1u32.to_le_bytes());
    assert!(matches!(
        read_header(&data[..]),
        Err(DecompressError::Decode(DecodeError::InvalidExtent))
    ));
}

#[test]
fn varied_grid_roundtrip() {
    // A 5 by 3 grid of all-different blocks survives the round trip.
    let mut blocks = Vec::new();
    for i in 0..15u16 {
        blocks.push(bc1::Block {
            color0: Rgb565::from_bits(0x0800 + i),
            color1: Rgb565::from_bits(i),
            texels: [i as u8, (i + 1) as u8, (i + 2) as u8, (i + 3) as u8],
        });
    }
    let output = compress_bc1_texture(Extent::D2 { width: 5, height: 3 }, &blocks);
    let (extent, decompressed) = decompress_bc1_texture(&output[..]).unwrap();
    assert_eq!(extent, Extent::D2 { width: 5, height: 3 });
    assert_eq!(decompressed[..], blocks[..]);
}

#[test]
fn clipped_super_blocks_roundtrip() {
    // A 1025-block-wide strip spans two baseline super-blocks; the second
    // is clipped to a single column.
    let mut blocks = Vec::new();
    for i in 0..1025u32 {
        blocks.push(bc1::Block {
            color0: Rgb565::from_bits((i % 0xFFFF) as u16),
            color1: Rgb565::from_bits((i / 3) as u16),
            texels: [i as u8, (i >> 8) as u8, 3, 4],
        });
    }
    let output = compress_bc1_texture(Extent::D1 { width: 1025 }, &blocks);

    // Two index entries, both pointing past the index region, in order.
    let first = u64::from_le_bytes(output[20..28].try_into().unwrap());
    let second = u64::from_le_bytes(output[28..36].try_into().unwrap());
    assert_eq!(first, 36);
    assert!(second > first);
    assert!((second as usize) <= output.len());

    let (extent, decompressed) = decompress_bc1_texture(&output[..]).unwrap();
    assert_eq!(extent, Extent::D1 { width: 1025 });
    assert_eq!(decompressed[..], blocks[..]);
}

#[test]
fn truncated_container_is_io_error() {
    let blocks = vec![checker_block(); 4];
    let output = compress_bc1_texture(Extent::D2 { width: 2, height: 2 }, &blocks);
    // Keep the header, the index and only half of the payload.
    let cut = &output[..28 + (output.len() - 28) / 2];
    assert!(matches!(
        decompress_bc1_texture(cut),
        Err(DecompressError::Io)
    ));
}

#[test]
fn layered_texture_roundtrip() {
    let mut blocks = Vec::new();
    for i in 0..12u16 {
        blocks.push(bc1::Block {
            color0: Rgb565::from_bits(0x8000 | i),
            color1: Rgb565::from_bits(i),
            texels: [1, 2, 3, i as u8],
        });
    }
    let extent = Extent::D2Array { width: 2, height: 2, layers: 3 };
    let output = compress_bc1_texture(extent, &blocks);
    let (read_extent, decompressed) = decompress_bc1_texture(&output[..]).unwrap();
    assert_eq!(read_extent, extent);
    assert_eq!(decompressed[..], blocks[..]);
}

#[test]
fn piecemeal_header_and_index() {
    let blocks = vec![checker_block(); 6];
    let extent = Extent::D2 { width: 3, height: 2 };
    let output = compress_bc1_texture(extent, &blocks);

    let header = read_header(&output[..]).unwrap();
    assert_eq!(header.extent(), extent);
    assert_eq!(header.format(), jkl::jackal::Format::BC1);
    assert_eq!(header.extent().raw_size(), [3, 2, 1]);

    let index = read_jackal_blocks(&output[..], 1).unwrap();
    assert_eq!(index.len(), 1);
    assert_eq!(index[0].offset, 28);
}
