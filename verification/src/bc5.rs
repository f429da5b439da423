//! The BC5 block layout: two BC4-style single-channel blocks, one for
//! red and one for green, sixteen bytes in all.

use vstd::prelude::*;

use crate::bc4;

verus! {

/// A block of 4x4 texels compressed with BC5.
#[derive(Clone, Copy, Debug, PartialEq)]
pub struct Block {
    pub red: bc4::Block,
    pub green: bc4::Block,
}

/// The sixteen serialized bytes of a block: the red half, then the
/// green half.
pub open spec fn spec_block_bytes(b: Block) -> Seq<u8> {
    bc4::spec_block_bytes(b.red) + bc4::spec_block_bytes(b.green)
}

impl Block {
    /// Serialize the block.
    pub fn bytes(&self) -> (r: [u8; 16])
        ensures
            r@ == spec_block_bytes(*self),
    {
        let red = self.red.bytes();
        let green = self.green.bytes();

        let r = [
            red[0],
            red[1],
            red[2],
            red[3],
            red[4],
            red[5],
            red[6],
            red[7],
            green[0],
            green[1],
            green[2],
            green[3],
            green[4],
            green[5],
            green[6],
            green[7],
        ];
        proof {
            assert(r@ =~= spec_block_bytes(*self));
        }
        r
    }

    /// Read a block back from its sixteen serialized bytes.
    pub fn from_bytes(bytes: [u8; 16]) -> (b: Block)
        ensures
            bc4::spec_block_bytes(b.red) == bytes@.subrange(0, 8),
            bc4::spec_block_bytes(b.green) == bytes@.subrange(8, 16),
            spec_block_bytes(b) == bytes@,
    {
        let red = [
            bytes[0],
            bytes[1],
            bytes[2],
            bytes[3],
            bytes[4],
            bytes[5],
            bytes[6],
            bytes[7],
        ];
        let green = [
            bytes[8],
            bytes[9],
            bytes[10],
            bytes[11],
            bytes[12],
            bytes[13],
            bytes[14],
            bytes[15],
        ];

        let b = Block { red: bc4::Block::from_bytes(red), green: bc4::Block::from_bytes(green) };
        proof {
            assert(red@ =~= bytes@.subrange(0, 8));
            assert(green@ =~= bytes@.subrange(8, 16));
            assert(spec_block_bytes(b) =~= bytes@);
        }
        b
    }
}

} // verus!
