//! The BC3 block layout: a BC4-style single-channel alpha block followed
//! by a BC1-style color block, sixteen bytes in all.

use vstd::prelude::*;

use crate::{bc1, bc4};

verus! {

/// A block of 4x4 texels compressed with BC3.
#[derive(Clone, Copy, Debug, PartialEq)]
pub struct Block {
    pub alpha: bc4::Block,
    pub rgb: bc1::Block,
}

/// The sixteen serialized bytes of a block: the alpha half, then the
/// color half.
pub open spec fn spec_block_bytes(b: Block) -> Seq<u8> {
    bc4::spec_block_bytes(b.alpha) + bc1::spec_block_bytes(b.rgb)
}

impl Block {
    /// Serialize the block.
    pub fn bytes(&self) -> (r: [u8; 16])
        ensures
            r@ == spec_block_bytes(*self),
    {
        let alpha = self.alpha.bytes();
        let rgb = self.rgb.bytes();

        let r = [
            alpha[0],
            alpha[1],
            alpha[2],
            alpha[3],
            alpha[4],
            alpha[5],
            alpha[6],
            alpha[7],
            rgb[0],
            rgb[1],
            rgb[2],
            rgb[3],
            rgb[4],
            rgb[5],
            rgb[6],
            rgb[7],
        ];
        proof {
            assert(r@ =~= spec_block_bytes(*self));
        }
        r
    }

    /// Read a block back from its sixteen serialized bytes.
    pub fn from_bytes(bytes: [u8; 16]) -> (b: Block)
        ensures
            bc4::spec_block_bytes(b.alpha) == bytes@.subrange(0, 8),
            bc1::spec_block_bytes(b.rgb) == bytes@.subrange(8, 16),
            spec_block_bytes(b) == bytes@,
    {
        let alpha = [
            bytes[0],
            bytes[1],
            bytes[2],
            bytes[3],
            bytes[4],
            bytes[5],
            bytes[6],
            bytes[7],
        ];
        let rgb = [
            bytes[8],
            bytes[9],
            bytes[10],
            bytes[11],
            bytes[12],
            bytes[13],
            bytes[14],
            bytes[15],
        ];

        let b = Block { alpha: bc4::Block::from_bytes(alpha), rgb: bc1::Block::from_bytes(rgb) };
        proof {
            assert(alpha@ =~= bytes@.subrange(0, 8));
            assert(rgb@ =~= bytes@.subrange(8, 16));
            assert(spec_block_bytes(b) =~= bytes@);
        }
        b
    }
}

} // verus!
