//! The BC1 block layout: two packed 16-bit endpoints and sixteen 2-bit
//! palette indices, eight bytes in all.
//!
//! Whether the block uses the 4-color or the 3-color palette is decided
//! by the integer order of the two endpoints' packed bits.

use vstd::prelude::*;

use crate::math::{spec_rgb565_bytes, spec_rgb565_from_bytes, Rgb565};

verus! {

/// A block of 4x4 texels compressed with BC1.
#[derive(Clone, Copy, Debug)]
pub struct Block {
    pub color0: Rgb565,
    pub color1: Rgb565,
    pub texels: [u8; 4],
}

impl PartialEq for Block {
    fn eq(&self, other: &Block) -> (r: bool) {
        let r = self.color0.0 == other.color0.0 && self.color1.0 == other.color1.0
            && self.texels[0] == other.texels[0] && self.texels[1] == other.texels[1]
            && self.texels[2] == other.texels[2] && self.texels[3] == other.texels[3];
        proof {
            if r {
                assert(self.texels@ =~= other.texels@);
                assert(self.texels =~= other.texels);
            }
        }
        r
    }
}

impl vstd::std_specs::cmp::PartialEqSpecImpl for Block {
    open spec fn obeys_eq_spec() -> bool {
        true
    }

    open spec fn eq_spec(&self, other: &Block) -> bool {
        *self == *other
    }
}

/// The eight serialized bytes of a block: both endpoints little-endian,
/// then the four index rows.
pub open spec fn spec_block_bytes(b: Block) -> Seq<u8> {
    spec_rgb565_bytes(b.color0) + spec_rgb565_bytes(b.color1) + seq![
        b.texels[0],
        b.texels[1],
        b.texels[2],
        b.texels[3],
    ]
}

impl Block {
    /// The all-black block: both endpoints zero and every texel index
    /// pointing at the first palette entry.
    pub fn black() -> (b: Block)
        ensures
            b.color0.0 == 0,
            b.color1.0 == 0,
            b.texels@ == seq![0u8, 0u8, 0u8, 0u8],
    {
        let b = Block { color0: Rgb565(0), color1: Rgb565(0), texels: [0, 0, 0, 0] };
        proof {
            assert(b.texels@ =~= seq![0u8, 0u8, 0u8, 0u8]);
        }
        b
    }

    /// Serialize the block.
    pub fn bytes(&self) -> (r: [u8; 8])
        ensures
            r@ == spec_block_bytes(*self),
    {
        let color0 = self.color0.bytes();
        let color1 = self.color1.bytes();
        let texels = self.texels;

        let r = [
            color0[0],
            color0[1],
            color1[0],
            color1[1],
            texels[0],
            texels[1],
            texels[2],
            texels[3],
        ];
        proof {
            assert(r@ =~= spec_block_bytes(*self));
        }
        r
    }

    /// Read a block back from its eight serialized bytes.
    pub fn from_bytes(bytes: [u8; 8]) -> (b: Block)
        ensures
            b.color0 == spec_rgb565_from_bytes(bytes@.subrange(0, 2)),
            b.color1 == spec_rgb565_from_bytes(bytes@.subrange(2, 4)),
            b.texels@ == bytes@.subrange(4, 8),
            spec_block_bytes(b) == bytes@,
    {
        let color0 = Rgb565::from_bytes([bytes[0], bytes[1]]);
        let color1 = Rgb565::from_bytes([bytes[2], bytes[3]]);
        let texels = [bytes[4], bytes[5], bytes[6], bytes[7]];

        let b = Block { color0, color1, texels };
        proof {
            assert(bytes@.subrange(0, 2) =~= seq![bytes@[0], bytes@[1]]);
            assert(bytes@.subrange(2, 4) =~= seq![bytes@[2], bytes@[3]]);
            assert(b.texels@ =~= bytes@.subrange(4, 8));
            crate::math::lemma_rgb565_bytes_roundtrip_seq(bytes@.subrange(0, 2));
            crate::math::lemma_rgb565_bytes_roundtrip_seq(bytes@.subrange(2, 4));
            assert(spec_block_bytes(b) =~= bytes@);
        }
        b
    }
}

} // verus!
