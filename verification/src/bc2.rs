//! The BC2 block layout: eight bytes of 4-bit alpha, then a BC1-style
//! color block, sixteen bytes in all.

use vstd::prelude::*;

use crate::math::{spec_rgb565_bytes, spec_rgb565_from_bytes, Rgb565};

verus! {

/// A block of 4x4 texels compressed with BC2.
#[derive(Clone, Copy, Debug)]
pub struct Block {
    pub alpha: [u8; 8],
    pub color0: Rgb565,
    pub color1: Rgb565,
    pub texels: [u8; 4],
}

impl PartialEq for Block {
    fn eq(&self, other: &Block) -> (r: bool) {
        let r = self.alpha[0] == other.alpha[0] && self.alpha[1] == other.alpha[1]
            && self.alpha[2] == other.alpha[2] && self.alpha[3] == other.alpha[3]
            && self.alpha[4] == other.alpha[4] && self.alpha[5] == other.alpha[5]
            && self.alpha[6] == other.alpha[6] && self.alpha[7] == other.alpha[7]
            && self.color0.0 == other.color0.0 && self.color1.0 == other.color1.0
            && self.texels[0] == other.texels[0] && self.texels[1] == other.texels[1]
            && self.texels[2] == other.texels[2] && self.texels[3] == other.texels[3];
        proof {
            if r {
                assert(self.alpha@ =~= other.alpha@);
                assert(self.alpha =~= other.alpha);
                assert(self.texels@ =~= other.texels@);
                assert(self.texels =~= other.texels);
            }
        }
        r
    }
}

impl vstd::std_specs::cmp::PartialEqSpecImpl for Block {
    open spec fn obeys_eq_spec() -> bool {
        true
    }

    open spec fn eq_spec(&self, other: &Block) -> bool {
        *self == *other
    }
}

/// The sixteen serialized bytes of a block: the alpha rows, then the
/// BC1-style color half.
pub open spec fn spec_block_bytes(b: Block) -> Seq<u8> {
    seq![
        b.alpha[0],
        b.alpha[1],
        b.alpha[2],
        b.alpha[3],
        b.alpha[4],
        b.alpha[5],
        b.alpha[6],
        b.alpha[7],
    ] + spec_rgb565_bytes(b.color0) + spec_rgb565_bytes(b.color1) + seq![
        b.texels[0],
        b.texels[1],
        b.texels[2],
        b.texels[3],
    ]
}

impl Block {
    /// Serialize the block.
    pub fn bytes(&self) -> (r: [u8; 16])
        ensures
            r@ == spec_block_bytes(*self),
    {
        let alpha = self.alpha;
        let color0 = self.color0.bytes();
        let color1 = self.color1.bytes();
        let texels = self.texels;

        let r = [
            alpha[0],
            alpha[1],
            alpha[2],
            alpha[3],
            alpha[4],
            alpha[5],
            alpha[6],
            alpha[7],
            color0[0],
            color0[1],
            color1[0],
            color1[1],
            texels[0],
            texels[1],
            texels[2],
            texels[3],
        ];
        proof {
            assert(r@ =~= spec_block_bytes(*self));
        }
        r
    }

    /// Read a block back from its sixteen serialized bytes.
    pub fn from_bytes(bytes: [u8; 16]) -> (b: Block)
        ensures
            b.alpha@ == bytes@.subrange(0, 8),
            b.color0 == spec_rgb565_from_bytes(bytes@.subrange(8, 10)),
            b.color1 == spec_rgb565_from_bytes(bytes@.subrange(10, 12)),
            b.texels@ == bytes@.subrange(12, 16),
            spec_block_bytes(b) == bytes@,
    {
        let alpha = [
            bytes[0],
            bytes[1],
            bytes[2],
            bytes[3],
            bytes[4],
            bytes[5],
            bytes[6],
            bytes[7],
        ];
        let color0 = Rgb565::from_bytes([bytes[8], bytes[9]]);
        let color1 = Rgb565::from_bytes([bytes[10], bytes[11]]);
        let texels = [bytes[12], bytes[13], bytes[14], bytes[15]];

        let b = Block { alpha, color0, color1, texels };
        proof {
            assert(b.alpha@ =~= bytes@.subrange(0, 8));
            assert(b.texels@ =~= bytes@.subrange(12, 16));
            assert(bytes@.subrange(8, 10) =~= seq![bytes@[8], bytes@[9]]);
            assert(bytes@.subrange(10, 12) =~= seq![bytes@[10], bytes@[11]]);
            crate::math::lemma_rgb565_bytes_roundtrip_seq(bytes@.subrange(8, 10));
            crate::math::lemma_rgb565_bytes_roundtrip_seq(bytes@.subrange(10, 12));
            assert(spec_block_bytes(b) =~= bytes@);
        }
        b
    }
}

} // verus!
