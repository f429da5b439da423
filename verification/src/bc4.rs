//! The BC4 block layout: two 8-bit endpoints and sixteen 3-bit indices,
//! eight bytes in all.

use vstd::prelude::*;

use crate::math::R8U;

verus! {

/// A block of 4x4 texels compressed with BC4.
#[derive(Clone, Copy, Debug)]
pub struct Block {
    pub color0: R8U,
    pub color1: R8U,
    pub texels: [u8; 6],
}

impl PartialEq for Block {
    fn eq(&self, other: &Block) -> (r: bool) {
        let r = self.color0.0 == other.color0.0 && self.color1.0 == other.color1.0
            && self.texels[0] == other.texels[0] && self.texels[1] == other.texels[1]
            && self.texels[2] == other.texels[2] && self.texels[3] == other.texels[3]
            && self.texels[4] == other.texels[4] && self.texels[5] == other.texels[5];
        proof {
            if r {
                assert(self.texels@ =~= other.texels@);
                assert(self.texels =~= other.texels);
            }
        }
        r
    }
}

impl vstd::std_specs::cmp::PartialEqSpecImpl for Block {
    open spec fn obeys_eq_spec() -> bool {
        true
    }

    open spec fn eq_spec(&self, other: &Block) -> bool {
        *self == *other
    }
}

/// The eight serialized bytes of a block: both endpoints, then the six
/// index bytes.
pub open spec fn spec_block_bytes(b: Block) -> Seq<u8> {
    seq![
        b.color0.0,
        b.color1.0,
        b.texels[0],
        b.texels[1],
        b.texels[2],
        b.texels[3],
        b.texels[4],
        b.texels[5],
    ]
}

impl Block {
    /// Serialize the block.
    pub fn bytes(&self) -> (r: [u8; 8])
        ensures
            r@ == spec_block_bytes(*self),
    {
        let color0 = self.color0.bits();
        let color1 = self.color1.bits();
        let texels = self.texels;

        let r = [color0, color1, texels[0], texels[1], texels[2], texels[3], texels[4], texels[5]];
        proof {
            assert(r@ =~= spec_block_bytes(*self));
        }
        r
    }

    /// Read a block back from its eight serialized bytes.
    pub fn from_bytes(bytes: [u8; 8]) -> (b: Block)
        ensures
            b.color0.0 == bytes@[0],
            b.color1.0 == bytes@[1],
            b.texels@ == bytes@.subrange(2, 8),
            spec_block_bytes(b) == bytes@,
    {
        let color0 = R8U::new(bytes[0]);
        let color1 = R8U::new(bytes[1]);
        let texels = [bytes[2], bytes[3], bytes[4], bytes[5], bytes[6], bytes[7]];

        let b = Block { color0, color1, texels };
        proof {
            assert(b.texels@ =~= bytes@.subrange(2, 8));
            assert(spec_block_bytes(b) =~= bytes@);
        }
        b
    }
}

} // verus!
