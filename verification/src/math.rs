//! Fixed-point color types: single-channel and multi-channel colors with
//! byte-exact packing and per-channel wrapping arithmetic.

use vstd::prelude::*;

verus! {

/// A single-channel color stored as one unsigned byte.
#[derive(Clone, Copy, Debug, PartialEq, Eq, Structural)]
pub struct R8U(pub u8);

impl R8U {
    #[inline(always)]
    pub fn new(r: u8) -> (c: Self)
        ensures
            c.0 == r,
    {
        R8U(r)
    }

    #[inline(always)]
    pub fn r(&self) -> (r: u8)
        ensures
            r == self.0,
    {
        self.0
    }

    #[inline(always)]
    pub fn bits(&self) -> (bits: u8)
        ensures
            bits == self.0,
    {
        self.0
    }

    #[inline(always)]
    pub fn from_bits(bits: u8) -> (c: Self)
        ensures
            c.0 == bits,
    {
        R8U(bits)
    }

    #[inline(always)]
    pub fn wrapping_add(self, other: Self) -> (c: Self)
        ensures
            c.0 as int == (self.0 + other.0) % 256,
    {
        R8U(self.0.wrapping_add(other.0))
    }

    #[inline(always)]
    pub fn wrapping_sub(self, other: Self) -> (c: Self)
        ensures
            c.0 as int == (self.0 - other.0 + 256) % 256,
    {
        R8U(self.0.wrapping_sub(other.0))
    }
}

/// An RGB color with one unsigned byte per channel.
#[derive(Clone, Copy, Debug, PartialEq, Eq, Structural)]
pub struct Rgb8U(pub u8, pub u8, pub u8);

impl Rgb8U {
    #[inline(always)]
    pub fn new(r: u8, g: u8, b: u8) -> (c: Self)
        ensures
            c == (Rgb8U(r, g, b)),
    {
        Rgb8U(r, g, b)
    }

    /// Return color from raw bytes.
    #[inline(always)]
    pub fn from_bytes(bytes: [u8; 3]) -> (c: Self)
        ensures
            c == (Rgb8U(bytes[0], bytes[1], bytes[2])),
    {
        Rgb8U(bytes[0], bytes[1], bytes[2])
    }

    /// Return the raw bytes of the color.
    #[inline(always)]
    pub fn bytes(&self) -> (bytes: [u8; 3])
        ensures
            bytes[0] == self.0,
            bytes[1] == self.1,
            bytes[2] == self.2,
    {
        [self.0, self.1, self.2]
    }

    #[inline(always)]
    pub fn r(&self) -> (r: u8)
        ensures
            r == self.0,
    {
        self.0
    }

    #[inline(always)]
    pub fn g(&self) -> (g: u8)
        ensures
            g == self.1,
    {
        self.1
    }

    #[inline(always)]
    pub fn b(&self) -> (b: u8)
        ensures
            b == self.2,
    {
        self.2
    }

    #[inline(always)]
    pub fn set_r(&mut self, r: u8)
        ensures
            *final(self) == (Rgb8U(r, old(self).1, old(self).2)),
    {
        self.0 = r;
    }

    #[inline(always)]
    pub fn set_g(&mut self, g: u8)
        ensures
            *final(self) == (Rgb8U(old(self).0, g, old(self).2)),
    {
        self.1 = g;
    }

    #[inline(always)]
    pub fn set_b(&mut self, b: u8)
        ensures
            *final(self) == (Rgb8U(old(self).0, old(self).1, b)),
    {
        self.2 = b;
    }

    #[inline(always)]
    pub fn with_alpha(self, a: u8) -> (c: Rgba8U)
        ensures
            c == (Rgba8U(self.0, self.1, self.2, a)),
    {
        Rgba8U(self.0, self.1, self.2, a)
    }

    #[inline(always)]
    pub fn into_opaque(self) -> (c: Rgba8U)
        ensures
            c == (Rgba8U(self.0, self.1, self.2, 255)),
    {
        Rgba8U(self.0, self.1, self.2, 255)
    }

    #[inline(always)]
    pub fn wrapping_add(lhs: Self, rhs: Self) -> (c: Self)
        ensures
            c.0 as int == (lhs.0 + rhs.0) % 256,
            c.1 as int == (lhs.1 + rhs.1) % 256,
            c.2 as int == (lhs.2 + rhs.2) % 256,
    {
        Rgb8U(
            lhs.0.wrapping_add(rhs.0),
            lhs.1.wrapping_add(rhs.1),
            lhs.2.wrapping_add(rhs.2),
        )
    }

    #[inline(always)]
    pub fn wrapping_sub(lhs: Self, rhs: Self) -> (c: Self)
        ensures
            c.0 as int == (lhs.0 - rhs.0 + 256) % 256,
            c.1 as int == (lhs.1 - rhs.1 + 256) % 256,
            c.2 as int == (lhs.2 - rhs.2 + 256) % 256,
    {
        Rgb8U(
            lhs.0.wrapping_sub(rhs.0),
            lhs.1.wrapping_sub(rhs.1),
            lhs.2.wrapping_sub(rhs.2),
        )
    }
}

/// An RGBA color with one unsigned byte per channel.
#[derive(Clone, Copy, Debug, PartialEq, Eq, Structural)]
pub struct Rgba8U(pub u8, pub u8, pub u8, pub u8);

impl Rgba8U {
    #[inline(always)]
    pub fn new(r: u8, g: u8, b: u8, a: u8) -> (c: Self)
        ensures
            c == (Rgba8U(r, g, b, a)),
    {
        Rgba8U(r, g, b, a)
    }

    /// Return color from raw bytes.
    #[inline(always)]
    pub fn from_bytes(bytes: [u8; 4]) -> (c: Self)
        ensures
            c == (Rgba8U(bytes[0], bytes[1], bytes[2], bytes[3])),
    {
        Rgba8U(bytes[0], bytes[1], bytes[2], bytes[3])
    }

    /// Return the raw bytes of the color.
    #[inline(always)]
    pub fn bytes(&self) -> (bytes: [u8; 4])
        ensures
            bytes[0] == self.0,
            bytes[1] == self.1,
            bytes[2] == self.2,
            bytes[3] == self.3,
    {
        [self.0, self.1, self.2, self.3]
    }

    #[inline(always)]
    pub fn r(&self) -> (r: u8)
        ensures
            r == self.0,
    {
        self.0
    }

    #[inline(always)]
    pub fn g(&self) -> (g: u8)
        ensures
            g == self.1,
    {
        self.1
    }

    #[inline(always)]
    pub fn b(&self) -> (b: u8)
        ensures
            b == self.2,
    {
        self.2
    }

    #[inline(always)]
    pub fn a(&self) -> (a: u8)
        ensures
            a == self.3,
    {
        self.3
    }

    #[inline(always)]
    pub fn set_r(&mut self, r: u8)
        ensures
            *final(self) == (Rgba8U(r, old(self).1, old(self).2, old(self).3)),
    {
        self.0 = r;
    }

    #[inline(always)]
    pub fn set_g(&mut self, g: u8)
        ensures
            *final(self) == (Rgba8U(old(self).0, g, old(self).2, old(self).3)),
    {
        self.1 = g;
    }

    #[inline(always)]
    pub fn set_b(&mut self, b: u8)
        ensures
            *final(self) == (Rgba8U(old(self).0, old(self).1, b, old(self).3)),
    {
        self.2 = b;
    }

    #[inline(always)]
    pub fn set_a(&mut self, a: u8)
        ensures
            *final(self) == (Rgba8U(old(self).0, old(self).1, old(self).2, a)),
    {
        self.3 = a;
    }

    #[inline(always)]
    pub fn rgb(&self) -> (c: Rgb8U)
        ensures
            c == (Rgb8U(self.0, self.1, self.2)),
    {
        Rgb8U(self.0, self.1, self.2)
    }

    #[inline(always)]
    pub fn wrapping_add(lhs: Self, rhs: Self) -> (c: Self)
        ensures
            c.0 as int == (lhs.0 + rhs.0) % 256,
            c.1 as int == (lhs.1 + rhs.1) % 256,
            c.2 as int == (lhs.2 + rhs.2) % 256,
            c.3 as int == (lhs.3 + rhs.3) % 256,
    {
        Rgba8U(
            lhs.0.wrapping_add(rhs.0),
            lhs.1.wrapping_add(rhs.1),
            lhs.2.wrapping_add(rhs.2),
            lhs.3.wrapping_add(rhs.3),
        )
    }

    #[inline(always)]
    pub fn wrapping_sub(lhs: Self, rhs: Self) -> (c: Self)
        ensures
            c.0 as int == (lhs.0 - rhs.0 + 256) % 256,
            c.1 as int == (lhs.1 - rhs.1 + 256) % 256,
            c.2 as int == (lhs.2 - rhs.2 + 256) % 256,
            c.3 as int == (lhs.3 - rhs.3 + 256) % 256,
    {
        Rgba8U(
            lhs.0.wrapping_sub(rhs.0),
            lhs.1.wrapping_sub(rhs.1),
            lhs.2.wrapping_sub(rhs.2),
            lhs.3.wrapping_sub(rhs.3),
        )
    }
}

/// An RGB color packed into 16 bits with 5, 6 and 5 bits per channel.
///
/// Equality is bit equality; the packed bit value also gives the ordering
/// that the block codec uses to tell the two palette modes apart.
#[derive(Clone, Copy, Debug, PartialEq, Eq, Hash, Structural)]
pub struct Rgb565(pub u16);

/// The two little-endian bytes of a packed 16-bit color.
pub open spec fn spec_rgb565_bytes(c: Rgb565) -> Seq<u8> {
    seq![(c.0 & 0xff) as u8, (c.0 >> 8) as u8]
}

/// The packed 16-bit color read from two little-endian bytes.
pub open spec fn spec_rgb565_from_bytes(s: Seq<u8>) -> Rgb565 {
    Rgb565((s[0] as u16) | ((s[1] as u16) << 8))
}

/// The three unpacked channels fit their widths.
pub proof fn lemma_rgb565_channel_bounds(x: u16)
    by (bit_vector)
    ensures
        (x >> 11) as u8 <= 31,
        ((x >> 5) & 0b111111) as u8 <= 63,
        (x & 0b11111) as u8 <= 31,
        x >> 11 <= 31,
        (x >> 5) & 0b111111 <= 63,
        x & 0b11111 <= 31,
{
}

impl Rgb565 {
    pub fn new(r: u8, g: u8, b: u8) -> (c: Self)
        requires
            r <= 31,
            g <= 63,
            b <= 31,
        ensures
            c.0 == ((r as u16) << 11) | ((g as u16) << 5) | (b as u16),
    {
        Rgb565(((r as u16) << 11) | ((g as u16) << 5) | (b as u16))
    }

    /// Return the raw bits of the encoded color.
    #[inline(always)]
    pub fn bits(&self) -> (bits: u16)
        ensures
            bits == self.0,
    {
        self.0
    }

    /// Return color from raw bits.
    #[inline(always)]
    pub fn from_bits(bits: u16) -> (c: Self)
        ensures
            c.0 == bits,
    {
        Rgb565(bits)
    }

    /// Pack the channels bit-interleaved instead of contiguous: green,
    /// blue and red bits take turns from the least significant end.
    pub fn bits_interleaved(&self) -> (bits: u16)
        ensures
            bits == spec_bits_interleaved(*self),
    {
        proof {
            lemma_rgb565_channel_bounds(self.0);
        }
        let r = self.r() as u16;
        let g = self.g() as u16;
        let b = self.b() as u16;

        let bits: u16 = ((g & 0b1) << 0) | ((b & 0b1) << 1) | ((r & 0b1) << 2) | ((g & 0b10) << 2)
            | ((b & 0b10) << 3) | ((r & 0b10) << 4) | ((g & 0b100) << 4) | ((b & 0b100) << 5) | ((r
            & 0b100) << 6) | ((g & 0b1000) << 6) | ((b & 0b1000) << 7) | ((r & 0b1000) << 8) | ((g
            & 0b10000) << 8) | ((b & 0b10000) << 9) | ((r & 0b10000) << 10) | ((g & 0b100000)
            << 10);

        bits
    }

    /// Unpack a bit-interleaved color back into the contiguous layout.
    pub fn from_bits_interleaved(bits: u16) -> (c: Self)
        ensures
            c == spec_from_bits_interleaved(bits),
    {
        let r: u16 = ((bits & 0b100) >> 2) | ((bits & 0b100000) >> 4) | ((bits & 0b100000000)
            >> 6) | ((bits & 0b100000000000) >> 8) | ((bits & 0b100000000000000) >> 10);
        let g: u16 = ((bits & 0b1) >> 0) | ((bits & 0b1000) >> 2) | ((bits & 0b1000000) >> 4) | ((
        bits & 0b1000000000) >> 6) | ((bits & 0b1000000000000) >> 8) | ((bits
            & 0b1000000000000000) >> 10);
        let b: u16 = ((bits & 0b10) >> 1) | ((bits & 0b10000) >> 3) | ((bits & 0b10000000) >> 5)
            | ((bits & 0b10000000000) >> 7) | ((bits & 0b10000000000000) >> 9);

        proof {
            assert(spec_interleaved_r(bits) <= 31 && spec_interleaved_g(bits) <= 63
                && spec_interleaved_b(bits) <= 31) by (bit_vector);
            assert(r == spec_interleaved_r(bits));
            assert(g == spec_interleaved_g(bits));
            assert(b == spec_interleaved_b(bits));
        }
        Rgb565::new(r as u8, g as u8, b as u8)
    }

    /// Return color from raw little-endian bytes.
    #[inline(always)]
    pub fn from_bytes(bytes: [u8; 2]) -> (c: Self)
        ensures
            c == spec_rgb565_from_bytes(bytes@),
    {
        Rgb565((bytes[0] as u16) | ((bytes[1] as u16) << 8))
    }

    /// Return the raw little-endian bytes of the color.
    #[inline(always)]
    pub fn bytes(&self) -> (bytes: [u8; 2])
        ensures
            bytes@ == spec_rgb565_bytes(*self),
    {
        let low: u8 = (self.0 & 0xff) as u8;
        let high: u8 = (self.0 >> 8) as u8;
        [low, high]
    }

    #[inline(always)]
    pub fn r(&self) -> (r: u8)
        ensures
            r == (self.0 >> 11) as u8,
            r <= 31,
    {
        proof {
            lemma_rgb565_channel_bounds(self.0);
        }
        (self.0 >> 11) as u8
    }

    #[inline(always)]
    pub fn g(&self) -> (g: u8)
        ensures
            g == ((self.0 >> 5) & 0b111111) as u8,
            g <= 63,
    {
        proof {
            lemma_rgb565_channel_bounds(self.0);
        }
        ((self.0 >> 5) & 0b111111) as u8
    }

    #[inline(always)]
    pub fn b(&self) -> (b: u8)
        ensures
            b == (self.0 & 0b11111) as u8,
            b <= 31,
    {
        proof {
            lemma_rgb565_channel_bounds(self.0);
        }
        (self.0 & 0b11111) as u8
    }

    #[inline(always)]
    pub fn set_r(&mut self, r: u8)
        requires
            r <= 31,
        ensures
            final(self).0 == (old(self).0 & 0b00000_111111_11111) | ((r as u16) << 11),
    {
        self.0 = (self.0 & 0b00000_111111_11111) | ((r as u16) << 11);
    }

    #[inline(always)]
    pub fn set_g(&mut self, g: u8)
        requires
            g <= 63,
        ensures
            final(self).0 == (old(self).0 & 0b11111_000000_11111) | ((g as u16) << 5),
    {
        self.0 = (self.0 & 0b11111_000000_11111) | ((g as u16) << 5);
    }

    #[inline(always)]
    pub fn set_b(&mut self, b: u8)
        requires
            b <= 31,
        ensures
            final(self).0 == (old(self).0 & 0b11111_111111_00000) | (b as u16),
    {
        self.0 = (self.0 & 0b11111_111111_00000) | (b as u16);
    }

    /// Wrapping addition, each channel taken modulo its own width.
    pub fn wrapping_add(a: Self, b: Self) -> (c: Self)
        ensures
            c.0 == (((((a.0 >> 11) + (b.0 >> 11)) % 32) as u16) << 11)
                | ((((((a.0 >> 5) & 63) + ((b.0 >> 5) & 63)) % 64) as u16) << 5)
                | ((((a.0 & 31) + (b.0 & 31)) % 32) as u16),
    {
        let ar = a.r();
        let ag = a.g();
        let ab = a.b();
        let br = b.r();
        let bg = b.g();
        let bb = b.b();
        let r: u8 = ar.wrapping_add(br) & 31;
        let g: u8 = ag.wrapping_add(bg) & 63;
        let bl: u8 = ab.wrapping_add(bb) & 31;
        proof {
            let x = a.0;
            let y = b.0;
            assert(((((x >> 11) as u8 + (y >> 11) as u8) % 256) as u8 & 31) as u16 == (((x >> 11)
                + (y >> 11)) % 32) as u16 && (((((x >> 5) & 63) as u8 + ((y >> 5) & 63) as u8)
                % 256) as u8 & 63) as u16 == ((((x >> 5) & 63) + ((y >> 5) & 63)) % 64) as u16 && ((
            ((x & 31) as u8 + (y & 31) as u8) % 256) as u8 & 31) as u16 == (((x & 31) + (y & 31))
                % 32) as u16) by (bit_vector);
        }
        Rgb565::new(r, g, bl)
    }

    /// Wrapping subtraction, each channel taken modulo its own width.
    pub fn wrapping_sub(a: Self, b: Self) -> (c: Self)
        ensures
            c.0 == (((((a.0 >> 11) - (b.0 >> 11) + 32) % 32) as u16) << 11)
                | ((((((a.0 >> 5) & 63) - ((b.0 >> 5) & 63) + 64) % 64) as u16) << 5)
                | ((((a.0 & 31) - (b.0 & 31) + 32) % 32) as u16),
    {
        let ar = a.r();
        let ag = a.g();
        let ab = a.b();
        let br = b.r();
        let bg = b.g();
        let bb = b.b();
        let r: u8 = ar.wrapping_sub(br) & 31;
        let g: u8 = ag.wrapping_sub(bg) & 63;
        let bl: u8 = ab.wrapping_sub(bb) & 31;
        proof {
            let x = a.0;
            let y = b.0;
            assert(((((x >> 11) as u8 - (y >> 11) as u8 + 256) % 256) as u8 & 31) as u16 == ((((x
                >> 11) - (y >> 11)) + 32) % 32) as u16 && (((((x >> 5) & 63) as u8 - ((y >> 5)
                & 63) as u8 + 256) % 256) as u8 & 63) as u16 == (((((x >> 5) & 63) - ((y >> 5)
                & 63)) + 64) % 64) as u16 && ((((x & 31) as u8 - (y & 31) as u8 + 256) % 256) as u8
                & 31) as u16 == ((((x & 31) - (y & 31)) + 32) % 32) as u16) by (bit_vector);
        }
        Rgb565::new(r, g, bl)
    }
}

/// Reading a color from two little-endian bytes and packing it again
/// returns the same bytes.
pub proof fn lemma_rgb565_bytes_roundtrip_seq(s: Seq<u8>)
    requires
        s.len() == 2,
    ensures
        spec_rgb565_bytes(spec_rgb565_from_bytes(s)) == s,
{
    let b0 = s[0];
    let b1 = s[1];
    assert((((b0 as u16) | ((b1 as u16) << 8)) & 0xff) as u8 == b0) by (bit_vector);
    assert((((b0 as u16) | ((b1 as u16) << 8)) >> 8) as u8 == b1) by (bit_vector);
    assert(spec_rgb565_bytes(spec_rgb565_from_bytes(s)) =~= s);
}


/// The bit-interleaved packing of a color's channels.
pub open spec fn spec_bits_interleaved(c: Rgb565) -> u16 {
    let r = c.0 >> 11;
    let g = (c.0 >> 5) & 63;
    let b = c.0 & 31;
    ((g & 0b1) << 0) | ((b & 0b1) << 1) | ((r & 0b1) << 2) | ((g & 0b10) << 2) | ((b & 0b10) << 3)
        | ((r & 0b10) << 4) | ((g & 0b100) << 4) | ((b & 0b100) << 5) | ((r & 0b100) << 6) | ((g
        & 0b1000) << 6) | ((b & 0b1000) << 7) | ((r & 0b1000) << 8) | ((g & 0b10000) << 8) | ((b
        & 0b10000) << 9) | ((r & 0b10000) << 10) | ((g & 0b100000) << 10)
}

/// The red channel recovered from a bit-interleaved packing.
pub open spec fn spec_interleaved_r(bits: u16) -> u16 {
    ((bits & 0b100) >> 2) | ((bits & 0b100000) >> 4) | ((bits & 0b100000000) >> 6) | ((bits
        & 0b100000000000) >> 8) | ((bits & 0b100000000000000) >> 10)
}

/// The green channel recovered from a bit-interleaved packing.
pub open spec fn spec_interleaved_g(bits: u16) -> u16 {
    ((bits & 0b1) >> 0) | ((bits & 0b1000) >> 2) | ((bits & 0b1000000) >> 4) | ((bits
        & 0b1000000000) >> 6) | ((bits & 0b1000000000000) >> 8) | ((bits & 0b1000000000000000)
        >> 10)
}

/// The blue channel recovered from a bit-interleaved packing.
pub open spec fn spec_interleaved_b(bits: u16) -> u16 {
    ((bits & 0b10) >> 1) | ((bits & 0b10000) >> 3) | ((bits & 0b10000000) >> 5) | ((bits
        & 0b10000000000) >> 7) | ((bits & 0b10000000000000) >> 9)
}

/// The color a bit-interleaved packing denotes.
pub open spec fn spec_from_bits_interleaved(bits: u16) -> Rgb565 {
    Rgb565(
        (spec_interleaved_r(bits) << 11) | (spec_interleaved_g(bits) << 5) | spec_interleaved_b(
            bits,
        ),
    )
}

/// Interleaving a color's channel bits and splitting them again returns
/// the same color.
pub proof fn lemma_rgb565_interleaved_roundtrip(c: Rgb565)
    ensures
        spec_from_bits_interleaved(spec_bits_interleaved(c)) == c,
{
    let x = c.0;
    assert((spec_interleaved_r(spec_bits_interleaved(Rgb565(x))) << 11) | (spec_interleaved_g(
        spec_bits_interleaved(Rgb565(x)),
    ) << 5) | spec_interleaved_b(spec_bits_interleaved(Rgb565(x))) == x) by (bit_vector);
}

/// Packing a color into its two little-endian bytes and reading them back
/// returns the same color.
pub proof fn lemma_rgb565_bytes_roundtrip(c: Rgb565)
    ensures
        spec_rgb565_from_bytes(spec_rgb565_bytes(c)) == c,
{
    let x = c.0;
    assert((((x & 0xff) as u8) as u16) | ((((x >> 8) as u8) as u16) << 8) == x) by (bit_vector);
}

} // verus!
