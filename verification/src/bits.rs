//! Types and functions to work with individual bits.
//!
//! The writer packs bits least-significant-first into a growing byte
//! buffer; the reader consumes bits in the same order from a byte slice.

use vstd::prelude::*;

verus! {

/// Whether bit `i` (least-significant-first) of `byte` is set.
pub open spec fn byte_bit(byte: u8, i: int) -> bool {
    (byte >> (i as u8)) & 1 == 1
}

/// Bit `j` of a byte sequence, least-significant-first within each byte.
pub open spec fn bit_at(s: Seq<u8>, j: int) -> bool {
    byte_bit(s[j / 8], j % 8)
}

/// The bit sequence that a byte sequence spells, least-significant-first.
pub open spec fn bytes_bits(s: Seq<u8>) -> Seq<bool> {
    Seq::new(s.len() * 8, |j: int| bit_at(s, j))
}

/// A bit sequence extended with zero bits up to the next byte boundary.
pub open spec fn zero_padded(bits: Seq<bool>) -> Seq<bool> {
    bits + Seq::new(((8 - bits.len() % 8) % 8) as nat, |i: int| false)
}

pub proof fn lemma_bytes_bits_push(s: Seq<u8>, b: u8)
    ensures
        bytes_bits(s.push(b)) == bytes_bits(s) + Seq::new(8, |i: int| byte_bit(b, i)),
{
    let lhs = bytes_bits(s.push(b));
    let rhs = bytes_bits(s) + Seq::new(8, |i: int| byte_bit(b, i));
    assert forall|j: int| 0 <= j < lhs.len() implies lhs[j] == rhs[j] by {
        if j < s.len() * 8 {
            assert(s.push(b)[j / 8] == s[j / 8]);
        } else {
            assert(j / 8 == s.len());
            assert(s.push(b)[j / 8] == b);
        }
    }
    assert(lhs =~= rhs);
}

/// Wrapper around a byte buffer to write bits.
pub struct WriteBits {
    /// Completed bytes, in output order.
    pub out: Vec<u8>,
    /// Bits of an incomplete final byte, least-significant-first.
    pub buffer: u8,
    /// How many bits of `buffer` are in use.
    pub buffer_len: u8,
}

impl WriteBits {
    /// All bits accepted so far, in stream order.
    pub open spec fn bits(&self) -> Seq<bool> {
        bytes_bits(self.out@) + Seq::new(self.buffer_len as nat, |i: int| byte_bit(self.buffer, i))
    }

    /// The unused high bits of the partial byte stay clear, so that the
    /// final padding emits zero bits.
    pub open spec fn wf(&self) -> bool {
        &&& self.buffer_len < 8
        &&& self.buffer >> self.buffer_len == 0
    }

    pub fn new() -> (w: Self)
        ensures
            w.wf(),
            w.bits() == Seq::<bool>::empty(),
            w.out@ == Seq::<u8>::empty(),
    {
        let w = WriteBits { out: Vec::new(), buffer: 0, buffer_len: 0 };
        proof {
            assert(0u8 >> 0u8 == 0) by (bit_vector);
            assert(w.bits() =~= Seq::<bool>::empty());
        }
        w
    }

    /// Append a single bit to the stream.
    fn push_bit(&mut self, bit: bool)
        requires
            old(self).wf(),
        ensures
            final(self).wf(),
            final(self).bits() == old(self).bits().push(bit),
    {
        let ghost prev = *self;
        let b = self.buffer;
        let bl = self.buffer_len;
        if bit {
            self.buffer = b | (1u8 << bl);
        }
        proof {
            let nb = self.buffer;
            assert((forall|i: u8| i < bl ==> ((b | (1u8 << bl)) >> i) & 1 == (b >> i) & 1) && (bl
                < 8 ==> ((b | (1u8 << bl)) >> bl) & 1 == 1) && (bl < 8 && b >> bl == 0 ==> (b >> bl)
                & 1 == 0) && (bl < 8 && b >> bl == 0 ==> (b | (1u8 << bl)) >> ((bl + 1) as u8) == 0)
                && (bl < 8 && b >> bl == 0 ==> b >> ((bl + 1) as u8) == 0)) by (bit_vector);
        }
        self.buffer_len = bl + 1;
        proof {
            assert(self.bits() =~= prev.bits().push(bit));
        }
        if self.buffer_len == 8 {
            let ghost mid = *self;
            let full = self.buffer;
            self.out.push(full);
            self.buffer = 0;
            self.buffer_len = 0;
            proof {
                assert(0u8 >> 0u8 == 0) by (bit_vector);
                lemma_bytes_bits_push(prev.out@, full);
                assert(self.bits() =~= mid.bits());
            }
        }
    }

    /// Write bits from the slice.
    /// `bit_offset` specifies the bit offset in the slice to start from.
    /// `bit_len` specifies the number of bits to write.
    ///
    /// Returns the number of bits written, which is always `bit_len`.
    pub fn write_bits(&mut self, data: &[u8], bit_offset: usize, bit_len: usize) -> (n: usize)
        requires
            old(self).wf(),
            bit_offset + bit_len <= data@.len() * 8,
            bit_offset + bit_len <= usize::MAX,
        ensures
            final(self).wf(),
            n == bit_len,
            final(self).bits() == old(self).bits()
                + bytes_bits(data@).subrange(bit_offset as int, bit_offset + bit_len),
    {
        let ghost prev = *self;
        let mut i: usize = 0;
        while i < bit_len
            invariant
                prev.wf(),
                i <= bit_len,
                bit_offset + bit_len <= data@.len() * 8,
                bit_offset + bit_len <= usize::MAX,
                self.wf(),
                self.bits() == prev.bits()
                    + bytes_bits(data@).subrange(bit_offset as int, bit_offset + i),
            decreases bit_len - i,
        {
            let j = bit_offset + i;
            let byte = data[j / 8];
            let bit = ((byte >> ((j % 8) as u8)) & 1) == 1;
            proof {
                assert(bit == bit_at(data@, j as int));
                assert(bytes_bits(data@)[j as int] == bit_at(data@, j as int));
            }
            self.push_bit(bit);
            i = i + 1;
            proof {
                assert(self.bits() =~= prev.bits()
                    + bytes_bits(data@).subrange(bit_offset as int, bit_offset + i));
            }
        }
        bit_len
    }

    /// Flush a trailing incomplete byte, padding it with zero bits.
    ///
    /// Returns the number of bits flushed: eight when a partial byte was
    /// pending, zero otherwise.
    pub fn finish(&mut self) -> (n: usize)
        requires
            old(self).wf(),
        ensures
            final(self).wf(),
            final(self).buffer_len == 0,
            final(self).bits() == zero_padded(old(self).bits()),
            final(self).bits() == bytes_bits(final(self).out@),
            n == if old(self).buffer_len > 0 { 8int } else { 0int },
    {
        let ghost prev = *self;
        if self.buffer_len > 0 {
            let full = self.buffer;
            let ghost bl = self.buffer_len;
            self.out.push(full);
            self.buffer = 0;
            self.buffer_len = 0;
            proof {
                assert(0u8 >> 0u8 == 0) by (bit_vector);
                lemma_bytes_bits_push(prev.out@, full);
                let b = full;
                assert(forall|i: u8| b >> bl == 0 && bl <= i && i < 8 ==> (b >> i) & 1 == 0)
                    by (bit_vector);
                assert(prev.bits().len() % 8 == bl);
                assert(self.bits() =~= zero_padded(prev.bits()));
                assert(self.bits() =~= bytes_bits(self.out@));
            }
            8
        } else {
            proof {
                assert(self.bits() =~= zero_padded(prev.bits()));
                assert(self.bits() =~= bytes_bits(self.out@));
            }
            0
        }
    }

    /// Give up the writer and take the completed bytes.
    pub fn into_bytes(self) -> (r: Vec<u8>)
        ensures
            r@ == self.out@,
    {
        self.out
    }
}

/// Set or clear bit `j` (least-significant-first across bytes) of a byte vector.
fn set_bit(v: &mut Vec<u8>, j: usize, bit: bool)
    requires
        j < old(v)@.len() * 8,
        j < usize::MAX,
    ensures
        final(v)@.len() == old(v)@.len(),
        bit_at(final(v)@, j as int) == bit,
        forall|k: int| 0 <= k < old(v)@.len() * 8 && k != j ==> bit_at(final(v)@, k) == bit_at(
            old(v)@,
            k,
        ),
{
    let ghost prev = v@;
    let byte_idx = j / 8;
    let sh: u8 = (j % 8) as u8;
    let b = v[byte_idx];
    let nb: u8 = if bit {
        b | (1u8 << sh)
    } else {
        b & !(1u8 << sh)
    };
    v[byte_idx] = nb;
    proof {
        assert((sh < 8 ==> ((b | (1u8 << sh)) >> sh) & 1 == 1) && (sh < 8 ==> ((b & !(1u8 << sh))
            >> sh) & 1 == 0) && (forall|i: u8|
            i < 8 && i != sh ==> ((b | (1u8 << sh)) >> i) & 1 == (b >> i) & 1) && (forall|i: u8|
            i < 8 && i != sh ==> ((b & !(1u8 << sh)) >> i) & 1 == (b >> i) & 1)) by (bit_vector);
        assert forall|k: int| 0 <= k < prev.len() * 8 && k != j implies bit_at(v@, k) == bit_at(
            prev,
            k,
        ) by {
            if k / 8 == byte_idx {
                assert(k % 8 != sh);
            }
        }
    }
}

/// Wrapper around a byte slice to read bits.
pub struct ReadBits<'a> {
    /// The underlying bytes.
    pub data: &'a [u8],
    /// The position of the next unread bit.
    pub pos: usize,
}

impl<'a> ReadBits<'a> {
    pub open spec fn wf(&self) -> bool {
        &&& self.pos <= self.data@.len() * 8
        &&& self.data@.len() * 8 <= usize::MAX
    }

    /// How many bits are left to read.
    pub open spec fn remaining(&self) -> int {
        self.data@.len() * 8 - self.pos
    }

    pub fn new(data: &'a [u8]) -> (r: Self)
        requires
            data@.len() * 8 <= usize::MAX,
        ensures
            r.wf(),
            r.data@ == data@,
            r.pos == 0,
    {
        ReadBits { data, pos: 0 }
    }

    /// A reader positioned at the start of byte `byte_pos` of `data`.
    pub fn new_at(data: &'a [u8], byte_pos: usize) -> (r: Self)
        requires
            byte_pos <= data@.len(),
            data@.len() * 8 <= usize::MAX,
        ensures
            r.wf(),
            r.data@ == data@,
            r.pos == byte_pos * 8,
    {
        ReadBits { data, pos: byte_pos * 8 }
    }

    /// Read bits into the buffer.
    /// `bit_offset` specifies the bit offset in the buffer to read into.
    /// All other bits of the buffer are preserved.
    /// `bit_len` specifies the number of bits to read.
    ///
    /// Returns the number of bits read.
    /// It would be `bit_len`, unless the underlying bytes are exhausted.
    pub fn read_bits(&mut self, out: &mut Vec<u8>, bit_offset: usize, bit_len: usize) -> (n: usize)
        requires
            old(self).wf(),
            old(out)@.len() >= (bit_offset + bit_len + 7) / 8,
            bit_offset + bit_len <= usize::MAX - 7,
        ensures
            final(self).wf(),
            final(self).data@ == old(self).data@,
            n == if bit_len <= old(self).remaining() { bit_len as int } else { old(self).remaining() },
            final(self).pos == old(self).pos + n,
            final(out)@.len() == old(out)@.len(),
            forall|j: int| bit_offset <= j < bit_offset + n ==> #[trigger] bit_at(final(out)@, j)
                == bit_at(old(self).data@, old(self).pos + (j - bit_offset)),
            forall|k: int| 0 <= k < old(out)@.len() * 8
                && !(bit_offset <= k < bit_offset + n) ==> #[trigger] bit_at(final(out)@, k)
                == bit_at(old(out)@, k),
    {
        let ghost prev_self = *self;
        let ghost prev_out = out@;
        let mut i: usize = 0;
        let mut n: usize = bit_len;
        let rem = self.data.len() * 8 - self.pos;
        if rem < bit_len {
            n = rem;
        }
        while i < n
            invariant
                prev_self.wf(),
                i <= n,
                n as int == if bit_len <= prev_self.remaining() {
                    bit_len as int
                } else {
                    prev_self.remaining()
                },
                bit_offset + bit_len <= usize::MAX - 7,
                prev_out.len() >= (bit_offset + bit_len + 7) / 8,
                self.data@ == prev_self.data@,
                self.pos == prev_self.pos + i,
                self.wf(),
                out@.len() == prev_out.len(),
                forall|j: int| bit_offset <= j < bit_offset + i ==> #[trigger] bit_at(out@, j)
                    == bit_at(prev_self.data@, prev_self.pos + (j - bit_offset)),
                forall|k: int| 0 <= k < prev_out.len() * 8
                    && !(bit_offset <= k < bit_offset + i) ==> #[trigger] bit_at(out@, k)
                    == bit_at(prev_out, k),
            decreases n - i,
        {
            let j = self.pos;
            let byte = self.data[j / 8];
            let bit = ((byte >> ((j % 8) as u8)) & 1) == 1;
            proof {
                assert(bit == bit_at(self.data@, j as int));
                assert((bit_offset + i) < prev_out.len() * 8);
            }
            set_bit(out, bit_offset + i, bit);
            self.pos = j + 1;
            i = i + 1;
        }
        n
    }
}

} // verus!
