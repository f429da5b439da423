//! LZW compression over a fixed alphabet with codewords that grow bit by
//! bit.
//!
//! Codes `0 .. A` stand for the single symbols of the alphabet; dictionary
//! entries are numbered from `A` up. Every codeword is written with the
//! least width that can hold one more than the largest assignable code, so
//! an encoder and a decoder that track the same dictionary read and write
//! the same widths.

use vstd::prelude::*;
use vstd::arithmetic::power2::pow2;

use crate::bits::{bit_at, bytes_bits, ReadBits, WriteBits};

verus! {

/// The least `w` with `pow2(w) >= n`.
pub open spec fn ceil_log2(n: nat) -> nat
    decreases n,
{
    if n <= 1 {
        0
    } else {
        1 + ceil_log2((n + 1) / 2)
    }
}

pub proof fn lemma_ceil_log2_le(n: nat, w: nat)
    requires
        n <= pow2(w),
    ensures
        ceil_log2(n) <= w,
    decreases n,
{
    if n <= 1 {
    } else {
        assert(pow2(0) == 1) by {
            vstd::arithmetic::power2::lemma2_to64();
        }
        assert(w >= 1);
        assert(pow2(w) == 2 * pow2((w - 1) as nat)) by {
            vstd::arithmetic::power2::lemma_pow2_unfold(w);
        }
        lemma_ceil_log2_le((n + 1) / 2, (w - 1) as nat);
    }
}

/// The low `w` bits of `val`, least significant first.
pub open spec fn le_bits(val: u32, w: nat) -> Seq<bool> {
    Seq::new(w, |i: int| (val >> (i as u32)) & 1 == 1)
}

/// The number a bit sequence spells, least significant bit first.
pub open spec fn bits_le_value(s: Seq<bool>) -> nat
    decreases s.len(),
{
    if s.len() == 0 {
        0
    } else {
        (if s[0] {
            1nat
        } else {
            0nat
        }) + 2 * bits_le_value(s.drop_first())
    }
}

/// The number spelled by the `w` bits of `data` that start at bit `pos`.
pub open spec fn stream_code(data: Seq<u8>, pos: int, w: nat) -> nat {
    bits_le_value(Seq::new(w, |i: int| bit_at(data, pos + i)))
}

/// The four little-endian bytes of a 32-bit value.
pub open spec fn le4(v: u32) -> Seq<u8> {
    seq![
        (v & 0xff) as u8,
        ((v >> 8) & 0xff) as u8,
        ((v >> 16) & 0xff) as u8,
        ((v >> 24) & 0xff) as u8,
    ]
}

/// Bit `j` of the little-endian byte spelling of `v` is bit `j` of `v`.
pub proof fn lemma_le4_bits(v: u32)
    ensures
        forall|j: int| 0 <= j < 32 ==> #[trigger] bit_at(le4(v), j) == ((v >> (j as u32)) & 1 == 1),
{
    assert forall|j: int| 0 <= j < 32 implies #[trigger] bit_at(le4(v), j) == ((v >> (j as u32)) & 1
        == 1) by {
        let r = (j % 8) as u32;
        assert((r < 8 ==> (((v & 0xff) as u8 >> (r as u8)) & 1 == 1) == ((v >> r) & 1 == 1)) && (r
            < 8 ==> ((((v >> 8) & 0xff) as u8 >> (r as u8)) & 1 == 1) == ((v >> ((r + 8) as u32))
            & 1 == 1)) && (r < 8 ==> ((((v >> 16) & 0xff) as u8 >> (r as u8)) & 1 == 1) == ((v >> ((
        r + 16) as u32)) & 1 == 1)) && (r < 8 ==> ((((v >> 24) & 0xff) as u8 >> (r as u8)) & 1 == 1)
            == ((v >> ((r + 24) as u32)) & 1 == 1))) by (bit_vector);
    }
}

/// A value whose bits at and above `w` are clear is the number its low
/// `w` bits spell.
pub proof fn lemma_bits_value(v: u32, s: Seq<bool>, w: u32)
    requires
        w <= 32,
        s.len() == w,
        forall|j: int| 0 <= j < w ==> s[j] == ((v >> (j as u32)) & 1 == 1),
        w < 32 ==> v >> w == 0,
    ensures
        bits_le_value(s) == v,
        v < pow2(w as nat),
    decreases w,
{
    vstd::arithmetic::power2::lemma2_to64();
    if w == 0 {
        assert(v >> 0u32 == 0 ==> v == 0) by (bit_vector);
    } else {
        let v2 = v >> 1;
        let w2: u32 = (w - 1) as u32;
        let s2 = s.drop_first();
        assert(forall|j: u32| j < 32 ==> ((v >> 1) >> j) & 1 == (v >> ((j + 1) as u32)) & 1)
            by (bit_vector);
        assert(forall|j: int| 0 <= j < w2 ==> s2[j] == ((v2 >> (j as u32)) & 1 == 1));
        assert(w2 < 32 && w < 32 && v >> w == 0 ==> (v >> 1) >> w2 == 0) by (bit_vector)
            requires
                w2 == w - 1 && w <= 32,
        ;
        assert(w == 32 ==> (v >> 1) >> w2 == 0) by (bit_vector)
            requires
                w2 == w - 1 && w <= 32,
        ;
        lemma_bits_value(v2, s2, w2);
        assert(v == (if (v >> 0u32) & 1 == 1 {
            1nat
        } else {
            0nat
        }) + 2 * (v >> 1)) by (bit_vector);
        assert(pow2(w as nat) == 2 * pow2(w2 as nat)) by {
            vstd::arithmetic::power2::lemma_pow2_unfold(w as nat);
        }
    }
}

/// One dictionary entry of the encoder: an already-assigned code followed
/// by one more symbol.
#[derive(Clone, Copy, Debug, PartialEq, Eq, Structural)]
pub struct Entry {
    pub prefix: u32,
    pub element: u32,
}

/// The width used for a codeword while `n_entries` dictionary entries
/// exist: wide enough for every assignable code, including the one that
/// is about to be assigned.
pub open spec fn emit_width(a: nat, n_entries: nat) -> nat {
    ceil_log2(a + n_entries + 1)
}

/// The index of `e` in `s`, if present.
pub open spec fn find_entry(s: Seq<Entry>, e: Entry) -> Option<int>
    decreases s.len(),
{
    if s.len() == 0 {
        None
    } else if s[0] == e {
        Some(0)
    } else {
        match find_entry(s.drop_first(), e) {
            Some(i) => Some(i + 1),
            None => None,
        }
    }
}

/// An LZW encoder over the alphabet `0 .. A`.
pub struct Encoder<const A: u32> {
    /// Dictionary entry `i` defines code `A + i`.
    pub entries: Vec<Entry>,
    /// The code of the pending input prefix, if any symbols are pending.
    pub prefix: Option<u32>,
}

impl<const A: u32> Encoder<A> {
    pub open spec fn wf(&self) -> bool {
        &&& A >= 2
        &&& forall|i: int|
            0 <= i < self.entries@.len() ==> (#[trigger] self.entries@[i]).prefix < A + i
                && self.entries@[i].element < A
        &&& forall|i: int, j: int|
            0 <= i < j < self.entries@.len() ==> self.entries@[i] != self.entries@[j]
        &&& match self.prefix {
            Some(p) => p < A + self.entries@.len(),
            None => true,
        }
    }

    pub fn new() -> (r: Self)
        requires
            A >= 2,
        ensures
            r.wf(),
            r.entries@ == Seq::<Entry>::empty(),
            r.prefix == Option::<u32>::None,
    {
        Encoder { entries: Vec::new(), prefix: None }
    }

    /// The code assigned to `entry`, if the dictionary holds it.
    fn lookup(&self, entry: Entry) -> (r: Option<u32>)
        requires
            self.wf(),
            self.entries@.len() + A < 0x8000_0000,
            entry.prefix < A + self.entries@.len(),
        ensures
            match r {
                Some(c) => A <= c && c - A < self.entries@.len() && self.entries@[c - A] == entry,
                None => forall|i: int| 0 <= i < self.entries@.len() ==> self.entries@[i] != entry,
            },
    {
        let start: usize = if entry.prefix >= A {
            (entry.prefix - A) as usize
        } else {
            0
        };
        proof {
            assert forall|j: int| 0 <= j < start implies self.entries@[j] != entry by {
                assert(self.entries@[j].prefix < A + j);
            }
        }
        let mut i: usize = start;
        while i < self.entries.len()
            invariant
                self.wf(),
                self.entries@.len() + A < 0x8000_0000,
                start <= i,
                i <= self.entries@.len(),
                forall|j: int| 0 <= j < i ==> self.entries@[j] != entry,
            decreases self.entries@.len() - i,
        {
            let e = self.entries[i];
            if e.prefix == entry.prefix && e.element == entry.element {
                return Some(A + i as u32);
            }
            i = i + 1;
        }
        None
    }

    /// Emit the codeword `index` at the current width.
    fn write(&self, index: u32, writer: &mut WriteBits)
        requires
            self.wf(),
            old(writer).wf(),
            self.entries@.len() + A < 0x8000_0000,
        ensures
            final(writer).wf(),
            final(writer).bits() == old(writer).bits() + le_bits(
                index,
                emit_width(A as nat, self.entries@.len()),
            ),
    {
        let n: u32 = A + self.entries.len() as u32 + 1;
        let w = ceil_log2_u32(n);
        proof {
            vstd::arithmetic::power2::lemma2_to64();
            lemma_ceil_log2_le(n as nat, 32);
        }
        let index_bytes: [u8; 4] = [
            (index & 0xff) as u8,
            ((index >> 8) & 0xff) as u8,
            ((index >> 16) & 0xff) as u8,
            ((index >> 24) & 0xff) as u8,
        ];
        proof {
            assert(index_bytes@ =~= le4(index));
        }
        writer.write_bits(index_bytes.as_slice(), 0, w as usize);
        proof {
            lemma_le4_bits(index);
            assert(bytes_bits(le4(index)).subrange(0, w as int) =~= le_bits(index, w as nat));
        }
    }

    /// Feed one symbol to the encoder.
    ///
    /// While the pending prefix extended by `input` is in the dictionary,
    /// nothing is written; otherwise the prefix's code goes out at the
    /// current width, the extended string gets the next code, and `input`
    /// starts the new prefix.
    pub fn encode(&mut self, input: u32, writer: &mut WriteBits)
        requires
            old(self).wf(),
            input < A,
            old(writer).wf(),
            old(self).entries@.len() + A < 0x8000_0000,
        ensures
            final(self).wf(),
            final(writer).wf(),
            match old(self).prefix {
                None => {
                    &&& final(self).entries@ == old(self).entries@
                    &&& final(self).prefix == Some(input)
                    &&& final(writer).bits() == old(writer).bits()
                },
                Some(p) => match find_entry(
                    old(self).entries@,
                    (Entry { prefix: p, element: input }),
                ) {
                    Some(i) => {
                        &&& final(self).entries@ == old(self).entries@
                        &&& final(self).prefix == Some((A + i) as u32)
                        &&& final(writer).bits() == old(writer).bits()
                    },
                    None => {
                        &&& final(self).entries@ == old(self).entries@.push(
                            (Entry { prefix: p, element: input }),
                        )
                        &&& final(self).prefix == Some(input)
                        &&& final(writer).bits() == old(writer).bits() + le_bits(
                            p,
                            emit_width(A as nat, old(self).entries@.len()),
                        )
                    },
                },
            },
    {
        let prefix = match self.prefix {
            None => {
                self.prefix = Some(input);
                return ;
            },
            Some(p) => p,
        };
        let entry = Entry { prefix, element: input };
        let index = self.lookup(entry);
        proof {
            lemma_find_entry_agrees(self.entries@, entry, index);
        }
        match index {
            None => {
                self.write(prefix, writer);
                self.entries.push(entry);
                self.prefix = Some(input);
            },
            Some(index) => {
                self.prefix = Some(index);
            },
        }
    }

    /// Flush the pending prefix, if any, at the current width.
    pub fn finish(self, writer: &mut WriteBits)
        requires
            self.wf(),
            old(writer).wf(),
            self.entries@.len() + A < 0x8000_0000,
        ensures
            final(writer).wf(),
            final(writer).bits() == match self.prefix {
                None => old(writer).bits(),
                Some(p) => old(writer).bits() + le_bits(
                    p,
                    emit_width(A as nat, self.entries@.len()),
                ),
            },
    {
        match self.prefix {
            None => {},
            Some(p) => {
                self.write(p, writer);
            },
        }
    }
}

/// `find_entry` agrees with what a verified scan reports.
proof fn lemma_find_entry_agrees(s: Seq<Entry>, e: Entry, r: Option<u32>)
    requires
        forall|i: int, j: int| 0 <= i < j < s.len() ==> s[i] != s[j],
        match r {
            Some(c) => c >= 0 && c < s.len() + 0x1_0000_0000 && exists|i: int|
                0 <= i < s.len() && s[i] == e,
            None => forall|i: int| 0 <= i < s.len() ==> s[i] != e,
        },
    ensures
        match r {
            Some(_) => find_entry(s, e) matches Some(i) && 0 <= i < s.len() && s[i] == e,
            None => find_entry(s, e) is None,
        },
    decreases s.len(),
{
    lemma_find_entry_spec(s, e);
}

/// `find_entry` finds an index of `e` exactly when `s` holds `e`.
pub proof fn lemma_find_entry_spec(s: Seq<Entry>, e: Entry)
    ensures
        match find_entry(s, e) {
            Some(i) => 0 <= i < s.len() && s[i] == e,
            None => forall|i: int| 0 <= i < s.len() ==> s[i] != e,
        },
    decreases s.len(),
{
    if s.len() > 0 {
        lemma_find_entry_spec(s.drop_first(), e);
        if s[0] != e {
            match find_entry(s.drop_first(), e) {
                Some(i) => {
                    assert(s.drop_first()[i] == s[i + 1]);
                },
                None => {
                    assert forall|i: int| 0 <= i < s.len() implies s[i] != e by {
                        if i > 0 {
                            assert(s.drop_first()[i - 1] == s[i]);
                        }
                    }
                },
            }
        }
    }
}

/// The least `w` with `2^w >= n`.
pub fn ceil_log2_u32(n: u32) -> (w: u32)
    requires
        n <= 0x8000_0000,
    ensures
        w == ceil_log2(n as nat),
    decreases n,
{
    if n <= 1 {
        0
    } else {
        let r = ceil_log2_u32((n + 1) / 2);
        proof {
            vstd::arithmetic::power2::lemma2_to64();
            lemma_ceil_log2_le(((n + 1) / 2) as nat, 31);
        }
        1 + r
    }
}

#[derive(Clone, Copy, Debug, PartialEq, Eq, Structural)]
pub enum DecodeError {
    /// The underlying bytes ran out in the middle of a codeword.
    Io,
    /// A codeword exceeds the dictionary's current size plus one.
    InvalidIndex,
}

/// A decoded unit that is handed out symbol by symbol: either one
/// alphabet symbol or a range of the decoder's scratch buffer.
#[derive(Clone, Copy, Debug, PartialEq, Eq, Structural)]
pub enum Output {
    Element(u32),
    Range(usize, usize),
}

/// The mathematical state of a decoder: the same fields as [`Decoder`],
/// with sequences in place of vectors.
#[verifier::ext_equal]
pub struct DecModel {
    pub scratch: Seq<u32>,
    pub entries: Seq<(usize, usize)>,
    pub output: Output,
    pub last: Option<Output>,
}

impl DecModel {
    /// The symbols a decoded unit stands for.
    pub open spec fn expansion(self, o: Output) -> Seq<u32> {
        match o {
            Output::Element(e) => seq![e],
            Output::Range(s, e) => self.scratch.subrange(s as int, e as int),
        }
    }

    /// The width of the next codeword for alphabet size `a`: every
    /// assigned code, the entry under construction, and the
    /// self-referential code must all fit.
    pub open spec fn read_width(self, a: nat) -> nat {
        ceil_log2(
            a + self.entries.len() + (if self.last is Some {
                1nat
            } else {
                0nat
            }) + 1,
        )
    }

    /// The dictionary extension that decoding one more unit performs:
    /// the previous unit, extended by `element`, becomes a new entry.
    pub open spec fn push_step(self, element: u32) -> DecModel {
        match self.last {
            None => self,
            Some(o) => DecModel {
                scratch: self.scratch + self.expansion(o) + seq![element],
                entries: self.entries.push(
                    (
                        self.scratch.len() as usize,
                        (self.scratch.len() + self.expansion(o).len() + 1) as usize,
                    ),
                ),
                output: self.output,
                last: self.last,
            },
        }
    }

    /// One step of the abstract decoder on the codeword at bit `pos` of
    /// `data`: the successor state, the new bit position, and the error
    /// if the codeword is short or out of range.
    pub open spec fn range_step(self, a: nat, data: Seq<u8>, pos: int) -> (
        DecModel,
        int,
        Option<DecodeError>,
    ) {
        let w = self.read_width(a);
        if data.len() * 8 - pos < w {
            (self, (data.len() * 8) as int, Some(DecodeError::Io))
        } else {
            let code = stream_code(data, pos, w);
            let pos2 = pos + w;
            if code < a {
                let d = self.push_step(code as u32);
                (
                    DecModel {
                        output: Output::Element(code as u32),
                        last: Some(Output::Element(code as u32)),
                        ..d
                    },
                    pos2,
                    None,
                )
            } else if code - a < self.entries.len() {
                let (s, e) = self.entries[code - a];
                let d = self.push_step(self.scratch[s as int]);
                (
                    DecModel {
                        output: Output::Range(s, e),
                        last: Some(Output::Range(s, e)),
                        ..d
                    },
                    pos2,
                    None,
                )
            } else if code - a == self.entries.len() && self.last is Some {
                let d = self.push_step(self.first_of_last());
                let ns = self.scratch.len() as usize;
                let ne = d.scratch.len() as usize;
                (
                    DecModel {
                        output: Output::Range(ns, ne),
                        last: Some(Output::Range(ns, ne)),
                        ..d
                    },
                    pos2,
                    None,
                )
            } else {
                (self, pos2, Some(DecodeError::InvalidIndex))
            }
        }
    }

    /// The first symbol of the most recently decoded unit.
    pub open spec fn first_of_last(self) -> u32 {
        match self.last {
            Some(Output::Element(e)) => e,
            Some(Output::Range(s, _)) => self.scratch[s as int],
            None => 0,
        }
    }

    /// One step of the abstract decoder at the symbol level: hand out
    /// the next symbol of the pending unit, decoding one more codeword
    /// first if the pending unit is spent.
    pub open spec fn next_step(self, a: nat, data: Seq<u8>, pos: int) -> (
        DecModel,
        int,
        Result<u32, DecodeError>,
    ) {
        match self.output {
            Output::Element(e) => (
                DecModel { output: Output::Range(0, 0), ..self },
                pos,
                Ok(e),
            ),
            Output::Range(s, e) => {
                if s < e {
                    (
                        DecModel { output: Output::Range((s + 1) as usize, e), ..self },
                        pos,
                        Ok(self.scratch[s as int]),
                    )
                } else {
                    let (mid, pos2, err) = self.range_step(a, data, pos);
                    match err {
                        Some(er) => (mid, pos2, Err(er)),
                        None => match mid.output {
                            Output::Element(el) => (
                                DecModel { output: Output::Range(0, 0), ..mid },
                                pos2,
                                Ok(el),
                            ),
                            Output::Range(s2, e2) => (
                                DecModel { output: Output::Range((s2 + 1) as usize, e2), ..mid },
                                pos2,
                                Ok(mid.scratch[s2 as int]),
                            ),
                        },
                    }
                }
            },
        }
    }
}

/// An LZW decoder over the alphabet `0 .. A`.
///
/// It mirrors the encoder's dictionary without storing strings twice:
/// every decoded unit is appended to `scratch`, and entry `i` of
/// `entries` marks the scratch range that spells code `A + i`.
pub struct Decoder<const A: u32> {
    /// All decoded units so far, back to back.
    pub scratch: Vec<u32>,
    /// Dictionary entry `i` spells the scratch range for code `A + i`.
    pub entries: Vec<(usize, usize)>,
    /// What is left of the unit being handed out.
    pub output: Output,
    /// The most recently decoded unit, the stem of the next entry.
    pub last: Option<Output>,
}

impl<const A: u32> View for Decoder<A> {
    type V = DecModel;

    open spec fn view(&self) -> DecModel {
        DecModel {
            scratch: self.scratch@,
            entries: self.entries@,
            output: self.output,
            last: self.last,
        }
    }
}

impl<const A: u32> Decoder<A> {
    pub open spec fn wf(&self) -> bool {
        &&& A >= 2
        &&& forall|i: int|
            0 <= i < self.entries@.len() ==> 0 <= (#[trigger] self.entries@[i]).0
                < self.entries@[i].1 <= self.scratch@.len()
        &&& forall|i: int| 0 <= i < self.scratch@.len() ==> #[trigger] self.scratch@[i] < A
        &&& match self.output {
            Output::Element(e) => e < A,
            Output::Range(s, e) => s <= e <= self.scratch@.len(),
        }
        &&& match self.last {
            Some(Output::Element(e)) => e < A,
            Some(Output::Range(s, e)) => s < e <= self.scratch@.len(),
            None => true,
        }
    }

    pub fn new() -> (r: Self)
        requires
            A >= 2,
        ensures
            r.wf(),
            r@.scratch == Seq::<u32>::empty(),
            r@.entries == Seq::<(usize, usize)>::empty(),
            r@.output == Output::Range(0usize, 0usize),
            r@.last == Option::<Output>::None,
    {
        Decoder { scratch: Vec::new(), entries: Vec::new(), output: Output::Range(0, 0), last: None }
    }

    /// A decoder is only done once its pending unit is consumed.
    pub fn finish(&self)
        requires
            self.output matches Output::Range(s, e) && s == e,
    {
    }

    /// Append the scratch range `s .. e` to the scratch buffer.
    fn extend_scratch(&mut self, s: usize, e: usize)
        requires
            s <= e <= old(self).scratch@.len(),
        ensures
            final(self).scratch@ == old(self).scratch@ + old(self).scratch@.subrange(
                s as int,
                e as int,
            ),
            final(self).entries == old(self).entries,
            final(self).output == old(self).output,
            final(self).last == old(self).last,
    {
        let ghost prev = self.scratch@;
        let mut i: usize = s;
        while i < e
            invariant
                s <= i <= e <= prev.len(),
                self.scratch@ == prev + prev.subrange(s as int, i as int),
                self.entries == old(self).entries,
                self.output == old(self).output,
                self.last == old(self).last,
            decreases e - i,
        {
            let v = self.scratch[i];
            proof {
                assert(self.scratch@[i as int] == prev[i as int]);
            }
            self.scratch.push(v);
            i = i + 1;
            proof {
                assert(self.scratch@ =~= prev + prev.subrange(s as int, i as int));
            }
        }
    }

    /// Extend the dictionary with the previous unit plus `element`.
    fn push_last(&mut self, element: u32)
        requires
            old(self).wf(),
            element < A,
        ensures
            final(self).wf(),
            final(self)@ =~= old(self)@.push_step(element),
            final(self).output == old(self).output,
            final(self).last == old(self).last,
            final(self).scratch@.len() >= old(self).scratch@.len(),
    {
        let ghost prev = self@;
        match self.last {
            None => {},
            Some(Output::Element(last_element)) => {
                let new_start = self.scratch.len();
                self.scratch.push(last_element);
                self.scratch.push(element);
                let new_end = self.scratch.len();
                self.entries.push((new_start, new_end));
                proof {
                    assert(self.scratch@ =~= prev.scratch + prev.expansion(prev.last->0)
                        + seq![element]);
                    assert(self@ =~= prev.push_step(element));
                }
            },
            Some(Output::Range(last_start, last_end)) => {
                let new_start = self.scratch.len();
                self.extend_scratch(last_start, last_end);
                self.scratch.push(element);
                let new_end = self.scratch.len();
                self.entries.push((new_start, new_end));
                proof {
                    assert(self.scratch@ =~= prev.scratch + prev.expansion(prev.last->0)
                        + seq![element]);
                    assert(self@ =~= prev.push_step(element));
                }
            },
        }
    }

    /// Read the next codeword at the current width.
    fn read_index(&self, reader: &mut ReadBits) -> (r: Result<u32, DecodeError>)
        requires
            self.wf(),
            old(reader).wf(),
            A + self.entries@.len() + 2 <= 0x8000_0000,
        ensures
            final(reader).wf(),
            final(reader).data@ == old(reader).data@,
            match r {
                Ok(code) => {
                    &&& old(reader).remaining() >= self@.read_width(A as nat)
                    &&& final(reader).pos == old(reader).pos + self@.read_width(A as nat)
                    &&& code == stream_code(
                        old(reader).data@,
                        old(reader).pos as int,
                        self@.read_width(A as nat),
                    )
                },
                Err(e) => {
                    &&& e == DecodeError::Io
                    &&& old(reader).remaining() < self@.read_width(A as nat)
                    &&& final(reader).pos == old(reader).data@.len() * 8
                },
            },
    {
        let n: u32 = A + self.entries.len() as u32 + (if self.last.is_some() {
            1
        } else {
            0
        }) + 1;
        let w = ceil_log2_u32(n);
        proof {
            vstd::arithmetic::power2::lemma2_to64();
            lemma_ceil_log2_le(n as nat, 31);
        }
        let mut index_bytes: Vec<u8> = vec![0u8; 4];
        let got = reader.read_bits(&mut index_bytes, 0, w as usize);
        if got < w as usize {
            return Err(DecodeError::Io);
        }
        let b0 = index_bytes[0];
        let b1 = index_bytes[1];
        let b2 = index_bytes[2];
        let b3 = index_bytes[3];
        let raw: u32 = (b0 as u32) | ((b1 as u32) << 8) | ((b2 as u32) << 16) | ((b3 as u32)
            << 24);
        proof {
            assert(w < 32 ==> 1u32 << w >= 1) by (bit_vector);
        }
        let code: u32 = raw & ((1u32 << w) - 1);
        proof {
            lemma_le4_bits(raw);
            assert(le4(raw) =~= index_bytes@) by {
                assert((((b0 as u32) | ((b1 as u32) << 8) | ((b2 as u32) << 16) | ((b3 as u32)
                    << 24)) & 0xff) as u8 == b0 && ((((b0 as u32) | ((b1 as u32) << 8) | ((b2
                    as u32) << 16) | ((b3 as u32) << 24)) >> 8) & 0xff) as u8 == b1 && ((((b0
                    as u32) | ((b1 as u32) << 8) | ((b2 as u32) << 16) | ((b3 as u32) << 24)) >> 16)
                    & 0xff) as u8 == b2 && ((((b0 as u32) | ((b1 as u32) << 8) | ((b2 as u32) << 16)
                    | ((b3 as u32) << 24)) >> 24) & 0xff) as u8 == b3) by (bit_vector);
            }
            assert((forall|j: u32|
                j < w && w < 32 ==> ((raw & (((1u32 << w) - 1) as u32)) >> j) & 1 == (raw >> j)
                    & 1) && (w < 32 ==> (raw & (((1u32 << w) - 1) as u32)) >> w == 0))
                by (bit_vector);
            let s = Seq::new(w as nat, |i: int| bit_at(old(reader).data@, old(reader).pos + i));
            assert forall|j: int| 0 <= j < w implies s[j] == ((code >> (j as u32)) & 1 == 1) by {
                assert(bit_at(index_bytes@, j) == bit_at(old(reader).data@, old(reader).pos + j));
                assert(bit_at(le4(raw), j) == ((raw >> (j as u32)) & 1 == 1));
            }
            lemma_bits_value(code, s, w);
        }
                Ok(code)
    }

    /// Decode one codeword: refresh the pending unit and extend the
    /// dictionary exactly as [`DecModel::range_step`] describes.
    fn decode_next_range(&mut self, reader: &mut ReadBits) -> (r: Result<(), DecodeError>)
        requires
            old(self).wf(),
            old(reader).wf(),
            A + old(self).entries@.len() + 2 <= 0x8000_0000,
        ensures
            final(self).wf(),
            final(reader).wf(),
            final(reader).data@ == old(reader).data@,
            ({
                let (post, pos2, err) = old(self)@.range_step(
                    A as nat,
                    old(reader).data@,
                    old(reader).pos as int,
                );
                &&& final(self)@ == post
                &&& final(reader).pos == pos2
                &&& r == match err {
                    Some(e) => Err::<(), DecodeError>(e),
                    None => Ok(()),
                }
            }),
            r is Ok ==> match final(self).output {
                Output::Element(_) => true,
                Output::Range(s, e) => s < e,
            },
    {
        let ghost prev = self@;
        let index = match self.read_index(reader) {
            Ok(i) => i,
            Err(e) => {
                return Err(e);
            },
        };

        if index < A {
            let element = index;
            self.push_last(element);
            self.last = Some(Output::Element(element));
            self.output = Output::Element(element);
            proof {
                let (post, pos2, err) = prev.range_step(
                    A as nat,
                    old(reader).data@,
                    old(reader).pos as int,
                );
                assert(self@ =~= post);
            }
            Ok(())
        } else if ((index - A) as usize) < self.entries.len() {
            let (start, end) = self.entries[(index - A) as usize];
            let element = self.scratch[start];
            self.push_last(element);
            self.last = Some(Output::Range(start, end));
            self.output = Output::Range(start, end);
            proof {
                let (post, pos2, err) = prev.range_step(
                    A as nat,
                    old(reader).data@,
                    old(reader).pos as int,
                );
                assert(self@ =~= post);
            }
            Ok(())
        } else if (index - A) as usize == self.entries.len() && self.last.is_some() {
            let first = match self.last {
                Some(Output::Element(e)) => e,
                Some(Output::Range(s, _)) => self.scratch[s],
                None => 0,
            };
            let new_start = self.scratch.len();
            self.push_last(first);
            let new_end = self.scratch.len();
            self.last = Some(Output::Range(new_start, new_end));
            self.output = Output::Range(new_start, new_end);
            proof {
                let (post, pos2, err) = prev.range_step(
                    A as nat,
                    old(reader).data@,
                    old(reader).pos as int,
                );
                assert(first == prev.first_of_last());
                assert(self@ =~= post);
            }
            Ok(())
        } else {
            Err(DecodeError::InvalidIndex)
        }
    }

    /// Hand out the next decoded symbol, reading one more codeword when
    /// the pending unit is spent.
    pub fn decode_next(&mut self, reader: &mut ReadBits) -> (r: Result<u32, DecodeError>)
        requires
            old(self).wf(),
            old(reader).wf(),
            A + old(self).entries@.len() + 2 <= 0x8000_0000,
        ensures
            final(self).wf(),
            final(reader).wf(),
            final(reader).data@ == old(reader).data@,
            ({
                let (post, pos2, res) = old(self)@.next_step(
                    A as nat,
                    old(reader).data@,
                    old(reader).pos as int,
                );
                &&& final(self)@ == post
                &&& final(reader).pos == pos2
                &&& r == res
            }),
            r matches Ok(e) ==> e < A,
    {
        let ghost prev = self@;
        let pending = match self.output {
            Output::Element(element) => {
                self.output = Output::Range(0, 0);
                proof {
                    let (post, pos2, res) = prev.next_step(
                        A as nat,
                        old(reader).data@,
                        old(reader).pos as int,
                    );
                    assert(self@ =~= post);
                }
                return Ok(element);
            },
            Output::Range(s, e) => (s, e),
        };
        if pending.0 < pending.1 {
            let element = self.scratch[pending.0];
            self.output = Output::Range(pending.0 + 1, pending.1);
            proof {
                let (post, pos2, res) = prev.next_step(
                    A as nat,
                    old(reader).data@,
                    old(reader).pos as int,
                );
                assert(self@ =~= post);
            }
            return Ok(element);
        }
        match self.decode_next_range(reader) {
            Ok(()) => {},
            Err(e) => {
                return Err(e);
            },
        }
        match self.output {
            Output::Element(element) => {
                self.output = Output::Range(0, 0);
                proof {
                    let (post, pos2, res) = prev.next_step(
                        A as nat,
                        old(reader).data@,
                        old(reader).pos as int,
                    );
                    assert(self@ =~= post);
                }
                Ok(element)
            },
            Output::Range(s, e) => {
                let element = self.scratch[s];
                self.output = Output::Range(s + 1, e);
                proof {
                    let (post, pos2, res) = prev.next_step(
                        A as nat,
                        old(reader).data@,
                        old(reader).pos as int,
                    );
                    assert(self@ =~= post);
                }
                Ok(element)
            },
        }
    }
}


/// One step of the abstract encoder: the dictionary and pending prefix
/// after feeding `input`, and the codeword bits emitted by that step.
pub open spec fn enc_step(a: nat, st: (Seq<Entry>, Option<u32>), input: u32) -> (
    (Seq<Entry>, Option<u32>),
    Seq<bool>,
) {
    match st.1 {
        None => ((st.0, Some(input)), Seq::<bool>::empty()),
        Some(p) => match find_entry(st.0, (Entry { prefix: p, element: input })) {
            Some(i) => ((st.0, Some((a + i) as u32)), Seq::<bool>::empty()),
            None => (
                (st.0.push((Entry { prefix: p, element: input })), Some(input)),
                le_bits(p, emit_width(a, st.0.len())),
            ),
        },
    }
}

/// The abstract encoder run over a whole input: its final state and
/// everything it emitted.
pub open spec fn enc_fold(a: nat, inputs: Seq<u32>) -> ((Seq<Entry>, Option<u32>), Seq<bool>)
    decreases inputs.len(),
{
    if inputs.len() == 0 {
        ((Seq::<Entry>::empty(), None), Seq::<bool>::empty())
    } else {
        let (st, bits) = enc_fold(a, inputs.drop_last());
        let (st2, nb) = enc_step(a, st, inputs.last());
        (st2, bits + nb)
    }
}

/// Everything the encoder emits for `inputs`, closing emission
/// included.
pub open spec fn lzw_stream_bits(a: nat, inputs: Seq<u32>) -> Seq<bool> {
    let (st, bits) = enc_fold(a, inputs);
    bits + match st.1 {
        None => Seq::<bool>::empty(),
        Some(p) => le_bits(p, emit_width(a, st.0.len())),
    }
}

/// Unfolding the abstract encoder over one more symbol.
pub proof fn lemma_enc_fold_push(a: nat, s: Seq<u32>, x: u32)
    ensures
        enc_fold(a, s.push(x)) == (
            enc_step(a, enc_fold(a, s).0, x).0,
            enc_fold(a, s).1 + enc_step(a, enc_fold(a, s).0, x).1,
        ),
{
    assert(s.push(x).drop_last() =~= s);
    assert(s.push(x).last() == x);
}



/// The encoder emits at most thirty-one bits per symbol, and gains at
/// most one dictionary entry per symbol.
pub proof fn lemma_enc_fold_len(a: nat, inputs: Seq<u32>)
    requires
        a + inputs.len() + 1 <= 0x8000_0000,
    ensures
        enc_fold(a, inputs).0.0.len() <= inputs.len(),
        enc_fold(a, inputs).1.len() <= 31 * inputs.len(),
    decreases inputs.len(),
{
    if inputs.len() > 0 {
        lemma_enc_fold_len(a, inputs.drop_last());
        let (st, bits) = enc_fold(a, inputs.drop_last());
        let (st2, nb) = enc_step(a, st, inputs.last());
        vstd::arithmetic::power2::lemma2_to64();
        lemma_ceil_log2_le(a + st.0.len() + 1, 31);
        assert(nb.len() <= 31);
    }
}

/// The whole emission for `inputs`, closing codeword included, is at
/// most thirty-one bits per symbol plus thirty-one closing bits.
pub proof fn lemma_lzw_stream_len(a: nat, inputs: Seq<u32>)
    requires
        a + inputs.len() + 1 <= 0x8000_0000,
    ensures
        lzw_stream_bits(a, inputs).len() <= 31 * inputs.len() + 31,
{
    lemma_enc_fold_len(a, inputs);
    let (st, bits) = enc_fold(a, inputs);
    vstd::arithmetic::power2::lemma2_to64();
    lemma_ceil_log2_le(a + st.0.len() + 1, 31);
}

/// The abstract decoder run for `n` symbols: the state and bit position
/// it reaches, the symbols it hands out, and the error that stopped it
/// early, if one did.
pub open spec fn dec_steps(m: DecModel, a: nat, data: Seq<u8>, pos: int, n: nat) -> (
    DecModel,
    int,
    Seq<u32>,
    Option<DecodeError>,
)
    decreases n,
{
    if n == 0 {
        (m, pos, Seq::<u32>::empty(), None)
    } else {
        let (m2, p2, r) = m.next_step(a, data, pos);
        match r {
            Err(e) => (m2, p2, Seq::<u32>::empty(), Some(e)),
            Ok(sym) => {
                let (m3, p3, syms, err) = dec_steps(m2, a, data, p2, (n - 1) as nat);
                (m3, p3, seq![sym] + syms, err)
            },
        }
    }
}

/// A decoder run splits: running `n1 + n2` symbols is running `n1`, then
/// `n2` more from where that left off.
pub proof fn lemma_dec_steps_add(m: DecModel, a: nat, data: Seq<u8>, pos: int, n1: nat, n2: nat)
    requires
        dec_steps(m, a, data, pos, n1).3 is None,
    ensures
        ({
            let (m1, p1, s1, _) = dec_steps(m, a, data, pos, n1);
            let (m2, p2, s2, e2) = dec_steps(m1, a, data, p1, n2);
            dec_steps(m, a, data, pos, (n1 + n2) as nat) == (m2, p2, s1 + s2, e2)
        }),
    decreases n1,
{
    let (m1, p1, s1, _) = dec_steps(m, a, data, pos, n1);
    let (m2, p2, s2, e2) = dec_steps(m1, a, data, p1, n2);
    if n1 == 0 {
        assert(s1 + s2 =~= s2);
    } else {
        let (ma, pa, r) = m.next_step(a, data, pos);
        match r {
            Err(e) => {
                assert(false);
            },
            Ok(sym) => {
                lemma_dec_steps_add(ma, a, data, pa, (n1 - 1) as nat, n2);
                let (mb, pb, sb, _) = dec_steps(ma, a, data, pa, (n1 - 1) as nat);
                let (mc, pc, sc, ec) = dec_steps(mb, a, data, pb, n2);
                assert(seq![sym] + (sb + sc) =~= (seq![sym] + sb) + sc);
            },
        }
    }
}

/// Once a run stops on an error, running further changes nothing.
pub proof fn lemma_dec_steps_stuck(m: DecModel, a: nat, data: Seq<u8>, pos: int, n1: nat, n2: nat)
    requires
        n1 <= n2,
        dec_steps(m, a, data, pos, n1).3 is Some,
    ensures
        dec_steps(m, a, data, pos, n2) == dec_steps(m, a, data, pos, n1),
    decreases n2,
{
    if n1 == 0 {
    } else {
        let (m2, p2, r) = m.next_step(a, data, pos);
        match r {
            Err(e) => {
                if n2 > n1 {
                    assert(dec_steps(m, a, data, pos, n2) == (m2, p2, Seq::<u32>::empty(), Some(e)));
                }
            },
            Ok(sym) => {
                lemma_dec_steps_stuck(m2, a, data, p2, (n1 - 1) as nat, (n2 - 1) as nat);
            },
        }
    }
}

} // verus!
