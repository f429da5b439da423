//! LZ78 compression over fixed-width symbols.
//!
//! Unlike the LZW stage, every emitted phrase carries its final symbol
//! in clear: a codeword is the index of an already-seen phrase (zero for
//! the empty phrase) followed by one literal symbol. Indices grow bit by
//! bit with the dictionary; symbols are `W` bits wide.

use vstd::prelude::*;

use crate::bits::{bit_at, bytes_bits, ReadBits, WriteBits};
use crate::lzw::{
    ceil_log2, ceil_log2_u32, le4, le_bits, lemma_bits_value, lemma_ceil_log2_le, lemma_le4_bits,
    stream_code,
};

verus! {

/// One dictionary entry: an already-assigned phrase index (zero for the
/// empty phrase) followed by one more symbol.
#[derive(Clone, Copy, Debug, PartialEq, Eq, Structural)]
pub struct Entry {
    pub prefix: u32,
    pub element: u32,
}

/// The index of `e` in `s`, if present.
pub open spec fn find_entry78(s: Seq<Entry>, e: Entry) -> Option<int>
    decreases s.len(),
{
    if s.len() == 0 {
        None
    } else if s[0] == e {
        Some(0)
    } else {
        match find_entry78(s.drop_first(), e) {
            Some(i) => Some(i + 1),
            None => None,
        }
    }
}

/// `find_entry78` finds an index of `e` exactly when `s` holds `e`.
pub proof fn lemma_find_entry78_spec(s: Seq<Entry>, e: Entry)
    ensures
        match find_entry78(s, e) {
            Some(i) => 0 <= i < s.len() && s[i] == e,
            None => forall|i: int| 0 <= i < s.len() ==> s[i] != e,
        },
    decreases s.len(),
{
    if s.len() > 0 {
        lemma_find_entry78_spec(s.drop_first(), e);
        if s[0] != e {
            match find_entry78(s.drop_first(), e) {
                Some(i) => {
                    assert(s.drop_first()[i] == s[i + 1]);
                },
                None => {
                    assert forall|i: int| 0 <= i < s.len() implies s[i] != e by {
                        if i > 0 {
                            assert(s.drop_first()[i - 1] == s[i]);
                        }
                    }
                },
            }
        }
    }
}

/// The width of an index codeword while `n_entries` phrases exist.
pub open spec fn index_width(n_entries: nat) -> nat {
    ceil_log2(n_entries + 1)
}

/// An LZ78 encoder over `W`-bit symbols.
pub struct Encoder<const W: u32> {
    /// Dictionary entry `i` defines phrase index `i + 1`.
    pub entries: Vec<Entry>,
    /// The phrase index matched so far; zero when no symbols are
    /// pending.
    pub prefix: u32,
}

impl<const W: u32> Encoder<W> {
    pub open spec fn wf(&self) -> bool {
        &&& 1 <= W <= 31
        &&& self.entries@.len() < 0x4000_0000
        &&& forall|i: int|
            0 <= i < self.entries@.len() ==> (#[trigger] self.entries@[i]).prefix <= i
                && self.entries@[i].element < (1u32 << W)
        &&& forall|i: int, j: int|
            0 <= i < j < self.entries@.len() ==> self.entries@[i] != self.entries@[j]
        &&& self.prefix <= self.entries@.len()
    }

    pub fn new() -> (r: Self)
        requires
            1 <= W <= 31,
        ensures
            r.wf(),
            r.entries@ == Seq::<Entry>::empty(),
            r.prefix == 0,
    {
        Encoder { entries: Vec::new(), prefix: 0 }
    }

    /// The phrase index assigned to `entry`, if the dictionary holds it.
    fn lookup(&self, entry: Entry) -> (r: Option<u32>)
        requires
            self.wf(),
            entry.prefix <= self.entries@.len(),
        ensures
            match r {
                Some(c) => 1 <= c && c - 1 < self.entries@.len() && self.entries@[c - 1] == entry,
                None => forall|i: int| 0 <= i < self.entries@.len() ==> self.entries@[i] != entry,
            },
    {
        let start = entry.prefix as usize;
        proof {
            assert forall|j: int| 0 <= j < start implies self.entries@[j] != entry by {
                assert(self.entries@[j].prefix <= j);
            }
        }
        let mut i: usize = start;
        while i < self.entries.len()
            invariant
                self.wf(),
                start <= i <= self.entries@.len(),
                forall|j: int| 0 <= j < i ==> self.entries@[j] != entry,
            decreases self.entries@.len() - i,
        {
            let e = self.entries[i];
            if e.prefix == entry.prefix && e.element == entry.element {
                return Some(i as u32 + 1);
            }
            i = i + 1;
        }
        None
    }

    /// Emit a phrase index at the current width, then the literal
    /// symbol at its fixed width.
    fn write(&self, index: u32, input: u32, writer: &mut WriteBits)
        requires
            self.wf(),
            old(writer).wf(),
            index <= self.entries@.len(),
            input < (1u32 << W),
        ensures
            final(writer).wf(),
            final(writer).bits() == old(writer).bits() + le_bits(
                index,
                index_width(self.entries@.len()),
            ) + le_bits(input, W as nat),
    {
        self.write_last_index(index, writer);
        let input_bytes: [u8; 4] = [
            (input & 0xff) as u8,
            ((input >> 8) & 0xff) as u8,
            ((input >> 16) & 0xff) as u8,
            ((input >> 24) & 0xff) as u8,
        ];
        proof {
            assert(input_bytes@ =~= le4(input));
        }
        writer.write_bits(input_bytes.as_slice(), 0, W as usize);
        proof {
            lemma_le4_bits(input);
            assert(bytes_bits(le4(input)).subrange(0, W as int) =~= le_bits(input, W as nat));
        }
    }

    /// Emit a phrase index alone, at the current width.
    fn write_last_index(&self, index: u32, writer: &mut WriteBits)
        requires
            self.wf(),
            old(writer).wf(),
            index <= self.entries@.len(),
        ensures
            final(writer).wf(),
            final(writer).bits() == old(writer).bits() + le_bits(
                index,
                index_width(self.entries@.len()),
            ),
    {
        let n: u32 = self.entries.len() as u32 + 1;
        let bits = ceil_log2_u32(n);
        proof {
            vstd::arithmetic::power2::lemma2_to64();
            lemma_ceil_log2_le(n as nat, 31);
        }
        let index_bytes: [u8; 4] = [
            (index & 0xff) as u8,
            ((index >> 8) & 0xff) as u8,
            ((index >> 16) & 0xff) as u8,
            ((index >> 24) & 0xff) as u8,
        ];
        proof {
            assert(index_bytes@ =~= le4(index));
        }
        writer.write_bits(index_bytes.as_slice(), 0, bits as usize);
        proof {
            lemma_le4_bits(index);
            assert(bytes_bits(le4(index)).subrange(0, bits as int) =~= le_bits(
                index,
                bits as nat,
            ));
        }
    }

    /// Feed one symbol: extend the pending phrase while the dictionary
    /// knows the extension, otherwise emit the phrase with this symbol
    /// and open a fresh one.
    pub fn encode(&mut self, input: u32, writer: &mut WriteBits)
        requires
            old(self).wf(),
            input < (1u32 << W),
            old(writer).wf(),
            old(self).entries@.len() + 1 < 0x4000_0000,
        ensures
            final(self).wf(),
            final(writer).wf(),
            match find_entry78(
                old(self).entries@,
                (Entry { prefix: old(self).prefix, element: input }),
            ) {
                Some(i) => {
                    &&& final(self).entries@ == old(self).entries@
                    &&& final(self).prefix == i + 1
                    &&& final(writer).bits() == old(writer).bits()
                },
                None => {
                    &&& final(self).entries@ == old(self).entries@.push(
                        (Entry { prefix: old(self).prefix, element: input }),
                    )
                    &&& final(self).prefix == 0
                    &&& final(writer).bits() == old(writer).bits() + le_bits(
                        old(self).prefix,
                        index_width(old(self).entries@.len()),
                    ) + le_bits(input, W as nat)
                },
            },
    {
        let entry = Entry { prefix: self.prefix, element: input };
        let index = self.lookup(entry);
        proof {
            lemma_find_entry78_spec(self.entries@, entry);
            match find_entry78(self.entries@, entry) {
                Some(i) => {
                    if index is None {
                        assert(self.entries@[i] == entry);
                        assert(false);
                    }
                },
                None => {
                    if index is Some {
                        assert(false);
                    }
                },
            }
        }
        match index {
            None => {
                self.write(self.prefix, input, writer);
                self.entries.push(entry);
                self.prefix = 0;
            },
            Some(index) => {
                proof {
                    match find_entry78(self.entries@, entry) {
                        Some(i) => {
                            assert(self.entries@[index - 1] == entry && self.entries@[i] == entry);
                            assert(index - 1 == i);
                        },
                        None => {},
                    }
                }
                self.prefix = index;
            },
        }
    }

    /// Close the stream: emit the pending phrase index, zero when no
    /// symbols are pending.
    pub fn finish(self, writer: &mut WriteBits)
        requires
            self.wf(),
            old(writer).wf(),
        ensures
            final(writer).wf(),
            final(writer).bits() == old(writer).bits() + le_bits(
                self.prefix,
                index_width(self.entries@.len()),
            ),
    {
        self.write_last_index(self.prefix, writer);
    }
}

#[derive(Clone, Copy, Debug, PartialEq, Eq, Structural)]
pub enum DecodeError {
    /// The underlying bytes ran out in the middle of a codeword.
    Io,
    /// A phrase index exceeds the dictionary.
    InvalidIndex,
}

/// The mathematical state of an LZ78 decoder: the same fields as
/// [`Decoder`], with sequences in place of vectors.
#[verifier::ext_equal]
pub struct Lz78Model {
    pub scratch: Seq<u32>,
    pub entries: Seq<(usize, usize)>,
    pub output: (usize, usize),
}

/// What one codeword read returns: the phrase index spelled by the bits
/// that were available for it, the literal symbol unless the bytes end
/// first, and the bit position afterwards.
pub open spec fn lz78_read(w_bits: nat, entries_len: nat, data: Seq<u8>, pos: int) -> (
    nat,
    Option<nat>,
    int,
) {
    let w = index_width(entries_len) as int;
    let avail = data.len() * 8 - pos;
    let g = if w <= avail {
        w
    } else {
        avail
    };
    let index = stream_code(data, pos, g as nat);
    let pos1 = pos + g;
    let avail1 = data.len() * 8 - pos1;
    if avail1 < w_bits {
        (index, None, data.len() * 8 as int)
    } else {
        (index, Some(stream_code(data, pos1, w_bits)), pos1 + w_bits)
    }
}

/// One step of the abstract decoder at the codeword level: decode one
/// phrase, extending the dictionary when the codeword carries a symbol.
pub open spec fn lz78_range_step(m: Lz78Model, w_bits: nat, data: Seq<u8>, pos: int) -> (
    Lz78Model,
    int,
    Result<(usize, usize), DecodeError>,
) {
    let (index, element, pos2) = lz78_read(w_bits, m.entries.len(), data, pos);
    if index > m.entries.len() {
        (m, pos2, Err(DecodeError::InvalidIndex))
    } else {
        let pr = if index > 0 {
            m.entries[index as int - 1]
        } else {
            (0usize, 0usize)
        };
        match element {
            None => (m, pos2, Ok(pr)),
            Some(el) => {
                let ns = m.scratch.len() as usize;
                let ne = (m.scratch.len() + (pr.1 - pr.0) + 1) as usize;
                (
                    Lz78Model {
                        scratch: m.scratch + m.scratch.subrange(pr.0 as int, pr.1 as int) + seq![
                            el as u32,
                        ],
                        entries: m.entries.push((ns, ne)),
                        output: m.output,
                    },
                    pos2,
                    Ok((ns, ne)),
                )
            },
        }
    }
}

/// One step at the phrase level: hand out the whole pending phrase,
/// decoding one more codeword first when it is spent.
pub open spec fn lz78_slice_step(m: Lz78Model, w_bits: nat, data: Seq<u8>, pos: int) -> (
    Lz78Model,
    int,
    Result<Seq<u32>, DecodeError>,
) {
    if m.output.0 >= m.output.1 {
        let (m2, p2, res) = lz78_range_step(m, w_bits, data, pos);
        match res {
            Err(e) => (m2, p2, Err(e)),
            Ok(pr) => (
                Lz78Model { output: (pr.1, pr.1), ..m2 },
                p2,
                Ok(m2.scratch.subrange(pr.0 as int, pr.1 as int)),
            ),
        }
    } else {
        (
            Lz78Model { output: (m.output.1, m.output.1), ..m },
            pos,
            Ok(m.scratch.subrange(m.output.0 as int, m.output.1 as int)),
        )
    }
}

/// One step at the symbol level: hand out the next symbol of the
/// pending phrase, decoding one more codeword when it is spent; a
/// closing codeword that names the empty phrase carries no symbol.
pub open spec fn lz78_next_step(m: Lz78Model, w_bits: nat, data: Seq<u8>, pos: int) -> (
    Lz78Model,
    int,
    Result<u32, DecodeError>,
) {
    if m.output.0 >= m.output.1 {
        let (m2, p2, res) = lz78_range_step(m, w_bits, data, pos);
        match res {
            Err(e) => (m2, p2, Err(e)),
            Ok(pr) => if pr.0 >= pr.1 {
                (Lz78Model { output: pr, ..m2 }, p2, Err(DecodeError::Io))
            } else {
                (
                    Lz78Model { output: ((pr.0 + 1) as usize, pr.1), ..m2 },
                    p2,
                    Ok(m2.scratch[pr.0 as int]),
                )
            },
        }
    } else {
        (
            Lz78Model { output: ((m.output.0 + 1) as usize, m.output.1), ..m },
            pos,
            Ok(m.scratch[m.output.0 as int]),
        )
    }
}

/// An LZ78 decoder over `W`-bit symbols: phrases live back to back in a
/// scratch buffer, and the pending phrase is handed out symbol by
/// symbol.
pub struct Decoder<const W: u32> {
    /// All decoded phrases so far, back to back.
    pub scratch: Vec<u32>,
    /// Dictionary entry `i` marks the scratch range of phrase `i + 1`.
    pub entries: Vec<(usize, usize)>,
    /// What is left of the phrase being handed out.
    pub output: (usize, usize),
}

impl<const W: u32> View for Decoder<W> {
    type V = Lz78Model;

    open spec fn view(&self) -> Lz78Model {
        Lz78Model { scratch: self.scratch@, entries: self.entries@, output: self.output }
    }
}

impl<const W: u32> Decoder<W> {
    pub open spec fn wf(&self) -> bool {
        &&& 1 <= W <= 31
        &&& forall|i: int|
            0 <= i < self.entries@.len() ==> 0 <= (#[trigger] self.entries@[i]).0
                <= self.entries@[i].1 <= self.scratch@.len()
        &&& forall|i: int| 0 <= i < self.scratch@.len() ==> #[trigger] self.scratch@[i] < (1u32
            << W)
        &&& self.output.0 <= self.output.1 <= self.scratch@.len()
    }

    pub fn new() -> (r: Self)
        requires
            1 <= W <= 31,
        ensures
            r.wf(),
            r@.scratch == Seq::<u32>::empty(),
            r@.entries == Seq::<(usize, usize)>::empty(),
            r@.output == (0usize, 0usize),
    {
        Decoder { scratch: Vec::new(), entries: Vec::new(), output: (0, 0) }
    }

    /// A decoder is only done once its pending phrase is consumed.
    pub fn finish(&self)
        requires
            self.output.0 == self.output.1,
    {
    }

    /// Read one codeword: a phrase index at the current width, then the
    /// literal symbol, absent when the bytes end first.
    fn read(&self, reader: &mut ReadBits) -> (r: (u32, Option<u32>))
        requires
            self.wf(),
            old(reader).wf(),
            self.entries@.len() < 0x4000_0000,
        ensures
            final(reader).wf(),
            final(reader).data@ == old(reader).data@,
            ({
                let (index, element, pos2) = lz78_read(
                    W as nat,
                    self.entries@.len() as nat,
                    old(reader).data@,
                    old(reader).pos as int,
                );
                &&& r.0 == index
                &&& match r.1 {
                    Some(e) => element == Some(e as nat),
                    None => element is None,
                }
                &&& final(reader).pos == pos2
            }),
            r.0 < (1u32 << 31),
            r.1 matches Some(e) ==> e < (1u32 << W),
    {
        let n: u32 = self.entries.len() as u32 + 1;
        let bits = ceil_log2_u32(n);
        proof {
            vstd::arithmetic::power2::lemma2_to64();
            lemma_ceil_log2_le(n as nat, 31);
            assert(bits < 32 ==> 1u32 << bits >= 1) by (bit_vector);
        }
        let mut index_bytes: Vec<u8> = vec![0u8; 4];
        let got = reader.read_bits(&mut index_bytes, 0, bits as usize);
        let g: u32 = got as u32;
        let raw: u32 = (index_bytes[0] as u32) | ((index_bytes[1] as u32) << 8) | ((
        index_bytes[2] as u32) << 16) | ((index_bytes[3] as u32) << 24);
        proof {
            assert(g < 32 ==> 1u32 << g >= 1) by (bit_vector);
        }
        let index: u32 = raw & ((1u32 << g) - 1);
        proof {
            let b0 = index_bytes@[0];
            let b1 = index_bytes@[1];
            let b2 = index_bytes@[2];
            let b3 = index_bytes@[3];
            lemma_le4_bits(raw);
            assert(le4(raw) =~= index_bytes@) by {
                assert((((b0 as u32) | ((b1 as u32) << 8) | ((b2 as u32) << 16) | ((b3 as u32)
                    << 24)) & 0xff) as u8 == b0 && ((((b0 as u32) | ((b1 as u32) << 8) | ((b2
                    as u32) << 16) | ((b3 as u32) << 24)) >> 8) & 0xff) as u8 == b1 && ((((b0
                    as u32) | ((b1 as u32) << 8) | ((b2 as u32) << 16) | ((b3 as u32) << 24)) >> 16)
                    & 0xff) as u8 == b2 && ((((b0 as u32) | ((b1 as u32) << 8) | ((b2 as u32) << 16)
                    | ((b3 as u32) << 24)) >> 24) & 0xff) as u8 == b3) by (bit_vector);
            }
            assert((forall|j: u32|
                j < g && g < 32 ==> ((raw & (((1u32 << g) - 1) as u32)) >> j) & 1 == (raw >> j)
                    & 1) && (g < 32 ==> (raw & (((1u32 << g) - 1) as u32)) >> g == 0))
                by (bit_vector);
            let sg = Seq::new(g as nat, |i: int| bit_at(old(reader).data@, old(reader).pos + i));
            assert forall|j: int| 0 <= j < g implies sg[j] == ((index >> (j as u32)) & 1 == 1) by {
                assert(bit_at(index_bytes@, j) == bit_at(old(reader).data@, old(reader).pos + j));
                assert(bit_at(le4(raw), j) == ((raw >> (j as u32)) & 1 == 1));
            }
            lemma_bits_value(index, sg, g);
            assert(index < (1u32 << 31)) by (bit_vector)
                requires
                    index == raw & (((1u32 << g) - 1) as u32) && g < 32,
            ;
        }

        let w_bits: u32 = W;
        proof {
            assert(w_bits < 32 ==> 1u32 << w_bits >= 1) by (bit_vector);
        }
        let mut element_bytes: Vec<u8> = vec![0u8; 4];
        let egot = reader.read_bits(&mut element_bytes, 0, w_bits as usize);
        if egot < w_bits as usize {
            return (index, None);
        }
        let eraw: u32 = (element_bytes[0] as u32) | ((element_bytes[1] as u32) << 8) | ((
        element_bytes[2] as u32) << 16) | ((element_bytes[3] as u32) << 24);
        let element: u32 = eraw & ((1u32 << w_bits) - 1);
        proof {
            let b0 = element_bytes@[0];
            let b1 = element_bytes@[1];
            let b2 = element_bytes@[2];
            let b3 = element_bytes@[3];
            lemma_le4_bits(eraw);
            assert(le4(eraw) =~= element_bytes@) by {
                assert((((b0 as u32) | ((b1 as u32) << 8) | ((b2 as u32) << 16) | ((b3 as u32)
                    << 24)) & 0xff) as u8 == b0 && ((((b0 as u32) | ((b1 as u32) << 8) | ((b2
                    as u32) << 16) | ((b3 as u32) << 24)) >> 8) & 0xff) as u8 == b1 && ((((b0
                    as u32) | ((b1 as u32) << 8) | ((b2 as u32) << 16) | ((b3 as u32) << 24)) >> 16)
                    & 0xff) as u8 == b2 && ((((b0 as u32) | ((b1 as u32) << 8) | ((b2 as u32) << 16)
                    | ((b3 as u32) << 24)) >> 24) & 0xff) as u8 == b3) by (bit_vector);
            }
            assert((forall|j: u32|
                j < w_bits && w_bits < 32 ==> ((eraw & (((1u32 << w_bits) - 1) as u32)) >> j) & 1
                    == (eraw >> j) & 1) && (w_bits < 32 ==> (eraw & (((1u32 << w_bits) - 1)
                as u32)) >> w_bits == 0)) by (bit_vector);
            let ghost epos = old(reader).pos + got;
            let se = Seq::new(w_bits as nat, |i: int| bit_at(old(reader).data@, epos + i));
            assert forall|j: int| 0 <= j < w_bits implies se[j] == ((element >> (j as u32)) & 1
                == 1) by {
                assert(bit_at(element_bytes@, j) == bit_at(old(reader).data@, epos + j));
                assert(bit_at(le4(eraw), j) == ((eraw >> (j as u32)) & 1 == 1));
            }
            lemma_bits_value(element, se, w_bits);
            assert(w_bits < 32 ==> (eraw & (((1u32 << w_bits) - 1) as u32)) < (1u32 << w_bits))
                by (bit_vector);
            assert((1u32 << w_bits) == (1u32 << W));
        }
        (index, Some(element))
    }

    /// Append the scratch range `s .. e` to the scratch buffer.
    fn extend_scratch(&mut self, s: usize, e: usize)
        requires
            s <= e <= old(self).scratch@.len(),
        ensures
            final(self).scratch@ == old(self).scratch@ + old(self).scratch@.subrange(
                s as int,
                e as int,
            ),
            final(self).entries == old(self).entries,
            final(self).output == old(self).output,
    {
        let ghost prev = self.scratch@;
        let mut i: usize = s;
        while i < e
            invariant
                s <= i <= e <= prev.len(),
                self.scratch@ == prev + prev.subrange(s as int, i as int),
                self.entries == old(self).entries,
                self.output == old(self).output,
            decreases e - i,
        {
            let v = self.scratch[i];
            proof {
                assert(self.scratch@[i as int] == prev[i as int]);
            }
            self.scratch.push(v);
            i = i + 1;
            proof {
                assert(self.scratch@ =~= prev + prev.subrange(s as int, i as int));
            }
        }
    }

    /// Decode one codeword into a fresh pending phrase, exactly as
    /// [`lz78_range_step`] describes.
    fn decode_next_range(&mut self, reader: &mut ReadBits) -> (r: Result<
        (usize, usize),
        DecodeError,
    >)
        requires
            old(self).wf(),
            old(reader).wf(),
            old(self).entries@.len() < 0x4000_0000,
            old(self).scratch@.len() * 2 + 1 <= usize::MAX,
        ensures
            final(self).wf(),
            final(reader).wf(),
            final(reader).data@ == old(reader).data@,
            final(self).output == old(self).output,
            ({
                let (m2, p2, res) = lz78_range_step(
                    old(self)@,
                    W as nat,
                    old(reader).data@,
                    old(reader).pos as int,
                );
                &&& final(self)@ == m2
                &&& final(reader).pos == p2
                &&& r == res
            }),
            r matches Ok(range) ==> range.0 <= range.1 <= final(self).scratch@.len(),
    {
        let ghost prev = self@;
        let (index, element) = self.read(reader);

        if index as usize > self.entries.len() {
            return Err(DecodeError::InvalidIndex);
        }
        let (prefix_start, prefix_end) = if index > 0 {
            self.entries[(index - 1) as usize]
        } else {
            (0, 0)
        };

        let element = match element {
            Some(element) => element,
            None => {
                return Ok((prefix_start, prefix_end));
            },
        };

        let new_start = self.scratch.len();
        self.extend_scratch(prefix_start, prefix_end);
        self.scratch.push(element);
        let new_end = self.scratch.len();

        self.entries.push((new_start, new_end));

        proof {
            let (m2, p2, res) = lz78_range_step(
                prev,
                W as nat,
                old(reader).data@,
                old(reader).pos as int,
            );
            assert(self@.scratch =~= m2.scratch);
            assert(self@ =~= m2);
        }
        Ok((new_start, new_end))
    }

    /// Hand out the whole pending phrase at once, decoding one more
    /// codeword when it is spent; the returned symbols are exactly the
    /// phrase [`lz78_slice_step`] names.
    pub fn decode_next_slice(&mut self, reader: &mut ReadBits) -> (r: Result<
        Vec<u32>,
        DecodeError,
    >)
        requires
            old(self).wf(),
            old(reader).wf(),
            old(self).entries@.len() + 1 < 0x4000_0000,
            old(self).scratch@.len() * 2 + 1 <= usize::MAX,
        ensures
            final(self).wf(),
            final(reader).wf(),
            final(reader).data@ == old(reader).data@,
            ({
                let (m2, p2, res) = lz78_slice_step(
                    old(self)@,
                    W as nat,
                    old(reader).data@,
                    old(reader).pos as int,
                );
                &&& final(self)@ == m2
                &&& final(reader).pos == p2
                &&& match (r, res) {
                    (Ok(v), Ok(sv)) => v@ == sv,
                    (Err(e), Err(e2)) => e == e2,
                    _ => false,
                }
            }),
            r matches Ok(v) ==> forall|i: int| 0 <= i < v@.len() ==> #[trigger] v@[i] < (1u32
                << W),
    {
        let ghost prev = self@;
        let range = if self.output.0 >= self.output.1 {
            match self.decode_next_range(reader) {
                Ok(range) => range,
                Err(e) => {
                    return Err(e);
                },
            }
        } else {
            self.output
        };
        let mut v: Vec<u32> = Vec::new();
        let mut i = range.0;
        while i < range.1
            invariant
                self.wf(),
                range.1 <= self.scratch@.len(),
                range.0 <= i <= range.1,
                v@ == self.scratch@.subrange(range.0 as int, i as int),
                forall|k: int| 0 <= k < v@.len() ==> #[trigger] v@[k] < (1u32 << W),
            decreases range.1 - i,
        {
            v.push(self.scratch[i]);
            i = i + 1;
            proof {
                assert(v@ =~= self.scratch@.subrange(range.0 as int, i as int));
            }
        }
        self.output = (range.1, range.1);
        Ok(v)
    }

    /// Hand out the next decoded symbol, decoding one more codeword
    /// when the pending phrase is spent, exactly as [`lz78_next_step`]
    /// describes.
    pub fn decode_next(&mut self, reader: &mut ReadBits) -> (r: Result<u32, DecodeError>)
        requires
            old(self).wf(),
            old(reader).wf(),
            old(self).entries@.len() + 1 < 0x4000_0000,
            old(self).scratch@.len() * 2 + 1 <= usize::MAX,
        ensures
            final(self).wf(),
            final(reader).wf(),
            final(reader).data@ == old(reader).data@,
            ({
                let (m2, p2, res) = lz78_next_step(
                    old(self)@,
                    W as nat,
                    old(reader).data@,
                    old(reader).pos as int,
                );
                &&& final(self)@ == m2
                &&& final(reader).pos == p2
                &&& r == res
            }),
            r matches Ok(e) ==> e < (1u32 << W),
    {
        if self.output.0 >= self.output.1 {
            let range = match self.decode_next_range(reader) {
                Ok(range) => range,
                Err(e) => {
                    return Err(e);
                },
            };
            self.output = range;
        }
        if self.output.0 >= self.output.1 {
            // The closing codeword names the empty phrase: the stream
            // holds no further symbol.
            return Err(DecodeError::Io);
        }
        let element = self.scratch[self.output.0];
        self.output = (self.output.0 + 1, self.output.1);
        Ok(element)
    }
}

} // verus!
