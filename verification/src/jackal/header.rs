//! The container header: magic, configuration word, extent triple, and
//! the per-super-block index entries.
//!
//! The configuration word packs four fields in mixed radix, least
//! significant first: the block format (radix ten), the footprint
//! identifier (radix twenty-five), the dimensionality (radix five) and
//! the mip level count (radix thirty).

use vstd::prelude::*;

use crate::jackal::{DecodeError, DecompressError};
use crate::lzw::le4;

verus! {

/// The container magic, the four ASCII characters "JKL0" little-endian.
pub const MAGIC_VER_0: u32 = 0x304C4B4A;

/// The eight little-endian bytes of a 64-bit value.
pub open spec fn le8(v: u64) -> Seq<u8> {
    seq![
        (v & 0xff) as u8,
        ((v >> 8) & 0xff) as u8,
        ((v >> 16) & 0xff) as u8,
        ((v >> 24) & 0xff) as u8,
        ((v >> 32) & 0xff) as u8,
        ((v >> 40) & 0xff) as u8,
        ((v >> 48) & 0xff) as u8,
        ((v >> 56) & 0xff) as u8,
    ]
}

/// The 32-bit value read little-endian at byte offset `off`.
pub open spec fn le_u32_at(data: Seq<u8>, off: int) -> u32 {
    (data[off] as u32) | ((data[off + 1] as u32) << 8) | ((data[off + 2] as u32) << 16) | ((data[off
        + 3] as u32) << 24)
}

/// The 64-bit value read little-endian at byte offset `off`.
pub open spec fn le_u64_at(data: Seq<u8>, off: int) -> u64 {
    (data[off] as u64) | ((data[off + 1] as u64) << 8) | ((data[off + 2] as u64) << 16) | ((data[off
        + 3] as u64) << 24) | ((data[off + 4] as u64) << 32) | ((data[off + 5] as u64) << 40) | ((
    data[off + 6] as u64) << 48) | ((data[off + 7] as u64) << 56)
}

/// Append the four little-endian bytes of `v`.
pub fn push_u32_le(out: &mut Vec<u8>, v: u32)
    ensures
        final(out)@ == old(out)@ + le4(v),
{
    out.push((v & 0xff) as u8);
    out.push(((v >> 8) & 0xff) as u8);
    out.push(((v >> 16) & 0xff) as u8);
    out.push(((v >> 24) & 0xff) as u8);
    proof {
        assert(out@ =~= old(out)@ + le4(v));
    }
}

/// Append the eight little-endian bytes of `v`.
pub fn push_u64_le(out: &mut Vec<u8>, v: u64)
    ensures
        final(out)@ == old(out)@ + le8(v),
{
    out.push((v & 0xff) as u8);
    out.push(((v >> 8) & 0xff) as u8);
    out.push(((v >> 16) & 0xff) as u8);
    out.push(((v >> 24) & 0xff) as u8);
    out.push(((v >> 32) & 0xff) as u8);
    out.push(((v >> 40) & 0xff) as u8);
    out.push(((v >> 48) & 0xff) as u8);
    out.push(((v >> 56) & 0xff) as u8);
    proof {
        assert(out@ =~= old(out)@ + le8(v));
    }
}

/// Overwrite the eight bytes at `off` with `v`, little-endian; all other
/// bytes stay as they were.
pub fn write_u64_at(out: &mut Vec<u8>, off: usize, v: u64)
    requires
        off + 8 <= old(out)@.len(),
    ensures
        final(out)@.len() == old(out)@.len(),
        le_u64_at(final(out)@, off as int) == v,
        forall|k: int| 0 <= k < old(out)@.len() && !(off <= k < off + 8) ==> final(out)@[k] == old(
            out,
        )@[k],
        final(out)@ == old(out)@.subrange(0, off as int) + le8(v) + old(out)@.subrange(
            off + 8,
            old(out)@.len() as int,
        ),
{
    let n = out.len();
    proof {
        assert(off + 8 <= n);
    }
    let i1 = off + 1;
    let i2 = off + 2;
    let i3 = off + 3;
    let i4 = off + 4;
    let i5 = off + 5;
    let i6 = off + 6;
    let i7 = off + 7;
    out[off] = (v & 0xff) as u8;
    out[i1] = ((v >> 8) & 0xff) as u8;
    out[i2] = ((v >> 16) & 0xff) as u8;
    out[i3] = ((v >> 24) & 0xff) as u8;
    out[i4] = ((v >> 32) & 0xff) as u8;
    out[i5] = ((v >> 40) & 0xff) as u8;
    out[i6] = ((v >> 48) & 0xff) as u8;
    out[i7] = ((v >> 56) & 0xff) as u8;
    proof {
        lemma_le8_value(v);
        assert(out@ =~= old(out)@.subrange(0, off as int) + le8(v) + old(out)@.subrange(
            off + 8,
            old(out)@.len() as int,
        ));
    }
}

/// Reassembling the eight little-endian bytes of `v` gives back `v`.
pub proof fn lemma_le8_value(v: u64)
    ensures
        ((((v & 0xff) as u8) as u64) | (((((v >> 8) & 0xff) as u8) as u64) << 8) | (((((v >> 16)
            & 0xff) as u8) as u64) << 16) | (((((v >> 24) & 0xff) as u8) as u64) << 24) | (((((v
            >> 32) & 0xff) as u8) as u64) << 32) | (((((v >> 40) & 0xff) as u8) as u64) << 40) | ((((
        (v >> 48) & 0xff) as u8) as u64) << 48) | (((((v >> 56) & 0xff) as u8) as u64) << 56)) == v,
{
    assert(((((v & 0xff) as u8) as u64) | (((((v >> 8) & 0xff) as u8) as u64) << 8) | (((((v >> 16)
        & 0xff) as u8) as u64) << 16) | (((((v >> 24) & 0xff) as u8) as u64) << 24) | (((((v >> 32)
        & 0xff) as u8) as u64) << 32) | (((((v >> 40) & 0xff) as u8) as u64) << 40) | (((((v >> 48)
        & 0xff) as u8) as u64) << 48) | (((((v >> 56) & 0xff) as u8) as u64) << 56)) == v)
        by (bit_vector);
}

/// Reassembling the four little-endian bytes of `v` gives back `v`.
pub proof fn lemma_le4_value(v: u32)
    ensures
        le_u32_at(le4(v), 0) == v,
        forall|rest: Seq<u8>| le_u32_at(le4(v) + rest, 0) == v,
        forall|pre: Seq<u8>, rest: Seq<u8>| #[trigger] le_u32_at(pre + le4(v) + rest, pre.len() as int)
            == v,
{
    assert(((((v & 0xff) as u8) as u32) | (((((v >> 8) & 0xff) as u8) as u32) << 8) | (((((v >> 16)
        & 0xff) as u8) as u32) << 16) | (((((v >> 24) & 0xff) as u8) as u32) << 24)) == v)
        by (bit_vector);
    assert forall|pre: Seq<u8>, rest: Seq<u8>| #[trigger] le_u32_at(
        pre + le4(v) + rest,
        pre.len() as int,
    ) == v by {
        assert((pre + le4(v) + rest)[pre.len() as int] == (v & 0xff) as u8);
        assert((pre + le4(v) + rest)[pre.len() as int + 1] == ((v >> 8) & 0xff) as u8);
        assert((pre + le4(v) + rest)[pre.len() as int + 2] == ((v >> 16) & 0xff) as u8);
        assert((pre + le4(v) + rest)[pre.len() as int + 3] == ((v >> 24) & 0xff) as u8);
    }
    assert forall|rest: Seq<u8>| le_u32_at(le4(v) + rest, 0) == v by {
        assert(Seq::<u8>::empty() + le4(v) + rest =~= le4(v) + rest);
        assert(le_u32_at(Seq::<u8>::empty() + le4(v) + rest, 0) == v);
    }
    assert(le4(v) + Seq::<u8>::empty() =~= le4(v));
    assert(le_u32_at(le4(v) + Seq::<u8>::empty(), 0) == v);
}

/// Read the 32-bit little-endian value at byte `off`.
pub fn read_u32_at(data: &[u8], off: usize) -> (r: u32)
    requires
        off + 4 <= data@.len(),
    ensures
        r == le_u32_at(data@, off as int),
{
    (data[off] as u32) | ((data[off + 1] as u32) << 8) | ((data[off + 2] as u32) << 16) | ((data[off
        + 3] as u32) << 24)
}

/// Read the 64-bit little-endian value at byte `off`.
pub fn read_u64_at(data: &[u8], off: usize) -> (r: u64)
    requires
        off + 8 <= data@.len(),
    ensures
        r == le_u64_at(data@, off as int),
{
    (data[off] as u64) | ((data[off + 1] as u64) << 8) | ((data[off + 2] as u64) << 16) | ((data[off
        + 3] as u64) << 24) | ((data[off + 4] as u64) << 32) | ((data[off + 5] as u64) << 40) | ((
    data[off + 6] as u64) << 48) | ((data[off + 7] as u64) << 56)
}

/// Size of a super-block in number of blocks, clipped at the grid's
/// right and bottom edges.
#[derive(Clone, Copy, Debug, PartialEq, Eq, Structural)]
pub struct Footprint(pub u16, pub u16);

/// The baseline profile uses one fixed footprint for every texture size.
pub fn footprint_from_size(size: u32) -> (r: u16)
    ensures
        r == 1024,
{
    1024
}

impl Footprint {
    /// How many footprint identifiers the configuration word reserves.
    pub const COUNT: u32 = 25;

    /// The identifier written for this footprint; the baseline profile
    /// always writes identifier zero.
    pub fn encode(&self) -> (r: u32)
        ensures
            r == 0,
    {
        0
    }

    /// The footprint a stored identifier denotes; every identifier of
    /// the baseline profile denotes the fixed footprint.
    pub fn decode(id: u32) -> (r: Self)
        requires
            id < 25,
        ensures
            r == (Footprint(1024, 1024)),
    {
        Footprint(1024, 1024)
    }

    /// The footprint used for a texture of the given block extent.
    pub fn from_size(width: u32, height: u32) -> (r: Self)
        ensures
            r == (Footprint(1024, 1024)),
    {
        Footprint(footprint_from_size(width), footprint_from_size(height))
    }
}

#[derive(Clone, Copy, Debug, PartialEq, Eq, Structural)]
pub enum Format {
    BC1,
    BC3,
    BC4,
    BC5,
    BC6,
    BC7,
}

/// The field value that stands for each block format.
pub open spec fn spec_format_code(f: Format) -> u32 {
    match f {
        Format::BC1 => 0,
        Format::BC3 => 1,
        Format::BC4 => 2,
        Format::BC5 => 3,
        Format::BC6 => 4,
        Format::BC7 => 5,
    }
}

/// The block format a stored field value denotes; values in the
/// reserved range are an unsupported format.
pub open spec fn spec_format_decode(id: u32) -> Result<Format, DecodeError> {
    if id == 0 {
        Ok(Format::BC1)
    } else if id == 1 {
        Ok(Format::BC3)
    } else if id == 2 {
        Ok(Format::BC4)
    } else if id == 3 {
        Ok(Format::BC5)
    } else if id == 4 {
        Ok(Format::BC6)
    } else if id == 5 {
        Ok(Format::BC7)
    } else {
        Err(DecodeError::UnsupportedFormat)
    }
}

impl Format {
    /// How many format identifiers the configuration word reserves.
    pub const COUNT: u32 = 10;

    pub fn encode(&self) -> (r: u32)
        ensures
            r == spec_format_code(*self),
            r < 6,
    {
        match self {
            Format::BC1 => 0,
            Format::BC3 => 1,
            Format::BC4 => 2,
            Format::BC5 => 3,
            Format::BC6 => 4,
            Format::BC7 => 5,
        }
    }

    pub fn decode(id: u32) -> (r: Result<Self, DecodeError>)
        requires
            id < 10,
        ensures
            r == spec_format_decode(id),
    {
        match id {
            0 => Ok(Format::BC1),
            1 => Ok(Format::BC3),
            2 => Ok(Format::BC4),
            3 => Ok(Format::BC5),
            4 => Ok(Format::BC6),
            5 => Ok(Format::BC7),
            _ => Err(DecodeError::UnsupportedFormat),
        }
    }
}

#[derive(Clone, Copy, Debug, PartialEq, Eq, Structural)]
pub enum Dimensions {
    D1,
    D2,
    D3,
    D1Array,
    D2Array,
}

/// The field value that stands for each dimensionality.
pub open spec fn spec_dimensions_code(d: Dimensions) -> u32 {
    match d {
        Dimensions::D1 => 0,
        Dimensions::D2 => 1,
        Dimensions::D3 => 2,
        Dimensions::D1Array => 3,
        Dimensions::D2Array => 4,
    }
}

/// The dimensionality a stored field value below five denotes.
pub open spec fn spec_dimensions_decode(id: u32) -> Dimensions {
    if id == 0 {
        Dimensions::D1
    } else if id == 1 {
        Dimensions::D2
    } else if id == 2 {
        Dimensions::D3
    } else if id == 3 {
        Dimensions::D1Array
    } else {
        Dimensions::D2Array
    }
}

impl Dimensions {
    /// How many dimensionality identifiers the configuration word
    /// reserves.
    pub const COUNT: u32 = 5;

    pub fn encode(&self) -> (r: u32)
        ensures
            r == spec_dimensions_code(*self),
            r < 5,
    {
        match self {
            Dimensions::D1 => 0,
            Dimensions::D2 => 1,
            Dimensions::D3 => 2,
            Dimensions::D1Array => 3,
            Dimensions::D2Array => 4,
        }
    }

    pub fn decode(id: u32) -> (r: Self)
        requires
            id < 5,
        ensures
            r == spec_dimensions_decode(id),
    {
        match id {
            0 => Dimensions::D1,
            1 => Dimensions::D2,
            2 => Dimensions::D3,
            3 => Dimensions::D1Array,
            _ => Dimensions::D2Array,
        }
    }
}

/// Number of texture mip levels.
#[derive(Clone, Copy, Debug, PartialEq, Eq, Structural)]
pub struct MipLevels(pub u8);

impl MipLevels {
    /// How many level counts the configuration word reserves.
    pub const COUNT: u32 = 30;

    pub fn encode(&self) -> (r: u32)
        ensures
            r == self.0,
    {
        self.0 as u32
    }

    pub fn decode(id: u32) -> (r: Self)
        requires
            id < 30,
        ensures
            r.0 == id,
    {
        MipLevels(id as u8)
    }
}

/// The four decoded fields of the configuration word.
#[derive(Clone, Copy, Debug, PartialEq, Eq, Structural)]
pub struct Config {
    /// Dimensionality of the texture.
    pub dimensions: Dimensions,
    /// Number of texture mip levels.
    pub levels: MipLevels,
    /// Format of the blocks.
    pub format: Format,
    /// Footprint of super-blocks.
    pub footprint: Footprint,
}

/// The packed configuration word of a configuration.
pub open spec fn spec_config_value(c: Config) -> int {
    c.levels.0 * 1250 + spec_dimensions_code(c.dimensions) * 250 + 0 * 10 + spec_format_code(
        c.format,
    )
}

/// The configuration a stored word denotes, or the error that rejects
/// it: a format identifier in the reserved range, or a level count past
/// the radix.
pub open spec fn spec_config_decode(config: u32) -> Result<Config, DecodeError> {
    match spec_format_decode(config % 10) {
        Err(e) => Err(e),
        Ok(format) => if config / 1250 >= 30 {
            Err(DecodeError::InvalidHeader)
        } else {
            Ok(
                Config {
                    dimensions: spec_dimensions_decode((config / 250) % 5),
                    levels: MipLevels((config / 1250) as u8),
                    format,
                    footprint: Footprint(1024, 1024),
                },
            )
        },
    }
}

impl Config {
    pub fn encode(&self) -> (c: u32)
        ensures
            c == spec_config_value(*self),
    {
        let levels = self.levels.encode();
        let dimensions = self.dimensions.encode();
        let footprint = self.footprint.encode();
        let format = self.format.encode();

        let mut config: u32 = 0;

        config = config * MipLevels::COUNT;
        config = config + levels;

        config = config * Dimensions::COUNT;
        config = config + dimensions;

        config = config * Footprint::COUNT;
        config = config + footprint;

        config = config * Format::COUNT;
        config = config + format;

        config
    }

    pub fn decode(config: u32) -> (r: Result<Self, DecodeError>)
        ensures
            r == spec_config_decode(config),
    {
        let mut c = config;

        let format = match Format::decode(c % 10) {
            Ok(f) => f,
            Err(e) => {
                return Err(e);
            },
        };
        c = c / 10;

        let footprint = Footprint::decode(c % 25);
        c = c / 25;

        let dimensions = Dimensions::decode(c % 5);
        c = c / 5;

        if c >= 30 {
            return Err(DecodeError::InvalidHeader);
        }
        let levels = MipLevels::decode(c);

        proof {
            assert(config / 10 / 25 == config / 250);
            assert(config / 250 / 5 == config / 1250);
        }
        Ok(Config { dimensions, levels, format, footprint })
    }
}

/// A configuration word decodes back to the configuration it was packed
/// from, whenever the level count is within its radix and the footprint
/// is the baseline one.
pub proof fn lemma_config_roundtrip(c: Config)
    requires
        c.levels.0 < 30,
        c.footprint == (Footprint(1024, 1024)),
    ensures
        spec_config_decode(spec_config_value(c) as u32) == Ok::<Config, DecodeError>(c),
{
    let l = c.levels.0 as int;
    let d = spec_dimensions_code(c.dimensions) as int;
    let f = spec_format_code(c.format) as int;
    let v = l * 1250 + d * 250 + f;
    assert(v == (l * 125 + d * 25) * 10 + f);
    assert(v % 10 == f && v / 10 == l * 125 + d * 25) by (nonlinear_arith)
        requires
            v == (l * 125 + d * 25) * 10 + f && 0 <= f < 10 && l >= 0 && d >= 0,
    ;
    assert(v / 250 == l * 5 + d) by (nonlinear_arith)
        requires
            v == (l * 5 + d) * 250 + f + 0 && 0 <= f + 0 < 250 && l >= 0 && d >= 0,
    ;
    assert((l * 5 + d) % 5 == d && (l * 5 + d) / 5 == l) by (nonlinear_arith)
        requires
            0 <= d < 5 && l >= 0,
    ;
    assert(v / 1250 == l) by (nonlinear_arith)
        requires
            v == l * 1250 + d * 250 + f && 0 <= d * 250 + f < 1250 && l >= 0,
    ;
    assert(v / 250 % 5 == d);
}


/// Extent of the image, tagged by dimensionality. Unused dimensions are
/// carried as one in the canonical size triple.
#[derive(Clone, Copy, Debug, PartialEq, Eq, Structural)]
pub enum Extent {
    D1 { width: u32 },
    D2 { width: u32, height: u32 },
    D3 { width: u32, height: u32, depth: u32 },
    D1Array { width: u32, layers: u32 },
    D2Array { width: u32, height: u32, layers: u32 },
}

/// The first entry of the canonical size triple.
pub open spec fn spec_raw_w(e: Extent) -> u32 {
    match e {
        Extent::D1 { width } => width,
        Extent::D2 { width, .. } => width,
        Extent::D3 { width, .. } => width,
        Extent::D1Array { width, .. } => width,
        Extent::D2Array { width, .. } => width,
    }
}

/// The second entry of the canonical size triple.
pub open spec fn spec_raw_h(e: Extent) -> u32 {
    match e {
        Extent::D1 { .. } => 1,
        Extent::D2 { height, .. } => height,
        Extent::D3 { height, .. } => height,
        Extent::D1Array { layers, .. } => layers,
        Extent::D2Array { height, .. } => height,
    }
}

/// The third entry of the canonical size triple.
pub open spec fn spec_raw_d(e: Extent) -> u32 {
    match e {
        Extent::D1 { .. } => 1,
        Extent::D2 { .. } => 1,
        Extent::D3 { depth, .. } => depth,
        Extent::D1Array { .. } => 1,
        Extent::D2Array { layers, .. } => layers,
    }
}

/// The dimensionality tag of an extent.
pub open spec fn spec_dimensions(e: Extent) -> Dimensions {
    match e {
        Extent::D1 { .. } => Dimensions::D1,
        Extent::D2 { .. } => Dimensions::D2,
        Extent::D3 { .. } => Dimensions::D3,
        Extent::D1Array { .. } => Dimensions::D1Array,
        Extent::D2Array { .. } => Dimensions::D2Array,
    }
}

/// The extent a size triple denotes under a dimensionality, or the
/// rejection of a triple whose unused entries are not one.
pub open spec fn spec_extent_from(d: Dimensions, w: u32, h: u32, dep: u32) -> Result<
    Extent,
    DecodeError,
> {
    match d {
        Dimensions::D1 => if h != 1 || dep != 1 {
            Err(DecodeError::InvalidExtent)
        } else {
            Ok(Extent::D1 { width: w })
        },
        Dimensions::D2 => if dep != 1 {
            Err(DecodeError::InvalidExtent)
        } else {
            Ok(Extent::D2 { width: w, height: h })
        },
        Dimensions::D3 => Ok(Extent::D3 { width: w, height: h, depth: dep }),
        Dimensions::D1Array => if dep != 1 {
            Err(DecodeError::InvalidExtent)
        } else {
            Ok(Extent::D1Array { width: w, layers: h })
        },
        Dimensions::D2Array => Ok(Extent::D2Array { width: w, height: h, layers: dep }),
    }
}

impl Extent {
    pub fn width(&self) -> (r: u32)
        ensures
            r == spec_raw_w(*self),
    {
        match *self {
            Extent::D1 { width } => width,
            Extent::D2 { width, .. } => width,
            Extent::D3 { width, .. } => width,
            Extent::D1Array { width, .. } => width,
            Extent::D2Array { width, .. } => width,
        }
    }

    pub fn height(&self) -> (r: u32)
        ensures
            r == match *self {
                Extent::D1 { .. } => 1u32,
                Extent::D2 { height, .. } => height,
                Extent::D3 { height, .. } => height,
                Extent::D1Array { .. } => 1u32,
                Extent::D2Array { height, .. } => height,
            },
    {
        match *self {
            Extent::D1 { .. } => 1,
            Extent::D2 { height, .. } => height,
            Extent::D3 { height, .. } => height,
            Extent::D1Array { .. } => 1,
            Extent::D2Array { height, .. } => height,
        }
    }

    pub fn depth(&self) -> (r: u32)
        ensures
            r == match *self {
                Extent::D3 { depth, .. } => depth,
                _ => 1u32,
            },
    {
        match *self {
            Extent::D3 { depth, .. } => depth,
            _ => 1,
        }
    }

    pub fn layers(&self) -> (r: u32)
        ensures
            r == match *self {
                Extent::D1Array { layers, .. } => layers,
                Extent::D2Array { layers, .. } => layers,
                _ => 1u32,
            },
    {
        match *self {
            Extent::D1Array { layers, .. } => layers,
            Extent::D2Array { layers, .. } => layers,
            _ => 1,
        }
    }

    pub fn dimensions(self) -> (r: Dimensions)
        ensures
            r == spec_dimensions(self),
    {
        match self {
            Extent::D1 { .. } => Dimensions::D1,
            Extent::D2 { .. } => Dimensions::D2,
            Extent::D3 { .. } => Dimensions::D3,
            Extent::D1Array { .. } => Dimensions::D1Array,
            Extent::D2Array { .. } => Dimensions::D2Array,
        }
    }

    /// The canonical size triple, with unused dimensions carried as one.
    pub fn raw_size(self) -> (r: [u32; 3])
        ensures
            r@ == seq![spec_raw_w(self), spec_raw_h(self), spec_raw_d(self)],
    {
        let r = match self {
            Extent::D1 { width } => [width, 1, 1],
            Extent::D2 { width, height } => [width, height, 1],
            Extent::D3 { width, height, depth } => [width, height, depth],
            Extent::D1Array { width, layers } => [width, layers, 1],
            Extent::D2Array { width, height, layers } => [width, height, layers],
        };
        proof {
            assert(r@ =~= seq![spec_raw_w(self), spec_raw_h(self), spec_raw_d(self)]);
        }
        r
    }

    /// The extent a stored size triple denotes under a dimensionality;
    /// a triple whose unused entries are not one is rejected.
    pub fn from_raw_size(value: [u32; 3], dimensions: Dimensions) -> (r: Result<Self, DecodeError>)
        ensures
            r == spec_extent_from(dimensions, value@[0], value@[1], value@[2]),
    {
        match dimensions {
            Dimensions::D1 => {
                if value[1] != 1 || value[2] != 1 {
                    return Err(DecodeError::InvalidExtent);
                }
                Ok(Extent::D1 { width: value[0] })
            },
            Dimensions::D2 => {
                if value[2] != 1 {
                    return Err(DecodeError::InvalidExtent);
                }
                Ok(Extent::D2 { width: value[0], height: value[1] })
            },
            Dimensions::D3 => Ok(
                Extent::D3 { width: value[0], height: value[1], depth: value[2] },
            ),
            Dimensions::D1Array => {
                if value[2] != 1 {
                    return Err(DecodeError::InvalidExtent);
                }
                Ok(Extent::D1Array { width: value[0], layers: value[1] })
            },
            Dimensions::D2Array => Ok(
                Extent::D2Array { width: value[0], height: value[1], layers: value[2] },
            ),
        }
    }
}

/// An extent's canonical triple decodes back to the same extent under
/// its own dimensionality.
pub proof fn lemma_extent_roundtrip(e: Extent)
    ensures
        spec_extent_from(spec_dimensions(e), spec_raw_w(e), spec_raw_h(e), spec_raw_d(e))
            == Ok::<Extent, DecodeError>(e),
{
}

/// The container header.
#[derive(Clone, Copy, Debug, PartialEq, Eq, Structural)]
pub struct JackalHeader {
    /// Number of texture mip levels.
    pub levels: MipLevels,
    /// Format of the blocks.
    pub format: Format,
    /// Footprint of super-blocks.
    pub footprint: Footprint,
    /// Extent of the image, decoded based on dimensions.
    pub extent: Extent,
}

/// The configuration the header's fields pack into its word.
pub open spec fn spec_config_of(h: JackalHeader) -> Config {
    Config {
        dimensions: spec_dimensions(h.extent),
        levels: h.levels,
        format: h.format,
        footprint: h.footprint,
    }
}

/// The twenty serialized bytes of a header: magic, configuration word,
/// and the size triple, all little-endian.
pub open spec fn spec_header_bytes(h: JackalHeader) -> Seq<u8> {
    le4(MAGIC_VER_0) + le4(spec_config_value(spec_config_of(h)) as u32) + le4(spec_raw_w(h.extent))
        + le4(spec_raw_h(h.extent)) + le4(spec_raw_d(h.extent))
}

/// The header a byte stream opens with, or the error that rejects it:
/// short data, a wrong magic, a bad configuration word, or a size
/// triple inconsistent with the dimensionality.
pub open spec fn spec_read_header(data: Seq<u8>) -> Result<JackalHeader, DecompressError> {
    if data.len() < 20 {
        Err(DecompressError::Io)
    } else if le_u32_at(data, 0) != MAGIC_VER_0 {
        Err(DecompressError::Decode(DecodeError::InvalidMagic))
    } else {
        match spec_config_decode(le_u32_at(data, 4)) {
            Err(e) => Err(DecompressError::Decode(e)),
            Ok(config) => match spec_extent_from(
                config.dimensions,
                le_u32_at(data, 8),
                le_u32_at(data, 12),
                le_u32_at(data, 16),
            ) {
                Err(e) => Err(DecompressError::Decode(e)),
                Ok(extent) => Ok(
                    JackalHeader {
                        levels: config.levels,
                        format: config.format,
                        footprint: config.footprint,
                        extent,
                    },
                ),
            },
        }
    }
}

impl JackalHeader {
    /// The size of the serialized header in bytes.
    pub const BYTES_SIZE: usize = 20;

    /// Append the serialized header.
    pub fn write_to(&self, out: &mut Vec<u8>)
        ensures
            final(out)@ == old(out)@ + spec_header_bytes(*self),
    {
        let dimensions = self.extent.dimensions();
        let raw_size = self.extent.raw_size();

        let config = Config {
            dimensions,
            levels: self.levels,
            format: self.format,
            footprint: self.footprint,
        };

        push_u32_le(out, MAGIC_VER_0);
        push_u32_le(out, config.encode());
        push_u32_le(out, raw_size[0]);
        push_u32_le(out, raw_size[1]);
        push_u32_le(out, raw_size[2]);
        proof {
            assert(out@ =~= old(out)@ + spec_header_bytes(*self));
        }
    }

    /// Parse a header from the front of `data`, rejecting exactly the
    /// streams [`spec_read_header`] rejects.
    pub fn read_from(data: &[u8]) -> (r: Result<Self, DecompressError>)
        ensures
            r == spec_read_header(data@),
    {
        if data.len() < 20 {
            return Err(DecompressError::Io);
        }
        let magic = read_u32_at(data, 0);
        if magic != MAGIC_VER_0 {
            return Err(DecompressError::Decode(DecodeError::InvalidMagic));
        }
        let config = match Config::decode(read_u32_at(data, 4)) {
            Ok(c) => c,
            Err(e) => {
                return Err(DecompressError::Decode(e));
            },
        };
        let width = read_u32_at(data, 8);
        let height = read_u32_at(data, 12);
        let depth = read_u32_at(data, 16);
        let extent = match Extent::from_raw_size([width, height, depth], config.dimensions) {
            Ok(e) => e,
            Err(e) => {
                return Err(DecompressError::Decode(e));
            },
        };
        Ok(
            JackalHeader {
                levels: config.levels,
                format: config.format,
                footprint: config.footprint,
                extent,
            },
        )
    }

    pub fn format(&self) -> (r: Format)
        ensures
            r == self.format,
    {
        self.format
    }

    pub fn extent(&self) -> (r: Extent)
        ensures
            r == self.extent,
    {
        self.extent
    }

    /// How many super-blocks tile the first two axes, and the layer
    /// count of the third.
    pub fn jackal_blocks_extent(&self) -> (r: [u32; 3])
        requires
            self.footprint.0 >= 1,
            self.footprint.1 >= 1,
            spec_raw_w(self.extent) + self.footprint.0 <= u32::MAX,
            spec_raw_h(self.extent) + self.footprint.1 <= u32::MAX,
        ensures
            r@ == seq![spec_sb_w(*self) as u32, spec_sb_h(*self) as u32, spec_sb_d(*self) as u32],
            r@[0] == spec_sb_w(*self),
            r@[1] == spec_sb_h(*self),
            r@[2] == spec_sb_d(*self),
    {
        let raw_size = self.extent.raw_size();
        let fw = self.footprint.0 as u32;
        let fh = self.footprint.1 as u32;
        let jackal_blocks_width = (raw_size[0] + fw - 1) / fw;
        let jackal_blocks_height = (raw_size[1] + fh - 1) / fh;
        let jackal_blocks_depth = raw_size[2];

        let r = [jackal_blocks_width, jackal_blocks_height, jackal_blocks_depth];
        proof {
            assert(r@ =~= seq![
                spec_sb_w(*self) as u32,
                spec_sb_h(*self) as u32,
                spec_sb_d(*self) as u32,
            ]);
        }
        r
    }

    /// How many super-blocks the container holds.
    pub fn jackal_blocks_count(&self) -> (r: usize)
        requires
            self.footprint.0 >= 1,
            self.footprint.1 >= 1,
            spec_raw_w(self.extent) + self.footprint.0 <= u32::MAX,
            spec_raw_h(self.extent) + self.footprint.1 <= u32::MAX,
            spec_sb_w(*self) * spec_sb_h(*self) <= usize::MAX,
            spec_sb_count(*self) <= usize::MAX,
        ensures
            r == spec_sb_count(*self),
    {
        let e = self.jackal_blocks_extent();
        let wh = (e[0] as usize) * (e[1] as usize);
        proof {
            lemma_mul_nonneg_le(spec_sb_w(*self), spec_sb_h(*self), spec_sb_d(*self));
        }
        wh * (e[2] as usize)
    }

    /// How many blocks the texture holds.
    pub fn blocks_count(&self) -> (r: usize)
        requires
            spec_raw_w(self.extent) * spec_raw_h(self.extent) <= usize::MAX,
            spec_raw_w(self.extent) * spec_raw_h(self.extent) * spec_raw_d(self.extent)
                <= usize::MAX,
        ensures
            r == spec_raw_w(self.extent) * spec_raw_h(self.extent) * spec_raw_d(self.extent),
    {
        let raw_size = self.extent.raw_size();
        proof {
            lemma_mul_nonneg_le(
                spec_raw_w(self.extent) as int,
                spec_raw_h(self.extent) as int,
                spec_raw_d(self.extent) as int,
            );
        }
        ((raw_size[0] as usize) * (raw_size[1] as usize)) * (raw_size[2] as usize)
    }
}

/// For nonnegative factors the double product is at most the triple
/// product whenever the third factor is at least one, and the triple
/// product vanishes with it.
pub proof fn lemma_mul_nonneg_le(a: int, b: int, c: int)
    by (nonlinear_arith)
    requires
        0 <= a,
        0 <= b,
        0 <= c,
    ensures
        c >= 1 ==> a * b <= a * b * c,
        c == 0 ==> a * b * c == 0,
        a * b * c == (a * b) * c,
{
}


/// How many super-blocks tile the first axis.
pub open spec fn spec_sb_w(h: JackalHeader) -> int {
    (spec_raw_w(h.extent) + h.footprint.0 - 1) / (h.footprint.0 as int)
}

/// How many super-blocks tile the second axis.
pub open spec fn spec_sb_h(h: JackalHeader) -> int {
    (spec_raw_h(h.extent) + h.footprint.1 - 1) / (h.footprint.1 as int)
}

/// How many layers the third axis holds.
pub open spec fn spec_sb_d(h: JackalHeader) -> int {
    spec_raw_d(h.extent) as int
}

/// The number of super-blocks of a header: the two tiled axes times the
/// layer count.
pub open spec fn spec_sb_count(h: JackalHeader) -> int {
    spec_sb_w(h) * spec_sb_h(h) * spec_sb_d(h)
}


/// One entry of the super-block index: the byte offset of that
/// super-block's compressed payload.
#[derive(Clone, Copy, Debug, PartialEq, Eq, Structural)]
pub struct JackalBlock {
    pub offset: u64,
}

impl JackalBlock {
    /// The size of a serialized index entry in bytes.
    pub const BYTES_SIZE: usize = 8;

    /// Append the serialized entry.
    pub fn write_to(&self, out: &mut Vec<u8>)
        ensures
            final(out)@ == old(out)@ + le8(self.offset),
    {
        push_u64_le(out, self.offset);
    }

    /// Read the entry stored at byte `off`.
    pub fn read_from(data: &[u8], off: usize) -> (r: Result<Self, DecompressError>)
        ensures
            r == if off + 8 <= data@.len() {
                Ok::<JackalBlock, DecompressError>(
                    (JackalBlock { offset: le_u64_at(data@, off as int) }),
                )
            } else {
                Err::<JackalBlock, DecompressError>(DecompressError::Io)
            },
    {
        if off > data.len() || data.len() - off < 8 {
            return Err(DecompressError::Io);
        }
        Ok(JackalBlock { offset: read_u64_at(data, off) })
    }
}


/// A stream that opens with a header's twenty serialized bytes parses
/// back to that header, whatever follows: the write path's output is
/// always accepted by the read path.
pub proof fn lemma_header_roundtrip(h: JackalHeader, bytes: Seq<u8>)
    requires
        h.levels.0 < 30,
        h.footprint == (Footprint(1024, 1024)),
        bytes.len() >= 20,
        bytes.subrange(0, 20) == spec_header_bytes(h),
    ensures
        spec_read_header(bytes) == Ok::<JackalHeader, DecompressError>(h),
{
    let cfg = spec_config_of(h);
    let cfgv = spec_config_value(cfg) as u32;
    let w = spec_raw_w(h.extent);
    let hh = spec_raw_h(h.extent);
    let d = spec_raw_d(h.extent);
    let hb = spec_header_bytes(h);
    assert(spec_config_value(cfg) == cfgv) by {
        assert(cfg.levels.0 < 30);
        assert(spec_config_value(cfg) < 0x100000);
    }
    assert(hb.len() == 20);
    assert forall|j: int| 0 <= j < 20 implies bytes[j] == hb[j] by {
        assert(bytes.subrange(0, 20)[j] == bytes[j]);
    }
    lemma_le4_value(MAGIC_VER_0);
    lemma_le4_value(cfgv);
    lemma_le4_value(w);
    lemma_le4_value(hh);
    lemma_le4_value(d);
    assert(le_u32_at(bytes, 0) == MAGIC_VER_0) by {
        let rest = le4(cfgv) + le4(w) + le4(hh) + le4(d);
        assert(hb =~= le4(MAGIC_VER_0) + rest);
        assert(le_u32_at(le4(MAGIC_VER_0) + rest, 0) == MAGIC_VER_0);
        assert(bytes[0] == hb[0] && bytes[1] == hb[1] && bytes[2] == hb[2] && bytes[3] == hb[3]);
        assert(hb[0] == (le4(MAGIC_VER_0) + rest)[0]);
    }
    assert(le_u32_at(bytes, 4) == cfgv) by {
        let pre = le4(MAGIC_VER_0);
        let rest = le4(w) + le4(hh) + le4(d);
        assert(hb =~= pre + le4(cfgv) + rest);
        assert(le_u32_at(pre + le4(cfgv) + rest, 4) == cfgv);
    }
    assert(le_u32_at(bytes, 8) == w) by {
        let pre = le4(MAGIC_VER_0) + le4(cfgv);
        let rest = le4(hh) + le4(d);
        assert(hb =~= pre + le4(w) + rest);
        assert(le_u32_at(pre + le4(w) + rest, 8) == w);
    }
    assert(le_u32_at(bytes, 12) == hh) by {
        let pre = le4(MAGIC_VER_0) + le4(cfgv) + le4(w);
        let rest = le4(d);
        assert(hb =~= pre + le4(hh) + rest);
        assert(le_u32_at(pre + le4(hh) + rest, 12) == hh);
    }
    assert(le_u32_at(bytes, 16) == d) by {
        let pre = le4(MAGIC_VER_0) + le4(cfgv) + le4(w) + le4(hh);
        let rest = Seq::<u8>::empty();
        assert(hb =~= pre + le4(d) + rest);
        assert(le_u32_at(pre + le4(d) + rest, 16) == d);
    }
    lemma_config_roundtrip(cfg);
    lemma_extent_roundtrip(h.extent);
}

} // verus!
