//! The container format: a fixed header, a super-block index, and one
//! independently LZW-compressed payload per super-block.
//!
//! Blocks within a super-block are visited in Z-order; each block
//! contributes its eight serialized bytes to that super-block's
//! compressed stream.

use vstd::prelude::*;

pub mod header;

pub use header::{
    Config, Dimensions, Extent, Footprint, Format, JackalBlock, JackalHeader, MipLevels,
};

use crate::bc1;
use crate::bits::{bytes_bits, zero_padded, ReadBits, WriteBits};
use crate::jackal::header::{
    le_u64_at, spec_header_bytes, spec_raw_d, spec_raw_h, spec_raw_w, spec_read_header,
    spec_sb_count, spec_sb_d, spec_sb_h, spec_sb_w, write_u64_at,
};
use crate::lzw;
use crate::z_curve::{
    even_squash, in_zrange, interleave, lemma_interleave_split, lemma_zorder_filter_contains,
    lemma_zorder_filter_elems, lemma_zorder_filter_len_mono, lemma_zorder_filter_stable, odd_squash,
    zorder_filter, BoundZCurve,
};

verus! {

/// A reason a container or one of its payloads is rejected.
#[derive(Clone, Copy, Debug, PartialEq, Eq, Structural)]
pub enum DecodeError {
    /// The magic number does not open the stream.
    InvalidMagic,
    /// The configuration word is out of its radix range.
    InvalidHeader,
    /// The format identifier lies in the reserved range.
    UnsupportedFormat,
    /// The extent triple is inconsistent with the dimensionality.
    InvalidExtent,
    /// A payload holds an LZW code that exceeds its dictionary.
    InvalidData,
}

/// A decompression failure: the bytes ran out, or they decode to
/// something invalid.
#[derive(Clone, Copy, Debug, PartialEq, Eq, Structural)]
pub enum DecompressError {
    /// The underlying bytes ran out early.
    Io,
    /// The bytes are well-delimited but invalid.
    Decode(DecodeError),
}

/// The symbols one block feeds the entropy stage: its eight serialized
/// bytes, widened to the encoder's alphabet.
pub open spec fn block_symbols(b: bc1::Block) -> Seq<u32> {
    bc1::spec_block_bytes(b).map_values(|x: u8| x as u32)
}

/// The row-major position of a block in the grid.
pub open spec fn grid_index(rw: int, rh: int, x: int, y: int, z: int) -> int {
    x + y * rw + z * (rw * rh)
}

/// The symbols a run of super-block coordinates feeds the entropy
/// stage: the blocks' bytes, in coordinate order.
pub open spec fn region_symbols(
    blocks: Seq<bc1::Block>,
    rw: int,
    rh: int,
    x0: int,
    y0: int,
    z: int,
    coords: Seq<(u16, u16)>,
) -> Seq<u32>
    decreases coords.len(),
{
    if coords.len() == 0 {
        Seq::<u32>::empty()
    } else {
        region_symbols(blocks, rw, rh, x0, y0, z, coords.drop_last()) + block_symbols(
            blocks[grid_index(rw, rh, x0 + coords.last().0, y0 + coords.last().1, z)],
        )
    }
}

/// A region feeds eight symbols per coordinate.
pub proof fn lemma_region_symbols_len(
    blocks: Seq<bc1::Block>,
    rw: int,
    rh: int,
    x0: int,
    y0: int,
    z: int,
    coords: Seq<(u16, u16)>,
)
    ensures
        region_symbols(blocks, rw, rh, x0, y0, z, coords).len() == 8 * coords.len(),
    decreases coords.len(),
{
    if coords.len() > 0 {
        lemma_region_symbols_len(blocks, rw, rh, x0, y0, z, coords.drop_last());
    }
}

/// Where a super-block starts along one axis.
pub open spec fn spec_clip_start(sp: u32, f: u16) -> int {
    sp * f
}

/// How many blocks of a super-block lie inside the grid along one axis.
pub open spec fn spec_clip_len(raw: u32, sp: u32, f: u16) -> int {
    if raw - sp * f < f {
        raw - sp * f
    } else {
        f as int
    }
}

/// The header that the BC1 write path emits for an extent.
pub open spec fn spec_bc1_header(extent: Extent) -> JackalHeader {
    JackalHeader {
        levels: MipLevels(1),
        format: Format::BC1,
        footprint: Footprint(1024, 1024),
        extent,
    }
}

/// The clipped width of a super-block at position `sp`, in blocks.
pub open spec fn spec_sb_cw(h: JackalHeader, sp: Seq<u32>) -> int {
    spec_clip_len(spec_raw_w(h.extent), sp[0], h.footprint.0)
}

/// The clipped height of a super-block at position `sp`, in blocks.
pub open spec fn spec_sb_ch(h: JackalHeader, sp: Seq<u32>) -> int {
    spec_clip_len(spec_raw_h(h.extent), sp[1], h.footprint.1)
}

/// The Z-order coordinate sequence of a super-block's clipped region:
/// the whole Morton range filtered to the region, so every region
/// coordinate appears exactly once, in Morton order.
pub open spec fn spec_sb_coords(h: JackalHeader, sp: Seq<u32>) -> Seq<(u16, u16)> {
    zorder_filter(spec_sb_cw(h, sp) as u16, spec_sb_ch(h, sp) as u16, 0x1_0000_0000)
}

/// The symbols a super-block feeds its entropy stage: its region's
/// block bytes in Z-order.
pub open spec fn spec_sb_symbols(h: JackalHeader, sp: Seq<u32>, blocks: Seq<bc1::Block>) -> Seq<
    u32,
> {
    region_symbols(
        blocks,
        spec_raw_w(h.extent) as int,
        spec_raw_h(h.extent) as int,
        spec_clip_start(sp[0], h.footprint.0),
        spec_clip_start(sp[1], h.footprint.1),
        sp[2] as int,
        spec_sb_coords(h, sp),
    )
}

/// The bits of a super-block's serialized payload: the encoder's whole
/// emission for the region's symbols, zero-padded to a byte boundary.
pub open spec fn spec_sb_payload_bits(
    h: JackalHeader,
    sp: Seq<u32>,
    blocks: Seq<bc1::Block>,
) -> Seq<bool> {
    zero_padded(lzw::lzw_stream_bits(256, spec_sb_symbols(h, sp, blocks)))
}

/// The index entry of super-block `s`, read from the serialized
/// container.
#[verifier::opaque]
pub open spec fn sb_entry(out: Seq<u8>, s: int) -> u64 {
    le_u64_at(out, 20 + 8 * s)
}

/// What an index entry reads as, spelled out.
pub proof fn lemma_sb_entry_unfold(out: Seq<u8>, s: int)
    ensures
        sb_entry(out, s) == le_u64_at(out, 20 + 8 * s),
{
    reveal(sb_entry);
}

/// Two containers that agree on an entry's eight bytes agree on the
/// entry.
proof fn lemma_sb_entry_frame(a: Seq<u8>, b: Seq<u8>, s: int)
    requires
        forall|j: int| 20 + 8 * s <= j < 20 + 8 * s + 8 ==> a[j] == b[j],
    ensures
        sb_entry(a, s) == sb_entry(b, s),
{
    reveal(sb_entry);
    assert(a[20 + 8 * s] == b[20 + 8 * s]);
    assert(a[20 + 8 * s + 1] == b[20 + 8 * s + 1]);
    assert(a[20 + 8 * s + 2] == b[20 + 8 * s + 2]);
    assert(a[20 + 8 * s + 3] == b[20 + 8 * s + 3]);
    assert(a[20 + 8 * s + 4] == b[20 + 8 * s + 4]);
    assert(a[20 + 8 * s + 5] == b[20 + 8 * s + 5]);
    assert(a[20 + 8 * s + 6] == b[20 + 8 * s + 6]);
    assert(a[20 + 8 * s + 7] == b[20 + 8 * s + 7]);
}

/// A block coordinate inside the grid names a position inside the
/// row-major block array.
proof fn lemma_grid_index_bounds(x: int, y: int, z: int, w: int, h: int, d: int)
    by (nonlinear_arith)
    requires
        0 <= x < w,
        0 <= y < h,
        0 <= z < d,
    ensures
        0 <= x + y * w + z * (w * h) < w * h * d,
        0 <= y * w <= w * h,
        0 <= z * (w * h) <= w * h * d,
        w * h <= w * h * d,
        w * h * d == (w * h) * d,
{
}

/// A super-block index below the tiled count starts strictly inside
/// the grid.
proof fn lemma_sb_start_in_grid(w: int, f: int, q: int)
    requires
        f >= 1,
        0 <= q < (w + f - 1) / f,
    ensures
        q * f < w,
        w >= 1,
    decreases f,
{
    let qq = (w + f - 1) / f;
    vstd::arithmetic::div_mod::lemma_fundamental_div_mod(w + f - 1, f);
    let r = (w + f - 1) % f;
    assert(w + f - 1 == f * qq + r);
    assert(0 <= r < f) by {
        vstd::arithmetic::div_mod::lemma_mod_bound(w + f - 1, f);
    }
    assert(q * f <= (qq - 1) * f) by (nonlinear_arith)
        requires
            q <= qq - 1 && f >= 1,
    ;
    assert((qq - 1) * f == f * qq - f) by (nonlinear_arith);
    assert(f * qq - f == w - 1 - r);
}

/// Feed one block's eight bytes to a running encoder session.
fn feed_block(
    encoder: &mut lzw::Encoder<256>,
    writer: &mut WriteBits,
    b: &bc1::Block,
    Ghost(syms): Ghost<Seq<u32>>,
)
    requires
        old(encoder).wf(),
        old(writer).wf(),
        old(encoder).entries@.len() + 300 < 0x8000_0000,
        (old(encoder).entries@, old(encoder).prefix) == lzw::enc_fold(256, syms).0,
        old(writer).bits() == lzw::enc_fold(256, syms).1,
    ensures
        final(encoder).wf(),
        final(writer).wf(),
        (final(encoder).entries@, final(encoder).prefix) == lzw::enc_fold(
            256,
            syms + block_symbols(*b),
        ).0,
        final(writer).bits() == lzw::enc_fold(256, syms + block_symbols(*b)).1,
        final(encoder).entries@.len() <= old(encoder).entries@.len() + 8,
{
    let bytes = b.bytes();
    let ghost bs = block_symbols(*b);
    let mut i: usize = 0;
    while i < 8
        invariant
            encoder.wf(),
            writer.wf(),
            0 <= i <= 8,
            bytes@ == bc1::spec_block_bytes(*b),
            bs == block_symbols(*b),
            bs.len() == 8,
            encoder.entries@.len() <= old(encoder).entries@.len() + i,
            old(encoder).entries@.len() + 300 < 0x8000_0000,
            (encoder.entries@, encoder.prefix) == lzw::enc_fold(
                256,
                syms + bs.subrange(0, i as int),
            ).0,
            writer.bits() == lzw::enc_fold(256, syms + bs.subrange(0, i as int)).1,
        decreases 8 - i,
    {
        let sym = bytes[i] as u32;
        proof {
            assert(bs[i as int] == sym);
            assert(syms + bs.subrange(0, i + 1) =~= (syms + bs.subrange(0, i as int)).push(
                bs[i as int],
            ));
            lzw::lemma_enc_fold_push(256, syms + bs.subrange(0, i as int), bs[i as int]);
        }
        encoder.encode(sym, writer);
        i = i + 1;
    }
    proof {
        assert(bs.subrange(0, 8) =~= bs);
        assert(syms + bs =~= syms + bs.subrange(0, 8));
    }
}

/// Compress one super-block: its blocks' bytes, visited in Z-order over
/// the clipped region, run through one fresh LZW session whose closing
/// byte is zero-padded.
///
/// The payload's bits are exactly the encoder's emission for the byte
/// stream of the traversal prefix at which the Z-order counter stopped,
/// and that prefix visits every block of the clipped region.
pub fn compress_bc1_blocks(
    header: &JackalHeader,
    super_pos: [u32; 3],
    blocks: &Vec<bc1::Block>,
) -> (payload: Vec<u8>)
    requires
        1 <= header.footprint.0 <= 1024,
        1 <= header.footprint.1 <= 1024,
        super_pos@[0] * header.footprint.0 < spec_raw_w(header.extent),
        super_pos@[1] * header.footprint.1 < spec_raw_h(header.extent),
        super_pos@[2] < spec_raw_d(header.extent),
        blocks@.len() == spec_raw_w(header.extent) * spec_raw_h(header.extent) * spec_raw_d(
            header.extent,
        ),
        spec_raw_w(header.extent) * spec_raw_h(header.extent) <= usize::MAX,
        blocks@.len() <= usize::MAX,
    ensures
        bytes_bits(payload@) == spec_sb_payload_bits(*header, super_pos@, blocks@),
        payload@.len() <= 0x200_0000,
        forall|x: u16, y: u16|
            x < spec_sb_cw(*header, super_pos@) && y < spec_sb_ch(*header, super_pos@)
                ==> spec_sb_coords(*header, super_pos@).contains((x, y)),
{
    let raw = header.extent.raw_size();
    let fw = header.footprint.0 as u32;
    let fh = header.footprint.1 as u32;

    let x_start = super_pos[0] * fw;
    let x_end = if raw[0] - x_start < fw {
        raw[0]
    } else {
        x_start + fw
    };
    let y_start = super_pos[1] * fh;
    let y_end = if raw[1] - y_start < fh {
        raw[1]
    } else {
        y_start + fh
    };
    let z = super_pos[2];

    let width = (x_end - x_start) as u16;
    let height = (y_end - y_start) as u16;

    let ghost rw = spec_raw_w(header.extent) as int;
    let ghost rh = spec_raw_h(header.extent) as int;
    let ghost x0 = spec_clip_start(super_pos@[0], header.footprint.0);
    let ghost y0 = spec_clip_start(super_pos@[1], header.footprint.1);

    let mut encoder = lzw::Encoder::<256>::new();
    let mut writer = WriteBits::new();
    let mut curve = BoundZCurve::new(width, height);
    let ghost mut count: int = 0;

    proof {
        assert(lzw::enc_fold(256, region_symbols(blocks@, rw, rh, x0, y0, z as int, zorder_filter(width, height, 0))).0
            == (Seq::<lzw::Entry>::empty(), Option::<u32>::None));
        assert(lzw::enc_fold(256, region_symbols(blocks@, rw, rh, x0, y0, z as int, zorder_filter(width, height, 0))).1
            == Seq::<bool>::empty());
    }

    loop
        invariant
            encoder.wf(),
            writer.wf(),
            curve.width == width,
            curve.height == height,
            width == spec_clip_len(spec_raw_w(header.extent), super_pos@[0], header.footprint.0),
            height == spec_clip_len(spec_raw_h(header.extent), super_pos@[1], header.footprint.1),
            width <= 1024,
            height <= 1024,
            rw == spec_raw_w(header.extent),
            rh == spec_raw_h(header.extent),
            x0 == spec_clip_start(super_pos@[0], header.footprint.0),
            y0 == spec_clip_start(super_pos@[1], header.footprint.1),
            x0 + width <= rw,
            y0 + height <= rh,
            x_start == x0,
            y_start == y0,
            raw@[0] == spec_raw_w(header.extent),
            raw@[1] == spec_raw_h(header.extent),
            raw@.len() == 3,
            z == super_pos@[2],
            z < spec_raw_d(header.extent),
            blocks@.len() == rw * rh * spec_raw_d(header.extent),
            rw * rh <= usize::MAX,
            blocks@.len() <= usize::MAX,
            0 <= count <= curve.next_index,
            count <= 0x100000,
            count == zorder_filter(width, height, curve.next_index as int).len(),
            encoder.entries@.len() <= 8 * count,
            ({
                let syms = region_symbols(
                    blocks@,
                    rw,
                    rh,
                    x0,
                    y0,
                    z as int,
                    zorder_filter(width, height, curve.next_index as int),
                );
                &&& (encoder.entries@, encoder.prefix) == lzw::enc_fold(256, syms).0
                &&& writer.bits() == lzw::enc_fold(256, syms).1
            }),
        ensures
            zorder_filter(width, height, 0x1_0000_0000) == zorder_filter(
                width,
                height,
                curve.next_index as int,
            ),
        decreases u32::MAX + 1 - curve.next_index,
    {
        let ghost prev_next = curve.next_index as int;
        match curve.next() {
            None => {
                proof {
                    assert forall|k: int| prev_next <= k < 0x1_0000_0000 implies !in_zrange(
                        width,
                        height,
                        k,
                    ) by {
                        assert(!(even_squash(k as u32) < width && odd_squash(k as u32) < height));
                    }
                    lemma_zorder_filter_stable(width, height, prev_next, 0x1_0000_0000);
                    lemma_zorder_filter_stable(width, height, prev_next, curve.next_index as int);
                }
                break ;
            },
            Some(p) => {
                proof {
                    let m = interleave(p.0, p.1) as int;
                    assert forall|k: int| prev_next <= k < m implies !in_zrange(
                        width,
                        height,
                        k,
                    ) by {
                        assert(!(even_squash(k as u32) < width && odd_squash(k as u32)
                            < height));
                    }
                    lemma_zorder_filter_stable(width, height, prev_next, m);
                    lemma_interleave_split(p.0, p.1);
                    assert(in_zrange(width, height, m));
                    assert(zorder_filter(width, height, m + 1) == zorder_filter(
                        width,
                        height,
                        m,
                    ).push(p));
                    let px = p.0;
                    let py = p.1;
                    assert(px < 1024 && py < 1024 ==> interleave(px, py) < 0x100000)
                        by (bit_vector);
                    lemma_grid_index_bounds(
                        x0 + p.0,
                        y0 + p.1,
                        z as int,
                        rw,
                        rh,
                        spec_raw_d(header.extent) as int,
                    );
                }
                let gx = x_start + p.0 as u32;
                let gy = y_start + p.1 as u32;
                let index = gx as usize + gy as usize * (raw[0] as usize) + (z as usize) * ((
                raw[0] as usize) * (raw[1] as usize));
                let b = blocks[index];
                let ghost syms_prev = region_symbols(
                    blocks@,
                    rw,
                    rh,
                    x0,
                    y0,
                    z as int,
                    zorder_filter(width, height, interleave(p.0, p.1) as int),
                );
                proof {
                    let coords2 = zorder_filter(
                        width,
                        height,
                        interleave(p.0, p.1) as int,
                    ).push(p);
                    assert(coords2.drop_last() =~= zorder_filter(
                        width,
                        height,
                        interleave(p.0, p.1) as int,
                    ));
                    assert(region_symbols(blocks@, rw, rh, x0, y0, z as int, coords2)
                        == syms_prev + block_symbols(blocks@[grid_index(
                        rw,
                        rh,
                        x0 + p.0,
                        y0 + p.1,
                        z as int,
                    )]));
                    assert(b == blocks@[grid_index(rw, rh, x0 + p.0, y0 + p.1, z as int)]);
                }
                feed_block(&mut encoder, &mut writer, &b, Ghost(syms_prev));
                proof {
                    count = count + 1;
                }
            },
        }
    }

    let ghost k_end = curve.next_index as int;
    let ghost syms = region_symbols(
        blocks@,
        rw,
        rh,
        x0,
        y0,
        z as int,
        zorder_filter(width, height, k_end),
    );
    encoder.finish(&mut writer);
    proof {
        assert(writer.bits() == lzw::lzw_stream_bits(256, syms));
    }
    writer.finish();
    let payload = writer.into_bytes();
    proof {
        assert(zorder_filter(spec_sb_cw(*header, super_pos@) as u16, spec_sb_ch(*header, super_pos@) as u16, 0x1_0000_0000)
            == zorder_filter(width, height, 0x1_0000_0000));
        assert(spec_sb_coords(*header, super_pos@) == zorder_filter(width, height, k_end));
        assert(bytes_bits(payload@) == spec_sb_payload_bits(*header, super_pos@, blocks@));
        lemma_region_symbols_len(blocks@, rw, rh, x0, y0, z as int, zorder_filter(width, height, k_end));
        assert(count <= 0x100000);
        assert(zorder_filter(width, height, k_end).len() == count);
        assert(syms.len() == 8 * count);
        assert(syms.len() <= 0x80_0000);
        lzw::lemma_lzw_stream_len(256, syms);
        assert(payload@.len() * 8 == bytes_bits(payload@).len());
        assert(bytes_bits(payload@).len() <= 31 * syms.len() + 31 + 7);
        assert(payload@.len() <= 0x200_0000);
        assert forall|x: u16, y: u16|
            x < spec_sb_cw(*header, super_pos@) && y < spec_sb_ch(*header, super_pos@)
                implies spec_sb_coords(*header, super_pos@).contains((x, y)) by {
            let k = interleave(x, y);
            lemma_interleave_split(x, y);
            assert(in_zrange(width, height, k as int));
            lemma_zorder_filter_contains(width, height, k as int, 0x1_0000_0000);
        }
    }
    payload
}



/// Grid coordinates name their row-major position uniquely.
proof fn lemma_grid_decompose_unique(
    rw: int,
    rh: int,
    x1: int,
    y1: int,
    z1: int,
    x2: int,
    y2: int,
    z2: int,
)
    requires
        0 <= x1 < rw,
        0 <= x2 < rw,
        0 <= y1 < rh,
        0 <= y2 < rh,
        0 <= z1,
        0 <= z2,
        grid_index(rw, rh, x1, y1, z1) == grid_index(rw, rh, x2, y2, z2),
    ensures
        x1 == x2,
        y1 == y2,
        z1 == z2,
{
    let i = grid_index(rw, rh, x1, y1, z1);
    assert(i == (y1 + rh * z1) * rw + x1 && i == (y2 + rh * z2) * rw + x2) by (nonlinear_arith)
        requires
            i == x1 + y1 * rw + z1 * (rw * rh) && i == x2 + y2 * rw + z2 * (rw * rh),
    ;
    assert(0 <= y1 + rh * z1 && 0 <= y2 + rh * z2) by (nonlinear_arith)
        requires
            0 <= y1 && 0 <= y2 && 0 <= z1 && 0 <= z2 && 0 < rh,
    ;
    vstd::arithmetic::div_mod::lemma_fundamental_div_mod_converse(i, rw, y1 + rh * z1, x1);
    vstd::arithmetic::div_mod::lemma_fundamental_div_mod_converse(i, rw, y2 + rh * z2, x2);
    let q = i / rw;
    vstd::arithmetic::div_mod::lemma_fundamental_div_mod_converse(q, rh, z1, y1);
    vstd::arithmetic::div_mod::lemma_fundamental_div_mod_converse(q, rh, z2, y2);
}

/// The serialized container after its first `si` super-blocks: each
/// one's index entry and, where the next entry or the container end
/// closes it, the byte segment holding exactly that super-block's
/// compressed payload.
pub open spec fn spec_segments_ok(
    hdr: JackalHeader,
    blocks: Seq<bc1::Block>,
    out: Seq<u8>,
    si: int,
) -> bool {
    forall|sx: int, sy: int, sz: int|
        0 <= sx < spec_sb_w(hdr) && 0 <= sy < spec_sb_h(hdr) && 0 <= sz < spec_sb_d(hdr)
            && #[trigger] grid_index(spec_sb_w(hdr), spec_sb_h(hdr), sx, sy, sz) < si ==> ({
            let s = grid_index(spec_sb_w(hdr), spec_sb_h(hdr), sx, sy, sz);
            let lo = sb_entry(out, s) as int;
            let hi = if s + 1 < si {
                sb_entry(out, s + 1) as int
            } else {
                out.len() as int
            };
            &&& 20 + 8 * spec_sb_count(hdr) <= lo <= hi <= out.len()
            &&& bytes_bits(out.subrange(lo, hi)) == spec_sb_payload_bits(
                hdr,
                seq![sx as u32, sy as u32, sz as u32],
                blocks,
            )
        })
}

/// Append one super-block: record its offset in the index and append
/// its compressed payload, leaving the header, the earlier entries and
/// the index geometry intact.
#[verifier::rlimit(100)]
fn append_super_block(
    out: &mut Vec<u8>,
    si: usize,
    header: &JackalHeader,
    super_pos: [u32; 3],
    blocks: &Vec<bc1::Block>,
    Ghost(sbc_i): Ghost<int>,
)
    requires
        1 <= header.footprint.0 <= 1024,
        1 <= header.footprint.1 <= 1024,
        super_pos@[0] * header.footprint.0 < spec_raw_w(header.extent),
        super_pos@[1] * header.footprint.1 < spec_raw_h(header.extent),
        super_pos@[2] < spec_raw_d(header.extent),
        blocks@.len() == spec_raw_w(header.extent) * spec_raw_h(header.extent) * spec_raw_d(
            header.extent,
        ),
        spec_raw_w(header.extent) * spec_raw_h(header.extent) <= usize::MAX,
        blocks@.len() <= usize::MAX,
        si < sbc_i,
        20 + 8 * sbc_i <= usize::MAX,
        old(out)@.len() >= 20 + 8 * sbc_i,
        si == 0 ==> old(out)@.len() == 20 + 8 * sbc_i,
        si >= 1 ==> sb_entry(old(out)@, 0) == 20 + 8 * sbc_i,
        forall|s: int|
            0 <= s < si ==> 20 + 8 * sbc_i <= #[trigger] sb_entry(old(out)@, s) <= old(out)@.len(),
        forall|s: int|
            0 <= s < si - 1 ==> #[trigger] sb_entry(old(out)@, s) <= sb_entry(old(out)@, s + 1),
        sbc_i == spec_sb_count(*header),
        si as int == grid_index(
            spec_sb_w(*header),
            spec_sb_h(*header),
            super_pos@[0] as int,
            super_pos@[1] as int,
            super_pos@[2] as int,
        ),
        super_pos@[0] < spec_sb_w(*header),
        super_pos@[1] < spec_sb_h(*header),
        super_pos@[2] < spec_sb_d(*header),
        spec_segments_ok(*header, blocks@, old(out)@, si as int),
    ensures
        final(out)@.len() >= 20 + 8 * sbc_i,
        final(out)@.len() <= old(out)@.len() + 0x200_0000,
        final(out)@.subrange(0, 20) == old(out)@.subrange(0, 20),
        sb_entry(final(out)@, 0) == 20 + 8 * sbc_i,
        forall|s: int|
            0 <= s < si + 1 ==> 20 + 8 * sbc_i <= #[trigger] sb_entry(final(out)@, s)
                <= final(out)@.len(),
        forall|s: int|
            0 <= s < si ==> #[trigger] sb_entry(final(out)@, s) <= sb_entry(final(out)@, s + 1),
        spec_segments_ok(*header, blocks@, final(out)@, si + 1),
{
    let off = out.len() as u64;
    let ghost prev = out@;
    write_u64_at(out, 20 + 8 * si, off);
    let ghost mid = out@;
    proof {
        assert forall|s: int| 0 <= s < si implies sb_entry(mid, s) == sb_entry(prev, s) by {
            lemma_sb_entry_frame(mid, prev, s);
        }
        lemma_sb_entry_unfold(mid, si as int);
        assert(sb_entry(mid, si as int) == off);
    }
    let mut payload = compress_bc1_blocks(header, super_pos, blocks);
    let ghost pl = payload@;
    out.append(&mut payload);
    proof {
        assert(out@.subrange(0, 20) =~= prev.subrange(0, 20));
        assert forall|s: int| 0 <= s <= si implies sb_entry(out@, s) == sb_entry(mid, s) by {
            lemma_sb_entry_frame(out@, mid, s);
        }
        assert(sb_entry(out@, si as int) == off);
        assert(off as int == prev.len());
        assert forall|s: int| 0 <= s < si + 1 implies 20 + 8 * sbc_i <= #[trigger] sb_entry(
            out@,
            s,
        ) <= out@.len() by {
            if s < si {
                assert(sb_entry(out@, s) == sb_entry(prev, s));
            }
        }
        assert forall|s: int| 0 <= s < si implies #[trigger] sb_entry(out@, s) <= sb_entry(
            out@,
            s + 1,
        ) by {
            assert(sb_entry(out@, s) == sb_entry(prev, s));
            if s < si - 1 {
                assert(sb_entry(out@, s + 1) == sb_entry(prev, s + 1));
            } else {
                assert(sb_entry(prev, s) <= prev.len());
            }
        }
        let hdr = *header;
        let sbw = spec_sb_w(hdr);
        let sbh2 = spec_sb_h(hdr);
        let sbd2 = spec_sb_d(hdr);
        assert forall|sx: int, sy: int, sz: int|
            0 <= sx < sbw && 0 <= sy < sbh2 && 0 <= sz < sbd2 && #[trigger] grid_index(
                sbw,
                sbh2,
                sx,
                sy,
                sz,
            ) < si + 1 implies ({
            let t = grid_index(sbw, sbh2, sx, sy, sz);
            let lo = sb_entry(out@, t) as int;
            let hi = if t + 1 < si + 1 {
                sb_entry(out@, t + 1) as int
            } else {
                out@.len() as int
            };
            &&& 20 + 8 * spec_sb_count(hdr) <= lo <= hi <= out@.len()
            &&& bytes_bits(out@.subrange(lo, hi)) == spec_sb_payload_bits(
                hdr,
                seq![sx as u32, sy as u32, sz as u32],
                blocks@,
            )
        }) by {
            let t = grid_index(sbw, sbh2, sx, sy, sz);
            lemma_grid_index_bounds(sx, sy, sz, sbw, sbh2, sbd2);
            if t < si {
                let lo = sb_entry(prev, t) as int;
                let hi = if t + 1 < si {
                    sb_entry(prev, t + 1) as int
                } else {
                    prev.len() as int
                };
                assert(sb_entry(out@, t) == sb_entry(prev, t));
                if t + 1 < si {
                    assert(sb_entry(out@, t + 1) == sb_entry(prev, t + 1));
                } else {
                    assert(sb_entry(out@, t + 1) == off);
                }
                assert(out@.subrange(lo, hi) =~= prev.subrange(lo, hi));
            } else {
                lemma_grid_decompose_unique(
                    sbw,
                    sbh2,
                    sx,
                    sy,
                    sz,
                    super_pos@[0] as int,
                    super_pos@[1] as int,
                    super_pos@[2] as int,
                );
                assert(seq![sx as u32, sy as u32, sz as u32] =~= super_pos@);
                assert(out@.subrange(prev.len() as int, out@.len() as int) =~= pl);
                assert(bytes_bits(pl) == spec_sb_payload_bits(hdr, super_pos@, blocks@));
            }
        }
    }
}

/// Serialize a whole BC1 texture: the header, one index entry per
/// super-block, then the super-blocks' payloads in (z, y, x) order.
///
/// The index region starts at byte twenty; the first payload starts
/// right after the index, every entry points into the container at or
/// after that point, entries increase in super-block order, and the
/// bytes from each entry to the next entry or the container end are
/// exactly that super-block's compressed payload.
#[verifier::rlimit(100)]
pub fn compress_bc1_texture(extent: Extent, blocks: &Vec<bc1::Block>) -> (r: Vec<u8>)
    requires
        blocks@.len() == spec_raw_w(extent) * spec_raw_h(extent) * spec_raw_d(extent),
        blocks@.len() <= usize::MAX,
        spec_raw_w(extent) * spec_raw_h(extent) <= usize::MAX,
        spec_raw_w(extent) + 1024 <= u32::MAX,
        spec_raw_h(extent) + 1024 <= u32::MAX,
        spec_sb_w(spec_bc1_header(extent)) * spec_sb_h(spec_bc1_header(extent)) <= usize::MAX,
        spec_sb_count(spec_bc1_header(extent)) <= usize::MAX,
        20 + 8 * spec_sb_count(spec_bc1_header(extent)) <= usize::MAX,
    ensures
        r@.len() >= 20 + 8 * spec_sb_count(spec_bc1_header(extent)),
        r@.subrange(0, 20) == spec_header_bytes(spec_bc1_header(extent)),
        spec_sb_count(spec_bc1_header(extent)) >= 1 ==> sb_entry(r@, 0) == 20 + 8 * spec_sb_count(
            spec_bc1_header(extent),
        ),
        forall|s: int|
            0 <= s < spec_sb_count(spec_bc1_header(extent)) ==> 20 + 8 * spec_sb_count(
                spec_bc1_header(extent),
            ) <= #[trigger] sb_entry(r@, s) <= r@.len(),
        forall|s: int|
            0 <= s < spec_sb_count(spec_bc1_header(extent)) - 1 ==> #[trigger] sb_entry(r@, s)
                <= sb_entry(r@, s + 1),
        spec_segments_ok(
            spec_bc1_header(extent),
            blocks@,
            r@,
            spec_sb_count(spec_bc1_header(extent)),
        ),
        r@.len() <= 20 + 8 * spec_sb_count(spec_bc1_header(extent)) + 0x200_0000 * spec_sb_count(
            spec_bc1_header(extent),
        ),
{
    let ghost hdr = spec_bc1_header(extent);
    let raw = extent.raw_size();
    let footprint = Footprint::from_size(raw[0], raw[1]);

    let header = JackalHeader { levels: MipLevels(1), format: Format::BC1, footprint, extent };
    proof {
        assert(header == hdr);
    }

    let sbe = header.jackal_blocks_extent();
    let sbw = sbe[0];
    let sbh = sbe[1];
    let sbd = sbe[2];
    let sbc = header.jackal_blocks_count();
    let ghost sbc_i = spec_sb_count(hdr);

    let mut out: Vec<u8> = Vec::new();
    header.write_to(&mut out);
    proof {
        assert(out@.subrange(0, 20) =~= spec_header_bytes(hdr));
    }

    let total = 8 * sbc;
    let mut j: usize = 0;
    while j < total
        invariant
            total == 8 * sbc_i,
            out@.len() == 20 + j,
            j <= total,
            out@.subrange(0, 20) == spec_header_bytes(hdr),
        decreases total - j,
    {
        out.push(0);
        j = j + 1;
        proof {
            assert(out@.subrange(0, 20) =~= spec_header_bytes(hdr));
        }
    }

    proof {
        assert forall|sx: int, sy: int, sz: int|
            0 <= sx < spec_sb_w(hdr) && 0 <= sy < spec_sb_h(hdr) && 0 <= sz < spec_sb_d(hdr)
                && #[trigger] grid_index(spec_sb_w(hdr), spec_sb_h(hdr), sx, sy, sz)
                < 0 implies false by {
            lemma_grid_index_bounds(sx, sy, sz, spec_sb_w(hdr), spec_sb_h(hdr), spec_sb_d(hdr));
        }
        assert(spec_segments_ok(hdr, blocks@, out@, 0));
    }
    let mut si: usize = 0;
    let mut z: u32 = 0;
    while z < sbd
        invariant
            sbw == spec_sb_w(hdr),
            sbh == spec_sb_h(hdr),
            sbd == spec_sb_d(hdr),
            sbc == sbc_i,
            sbc_i == spec_sb_count(hdr),
            hdr == spec_bc1_header(extent),
            header == hdr,
            blocks@.len() == spec_raw_w(extent) * spec_raw_h(extent) * spec_raw_d(extent),
            blocks@.len() <= usize::MAX,
            spec_raw_w(extent) * spec_raw_h(extent) <= usize::MAX,
            20 + 8 * sbc_i <= usize::MAX,
            z <= sbd,
            si as int == z * (sbw as int * sbh as int),
            si <= sbc,
            out@.len() >= 20 + 8 * sbc_i,
            si == 0 ==> out@.len() == 20 + 8 * sbc_i,
            out@.subrange(0, 20) == spec_header_bytes(hdr),
            si >= 1 ==> sb_entry(out@, 0) == 20 + 8 * sbc_i,
            forall|s: int|
                0 <= s < si ==> 20 + 8 * sbc_i <= #[trigger] sb_entry(out@, s) <= out@.len(),
            forall|s: int| 0 <= s < si - 1 ==> #[trigger] sb_entry(out@, s) <= sb_entry(out@, s + 1),
            spec_segments_ok(hdr, blocks@, out@, si as int),
            out@.len() <= 20 + 8 * sbc_i + 0x200_0000 * (si as int),
        decreases sbd - z,
    {
        let mut sy: u32 = 0;
        while sy < sbh
            invariant
                sbw == spec_sb_w(hdr),
                sbh == spec_sb_h(hdr),
                sbd == spec_sb_d(hdr),
                sbc == sbc_i,
                sbc_i == spec_sb_count(hdr),
                hdr == spec_bc1_header(extent),
                header == hdr,
                blocks@.len() == spec_raw_w(extent) * spec_raw_h(extent) * spec_raw_d(extent),
                blocks@.len() <= usize::MAX,
                spec_raw_w(extent) * spec_raw_h(extent) <= usize::MAX,
                20 + 8 * sbc_i <= usize::MAX,
                z < sbd,
                sy <= sbh,
                si as int == z * (sbw as int * sbh as int) + sy * (sbw as int),
                si <= sbc,
                out@.len() >= 20 + 8 * sbc_i,
                si == 0 ==> out@.len() == 20 + 8 * sbc_i,
                out@.subrange(0, 20) == spec_header_bytes(hdr),
                si >= 1 ==> sb_entry(out@, 0) == 20 + 8 * sbc_i,
                forall|s: int|
                    0 <= s < si ==> 20 + 8 * sbc_i <= #[trigger] sb_entry(out@, s) <= out@.len(),
                forall|s: int|
                    0 <= s < si - 1 ==> #[trigger] sb_entry(out@, s) <= sb_entry(out@, s + 1),
                spec_segments_ok(hdr, blocks@, out@, si as int),
                out@.len() <= 20 + 8 * sbc_i + 0x200_0000 * (si as int),
            decreases sbh - sy,
        {
            let mut sx: u32 = 0;
            while sx < sbw
                invariant
                    sbw == spec_sb_w(hdr),
                    sbh == spec_sb_h(hdr),
                    sbd == spec_sb_d(hdr),
                    sbc == sbc_i,
                    sbc_i == spec_sb_count(hdr),
                    hdr == spec_bc1_header(extent),
                    header == hdr,
                    blocks@.len() == spec_raw_w(extent) * spec_raw_h(extent) * spec_raw_d(extent),
                    blocks@.len() <= usize::MAX,
                    spec_raw_w(extent) * spec_raw_h(extent) <= usize::MAX,
                    20 + 8 * sbc_i <= usize::MAX,
                    z < sbd,
                    sy < sbh,
                    sx <= sbw,
                    si as int == z * (sbw as int * sbh as int) + sy * (sbw as int) + sx,
                    si <= sbc,
                    out@.len() >= 20 + 8 * sbc_i,
                    si == 0 ==> out@.len() == 20 + 8 * sbc_i,
                    out@.subrange(0, 20) == spec_header_bytes(hdr),
                    si >= 1 ==> sb_entry(out@, 0) == 20 + 8 * sbc_i,
                    forall|s: int|
                        0 <= s < si ==> 20 + 8 * sbc_i <= #[trigger] sb_entry(out@, s)
                            <= out@.len(),
                    forall|s: int|
                        0 <= s < si - 1 ==> #[trigger] sb_entry(out@, s) <= sb_entry(out@, s + 1),
                    spec_segments_ok(hdr, blocks@, out@, si as int),
                    out@.len() <= 20 + 8 * sbc_i + 0x200_0000 * (si as int),
                decreases sbw - sx,
            {
                proof {
                    lemma_grid_index_bounds(
                        sx as int,
                        sy as int,
                        z as int,
                        sbw as int,
                        sbh as int,
                        sbd as int,
                    );
                    lemma_sb_start_in_grid(spec_raw_w(extent) as int, 1024, sx as int);
                    lemma_sb_start_in_grid(spec_raw_h(extent) as int, 1024, sy as int);
                    assert(si as int == grid_index(
                        spec_sb_w(hdr),
                        spec_sb_h(hdr),
                        sx as int,
                        sy as int,
                        z as int,
                    ));
                }
                append_super_block(&mut out, si, &header, [sx, sy, z], blocks, Ghost(sbc_i));
                si = si + 1;
                sx = sx + 1;
            }
            sy = sy + 1;
            proof {
                assert(z * (sbw as int * sbh as int) + (sy - 1) * (sbw as int) + sbw as int == z * (
                sbw as int * sbh as int) + sy * (sbw as int)) by (nonlinear_arith);
            }
        }
        z = z + 1;
        proof {
            assert((z - 1) * (sbw as int * sbh as int) + sbh as int * (sbw as int) == z * (sbw
                as int * sbh as int)) by (nonlinear_arith);
        }
    }
    proof {
        assert(sbd as int * (sbw as int * sbh as int) == spec_sb_count(hdr)) by (nonlinear_arith)
            requires
                spec_sb_count(hdr) == spec_sb_w(hdr) * spec_sb_h(hdr) * spec_sb_d(hdr) && sbw
                    == spec_sb_w(hdr) && sbh == spec_sb_h(hdr) && sbd == spec_sb_d(hdr),
        ;
        assert(si == sbc_i);
    }
    out
}


/// The read path accepts every container the write path emits: the
/// twenty bytes the writer puts first always parse back to the header
/// they were packed from.
pub proof fn lemma_container_header_roundtrip(extent: Extent, bytes: Seq<u8>)
    requires
        bytes.len() >= 20,
        bytes.subrange(0, 20) == spec_header_bytes(spec_bc1_header(extent)),
    ensures
        spec_read_header(bytes) == Ok::<JackalHeader, DecompressError>(spec_bc1_header(extent)),
{
    header::lemma_header_roundtrip(spec_bc1_header(extent), bytes);
}

/// The container-level reading of an entropy-stage failure: short bytes
/// stay an I/O failure, an impossible code is corrupt data.
pub open spec fn spec_decompress_error(e: lzw::DecodeError) -> DecompressError {
    match e {
        lzw::DecodeError::Io => DecompressError::Io,
        lzw::DecodeError::InvalidIndex => DecompressError::Decode(DecodeError::InvalidData),
    }
}

/// Map an entropy-stage failure onto the container's error surface.
fn lz78_decode_to_decompress_error(err: lzw::DecodeError) -> (r: DecompressError)
    ensures
        r == spec_decompress_error(err),
{
    match err {
        lzw::DecodeError::InvalidIndex => DecompressError::Decode(DecodeError::InvalidData),
        lzw::DecodeError::Io => DecompressError::Io,
    }
}

/// Read the container header from the front of the stream.
pub fn read_header(data: &[u8]) -> (r: Result<JackalHeader, DecompressError>)
    ensures
        r == spec_read_header(data@),
{
    JackalHeader::read_from(data)
}

/// Read the super-block index that follows the header.
pub fn read_jackal_blocks(data: &[u8], count: usize) -> (r: Result<
    Vec<JackalBlock>,
    DecompressError,
>)
    requires
        20 + 8 * count <= usize::MAX,
    ensures
        match r {
            Ok(v) => {
                &&& 20 + 8 * count <= data@.len()
                &&& v@.len() == count
                &&& forall|i: int| 0 <= i < count ==> (#[trigger] v@[i]).offset == sb_entry(data@, i)
            },
            Err(e) => {
                &&& e == DecompressError::Io
                &&& data@.len() < 20 + 8 * count
            },
        },
{
    if data.len() < 20 || (data.len() - 20) / 8 < count {
        proof {
            assert(data@.len() < 20 + 8 * count);
        }
        return Err(DecompressError::Io);
    }
    let mut v: Vec<JackalBlock> = Vec::new();
    let mut i: usize = 0;
    while i < count
        invariant
            i <= count,
            20 + 8 * count <= usize::MAX,
            20 + 8 * count <= data@.len(),
            v@.len() == i,
            forall|k: int| 0 <= k < i ==> (#[trigger] v@[k]).offset == sb_entry(data@, k),
        decreases count - i,
    {
        let off = header::read_u64_at(data, 20 + 8 * i);
        v.push(JackalBlock { offset: off });
        proof {
            lemma_sb_entry_unfold(data@, i as int);
        }
        i = i + 1;
    }
    Ok(v)
}

/// Whether block `i` of the grid lies inside the super-block region
/// that starts at `(x0, y0)` in layer `z` and spans `cw` by `ch`
/// blocks.
pub open spec fn in_super_block(
    rw: int,
    rh: int,
    x0: int,
    cw: int,
    y0: int,
    ch: int,
    z: int,
    i: int,
) -> bool {
    exists|bx: int, by: int|
        x0 <= bx < x0 + cw && y0 <= by < y0 + ch && i == #[trigger] grid_index(rw, rh, bx, by, z)
}

/// The grid after a super-block decode: same size, and untouched
/// outside the clipped region.
pub open spec fn frame_outside_region(
    header: JackalHeader,
    sp: Seq<u32>,
    pre: Seq<bc1::Block>,
    post: Seq<bc1::Block>,
) -> bool {
    &&& post.len() == pre.len()
    &&& forall|i: int|
        0 <= i < pre.len() && !in_super_block(
            spec_raw_w(header.extent) as int,
            spec_raw_h(header.extent) as int,
            spec_clip_start(sp[0], header.footprint.0),
            spec_clip_len(spec_raw_w(header.extent), sp[0], header.footprint.0),
            spec_clip_start(sp[1], header.footprint.1),
            spec_clip_len(spec_raw_h(header.extent), sp[1], header.footprint.1),
            sp[2] as int,
            i,
        ) ==> post[i] == pre[i]
}

/// Decode one block's eight bytes from a running decoder session: it
/// advances the abstract decoder by exactly eight symbols, and the block
/// serializes back to those symbols.
fn decode_block(decoder: &mut lzw::Decoder<256>, reader: &mut ReadBits) -> (r: Result<
    bc1::Block,
    DecompressError,
>)
    requires
        old(decoder).wf(),
        old(reader).wf(),
        old(decoder).entries@.len() + 266 < 0x8000_0000,
    ensures
        final(decoder).wf(),
        final(reader).wf(),
        final(reader).data@ == old(reader).data@,
        final(decoder).entries@.len() <= old(decoder).entries@.len() + 8,
        ({
            let (m2, p2, syms, err) = lzw::dec_steps(
                old(decoder)@,
                256,
                old(reader).data@,
                old(reader).pos as int,
                8,
            );
            &&& final(decoder)@ == m2
            &&& final(reader).pos == p2
            &&& match r {
                Ok(b) => err is None && syms.len() == 8 && bc1::spec_block_bytes(b)
                    == syms.map_values(|x: u32| x as u8),
                Err(e) => err matches Some(e0) && e == spec_decompress_error(e0),
            }
        }),
{
    let ghost m0 = old(decoder)@;
    let ghost data = old(reader).data@;
    let ghost pos0 = old(reader).pos as int;
    let mut bytes: Vec<u8> = Vec::new();
    let ghost mut syms: Seq<u32> = Seq::<u32>::empty();
    let mut i: usize = 0;
    while i < 8
        invariant
            m0 == old(decoder)@,
            data == old(reader).data@,
            pos0 == old(reader).pos,
            decoder.wf(),
            reader.wf(),
            reader.data@ == data,
            i <= 8,
            decoder.entries@.len() <= old(decoder).entries@.len() + i,
            old(decoder).entries@.len() + 266 < 0x8000_0000,
            bytes@.len() == i,
            syms.len() == i,
            lzw::dec_steps(m0, 256, data, pos0, i as nat) == (
                decoder@,
                reader.pos as int,
                syms,
                Option::<lzw::DecodeError>::None,
            ),
            forall|j: int| 0 <= j < i ==> bytes@[j] == syms[j] as u8,
        decreases 8 - i,
    {
        let ghost prev = decoder@;
        let ghost prev_pos = reader.pos as int;
        proof {
            lzw::lemma_dec_steps_add(m0, 256, data, pos0, i as nat, 1);
        }
        let sym = match decoder.decode_next(reader) {
            Ok(sym) => sym,
            Err(e) => {
                proof {
                    let step = prev.next_step(256, data, prev_pos);
                    assert(step.2 == Err::<u32, lzw::DecodeError>(e));
                    assert(lzw::dec_steps(prev, 256, data, prev_pos, 1) == (
                        step.0,
                        step.1,
                        Seq::<u32>::empty(),
                        Some(e),
                    ));
                    lzw::lemma_dec_steps_stuck(m0, 256, data, pos0, (i + 1) as nat, 8);
                }
                return Err(lz78_decode_to_decompress_error(e));
            },
        };
        proof {
            assert(decoder.entries@.len() <= prev.entries.len() + 1);
            let step = prev.next_step(256, data, prev_pos);
            assert(step.2 == Ok::<u32, lzw::DecodeError>(sym));
            assert(lzw::dec_steps(step.0, 256, data, step.1, 0) == (
                step.0,
                step.1,
                Seq::<u32>::empty(),
                Option::<lzw::DecodeError>::None,
            ));
            let (m1, p1, s1, e1) = lzw::dec_steps(prev, 256, data, prev_pos, 1);
            assert(s1 =~= seq![sym] + Seq::<u32>::empty());
            assert(syms + s1 =~= syms.push(sym));
            syms = syms.push(sym);
        }
        bytes.push(sym as u8);
        i = i + 1;
    }
    let block = bc1::Block::from_bytes(
        [bytes[0], bytes[1], bytes[2], bytes[3], bytes[4], bytes[5], bytes[6], bytes[7]],
    );
    proof {
        assert(bc1::spec_block_bytes(block) =~= syms.map_values(|x: u32| x as u8));
    }
    Ok(block)
}

/// Two distinct coordinates of the grid name distinct positions in the
/// row-major block array.
proof fn lemma_grid_index_injective(rw: int, rh: int, x1: int, y1: int, x2: int, y2: int, z: int)
    by (nonlinear_arith)
    requires
        0 <= x1 < rw,
        0 <= x2 < rw,
        0 <= y1 < rh,
        0 <= y2 < rh,
        x1 != x2 || y1 != y2,
    ensures
        x1 + y1 * rw + z * (rw * rh) != x2 + y2 * rw + z * (rw * rh),
{
}

/// The fresh decoder state a super-block's payload is decoded from.
pub open spec fn dec_init() -> lzw::DecModel {
    lzw::DecModel {
        scratch: Seq::<u32>::empty(),
        entries: Seq::<(usize, usize)>::empty(),
        output: lzw::Output::Range(0usize, 0usize),
        last: None,
    }
}

/// The abstract decoder run a super-block's payload is judged by: a
/// fresh decoder, started at byte `off` of the container, run for eight
/// symbols per coordinate of the clipped region.
pub open spec fn spec_sb_run(h: JackalHeader, sp: Seq<u32>, data: Seq<u8>, off: u64) -> (
    lzw::DecModel,
    int,
    Seq<u32>,
    Option<lzw::DecodeError>,
) {
    lzw::dec_steps(dec_init(), 256, data, off * 8, (8 * spec_sb_coords(h, sp).len()) as nat)
}

/// Decompress one super-block's payload into its clipped region of the
/// block grid; every block outside the region keeps its value.
///
/// It succeeds exactly when the payload is addressable and the decoder
/// run for the whole clipped region raises no error; then every block
/// of the region, which the traversal covers in full, holds exactly the
/// bytes the run hands out for it, and a failing run's error is
/// surfaced unchanged.
#[verifier::rlimit(100)]
pub fn decompress_bc1_blocks(
    header: &JackalHeader,
    super_pos: [u32; 3],
    jackal_block: JackalBlock,
    blocks: &mut Vec<bc1::Block>,
    data: &[u8],
) -> (r: Result<(), DecompressError>)
    requires
        1 <= header.footprint.0 <= 1024,
        1 <= header.footprint.1 <= 1024,
        super_pos@[0] * header.footprint.0 < spec_raw_w(header.extent),
        super_pos@[1] * header.footprint.1 < spec_raw_h(header.extent),
        super_pos@[2] < spec_raw_d(header.extent),
        old(blocks)@.len() == spec_raw_w(header.extent) * spec_raw_h(header.extent) * spec_raw_d(
            header.extent,
        ),
        spec_raw_w(header.extent) * spec_raw_h(header.extent) <= usize::MAX,
        old(blocks)@.len() <= usize::MAX,
        data@.len() * 8 <= usize::MAX,
    ensures
        frame_outside_region(*header, super_pos@, old(blocks)@, final(blocks)@),
        jackal_block.offset > data@.len() ==> r == Err::<(), DecompressError>(
            DecompressError::Io,
        ),
        r is Ok <==> jackal_block.offset <= data@.len() && spec_sb_run(
            *header,
            super_pos@,
            data@,
            jackal_block.offset,
        ).3 is None,
        jackal_block.offset <= data@.len() && spec_sb_run(
            *header,
            super_pos@,
            data@,
            jackal_block.offset,
        ).3 is Some ==> r == Err::<(), DecompressError>(
            spec_decompress_error(
                spec_sb_run(*header, super_pos@, data@, jackal_block.offset).3->0,
            ),
        ),
        forall|x: u16, y: u16|
            x < spec_sb_cw(*header, super_pos@) && y < spec_sb_ch(*header, super_pos@)
                ==> spec_sb_coords(*header, super_pos@).contains((x, y)),
        r is Ok ==> ({
            let coords = spec_sb_coords(*header, super_pos@);
            let run = spec_sb_run(*header, super_pos@, data@, jackal_block.offset);
            &&& run.2.len() == 8 * coords.len()
            &&& forall|i: int|
                0 <= i < coords.len() ==> bc1::spec_block_bytes(
                    final(blocks)@[grid_index(
                        spec_raw_w(header.extent) as int,
                        spec_raw_h(header.extent) as int,
                        spec_clip_start(super_pos@[0], header.footprint.0) + (
                        #[trigger] coords[i]).0,
                        spec_clip_start(super_pos@[1], header.footprint.1) + coords[i].1,
                        super_pos@[2] as int,
                    )],
                ) == run.2.subrange(8 * i, 8 * i + 8).map_values(|v: u32| v as u8)
        }),
{
    let raw = header.extent.raw_size();
    let fw = header.footprint.0 as u32;
    let fh = header.footprint.1 as u32;

    let x_start = super_pos[0] * fw;
    let x_end = if raw[0] - x_start < fw {
        raw[0]
    } else {
        x_start + fw
    };
    let y_start = super_pos[1] * fh;
    let y_end = if raw[1] - y_start < fh {
        raw[1]
    } else {
        y_start + fh
    };
    let z = super_pos[2];

    let width = (x_end - x_start) as u16;
    let height = (y_end - y_start) as u16;

    let ghost rw = spec_raw_w(header.extent) as int;
    let ghost rh = spec_raw_h(header.extent) as int;
    let ghost x0 = spec_clip_start(super_pos@[0], header.footprint.0);
    let ghost y0 = spec_clip_start(super_pos@[1], header.footprint.1);
    let ghost cw = spec_clip_len(spec_raw_w(header.extent), super_pos@[0], header.footprint.0);
    let ghost ch = spec_clip_len(spec_raw_h(header.extent), super_pos@[1], header.footprint.1);

    proof {
        assert(spec_sb_coords(*header, super_pos@) == zorder_filter(
            width,
            height,
            0x1_0000_0000,
        ));
        assert forall|x: u16, y: u16| x < cw && y < ch implies spec_sb_coords(
            *header,
            super_pos@,
        ).contains((x, y)) by {
            let k = interleave(x, y);
            lemma_interleave_split(x, y);
            assert(in_zrange(width, height, k as int));
            lemma_zorder_filter_contains(width, height, k as int, 0x1_0000_0000);
        }
    }

    if jackal_block.offset > data.len() as u64 {
        return Err(DecompressError::Io);
    }
    let mut reader = ReadBits::new_at(data, jackal_block.offset as usize);
    let mut decoder = lzw::Decoder::<256>::new();
    let mut curve = BoundZCurve::new(width, height);
    let ghost pos0 = jackal_block.offset * 8;
    let ghost mut count: int = 0;
    let ghost mut syms: Seq<u32> = Seq::<u32>::empty();

    proof {
        assert(decoder@ =~= dec_init());
    }

    loop
        invariant
            decoder.wf(),
            reader.wf(),
            reader.data@ == data@,
            curve.width == width,
            curve.height == height,
            width == cw,
            height == ch,
            width <= 1024,
            height <= 1024,
            rw == spec_raw_w(header.extent),
            rh == spec_raw_h(header.extent),
            x0 == spec_clip_start(super_pos@[0], header.footprint.0),
            y0 == spec_clip_start(super_pos@[1], header.footprint.1),
            cw == spec_clip_len(spec_raw_w(header.extent), super_pos@[0], header.footprint.0),
            ch == spec_clip_len(spec_raw_h(header.extent), super_pos@[1], header.footprint.1),
            x0 + width <= rw,
            y0 + height <= rh,
            x_start == x0,
            y_start == y0,
            raw@[0] == spec_raw_w(header.extent),
            raw@[1] == spec_raw_h(header.extent),
            raw@.len() == 3,
            z == super_pos@[2],
            z < spec_raw_d(header.extent),
            pos0 == jackal_block.offset * 8,
            jackal_block.offset <= data@.len(),
            spec_sb_coords(*header, super_pos@) == zorder_filter(width, height, 0x1_0000_0000),
            forall|x: u16, y: u16|
                x < spec_sb_cw(*header, super_pos@) && y < spec_sb_ch(*header, super_pos@)
                    ==> spec_sb_coords(*header, super_pos@).contains((x, y)),
            blocks@.len() == old(blocks)@.len(),
            blocks@.len() == rw * rh * spec_raw_d(header.extent),
            blocks@.len() <= usize::MAX,
            rw * rh <= usize::MAX,
            0 <= count <= curve.next_index,
            count <= 0x100000,
            decoder.entries@.len() <= 8 * count,
            count == zorder_filter(width, height, curve.next_index as int).len(),
            syms.len() == 8 * count,
            lzw::dec_steps(dec_init(), 256, data@, pos0, (8 * count) as nat) == (
                decoder@,
                reader.pos as int,
                syms,
                Option::<lzw::DecodeError>::None,
            ),
            frame_outside_region(*header, super_pos@, old(blocks)@, blocks@),
            ({
                let coords = zorder_filter(width, height, curve.next_index as int);
                forall|i: int|
                    0 <= i < coords.len() ==> bc1::spec_block_bytes(
                        blocks@[grid_index(rw, rh, x0 + (#[trigger] coords[i]).0, y0 + coords[i].1, z as int)],
                    ) == syms.subrange(8 * i, 8 * i + 8).map_values(|v: u32| v as u8)
            }),
        decreases u32::MAX + 1 - curve.next_index,
    {
        let ghost prev_next = curve.next_index as int;
        match curve.next() {
            None => {
                proof {
                    assert forall|k: int| prev_next <= k < 0x1_0000_0000 implies !in_zrange(
                        width,
                        height,
                        k,
                    ) by {
                        assert(!(even_squash(k as u32) < width && odd_squash(k as u32) < height));
                    }
                    lemma_zorder_filter_stable(width, height, prev_next, curve.next_index as int);
                    lemma_zorder_filter_stable(width, height, prev_next, 0x1_0000_0000);
                    assert(zorder_filter(width, height, 0x1_0000_0000) == zorder_filter(
                        width,
                        height,
                        curve.next_index as int,
                    ));
                    assert(spec_sb_run(*header, super_pos@, data@, jackal_block.offset)
                        == lzw::dec_steps(dec_init(), 256, data@, pos0, (8 * count) as nat));
                }
                return Ok(());
            },
            Some(p) => {
                proof {
                    let m = interleave(p.0, p.1) as int;
                    assert forall|k: int| prev_next <= k < m implies !in_zrange(
                        width,
                        height,
                        k,
                    ) by {
                        assert(!(even_squash(k as u32) < width && odd_squash(k as u32) < height));
                    }
                    lemma_zorder_filter_stable(width, height, prev_next, m);
                    lemma_interleave_split(p.0, p.1);
                    assert(in_zrange(width, height, m));
                    assert(zorder_filter(width, height, m + 1) == zorder_filter(
                        width,
                        height,
                        m,
                    ).push(p));
                    let px = p.0;
                    let py = p.1;
                    assert(px < 1024 && py < 1024 ==> interleave(px, py) < 0x100000)
                        by (bit_vector);
                    lzw::lemma_dec_steps_add(dec_init(), 256, data@, pos0, (8 * count) as nat, 8);
                }
                let block = match decode_block(&mut decoder, &mut reader) {
                    Ok(b) => b,
                    Err(e) => {
                        proof {
                            let m = interleave(p.0, p.1) as int;
                            let full = spec_sb_coords(*header, super_pos@);
                            assert(zorder_filter(width, height, m + 1).len() == count + 1);
                            lemma_zorder_filter_len_mono(width, height, m + 1, 0x1_0000_0000);
                            assert(count + 1 <= full.len());
                            let run9 = lzw::dec_steps(
                                dec_init(),
                                256,
                                data@,
                                pos0,
                                (8 * count + 8) as nat,
                            );
                            assert(run9.3 is Some);
                            lzw::lemma_dec_steps_stuck(
                                dec_init(),
                                256,
                                data@,
                                pos0,
                                (8 * count + 8) as nat,
                                (8 * full.len()) as nat,
                            );
                        }
                        return Err(e);
                    },
                };
                proof {
                    lemma_grid_index_bounds(
                        x0 + p.0,
                        y0 + p.1,
                        z as int,
                        rw,
                        rh,
                        spec_raw_d(header.extent) as int,
                    );
                }
                let gx = x_start + p.0 as u32;
                let gy = y_start + p.1 as u32;
                let index = gx as usize + gy as usize * (raw[0] as usize) + (z as usize) * ((
                raw[0] as usize) * (raw[1] as usize));
                let ghost pre_blocks = blocks@;
                blocks[index] = block;
                proof {
                    let m = interleave(p.0, p.1) as int;
                    let coords = zorder_filter(width, height, m);
                    let coords2 = coords.push(p);
                    let (m8, p8, s8, e8) = lzw::dec_steps(
                        lzw::dec_steps(dec_init(), 256, data@, pos0, (8 * count) as nat).0,
                        256,
                        data@,
                        lzw::dec_steps(dec_init(), 256, data@, pos0, (8 * count) as nat).1,
                        8,
                    );
                    let syms2 = syms + s8;
                    lemma_zorder_filter_elems(width, height, m);
                    assert(index as int == grid_index(rw, rh, x0 + p.0, y0 + p.1, z as int));
                    assert(in_super_block(rw, rh, x0, cw, y0, ch, z as int, index as int));
                    assert forall|i: int| 0 <= i < coords2.len() implies bc1::spec_block_bytes(
                        blocks@[grid_index(
                            rw,
                            rh,
                            x0 + (#[trigger] coords2[i]).0,
                            y0 + coords2[i].1,
                            z as int,
                        )],
                    ) == syms2.subrange(8 * i, 8 * i + 8).map_values(|v: u32| v as u8) by {
                        if i < coords.len() {
                            assert(coords2[i] == coords[i]);
                            assert(interleave(coords[i].0, coords[i].1) < m);
                            assert(coords[i] != p) by {
                                if coords[i] == p {
                                    assert(interleave(coords[i].0, coords[i].1) == interleave(
                                        p.0,
                                        p.1,
                                    ));
                                }
                            }
                            lemma_grid_index_injective(
                                rw,
                                rh,
                                x0 + coords[i].0,
                                y0 + coords[i].1,
                                x0 + p.0,
                                y0 + p.1,
                                z as int,
                            );
                            lemma_grid_index_bounds(
                                x0 + coords[i].0,
                                y0 + coords[i].1,
                                z as int,
                                rw,
                                rh,
                                spec_raw_d(header.extent) as int,
                            );
                            assert(blocks@[grid_index(
                                rw,
                                rh,
                                x0 + coords[i].0,
                                y0 + coords[i].1,
                                z as int,
                            )] == pre_blocks[grid_index(
                                rw,
                                rh,
                                x0 + coords[i].0,
                                y0 + coords[i].1,
                                z as int,
                            )]);
                            assert(syms2.subrange(8 * i, 8 * i + 8) =~= syms.subrange(
                                8 * i,
                                8 * i + 8,
                            ));
                        } else {
                            assert(coords2[i] == p);
                            assert(blocks@[index as int] == block);
                            assert(syms2.subrange(8 * i, 8 * i + 8) =~= s8);
                        }
                    }
                    count = count + 1;
                    syms = syms2;
                }
            },
        }
    }
}

/// Whether a parsed extent's block grid fits the address space the
/// reader allocates in.
pub open spec fn spec_grid_addressable(e: Extent) -> bool {
    &&& spec_raw_w(e) <= 0xFFFF_0000
    &&& spec_raw_h(e) <= 0xFFFF_0000
    &&& spec_raw_w(e) * spec_raw_h(e) <= usize::MAX
    &&& spec_raw_w(e) * spec_raw_h(e) * spec_raw_d(e) <= usize::MAX
}

/// Whether a parsed header's super-block index fits the address space.
pub open spec fn spec_index_addressable(h: JackalHeader) -> bool {
    &&& spec_sb_w(h) * spec_sb_h(h) <= usize::MAX
    &&& spec_sb_count(h) <= (usize::MAX - 20) / 8
}

/// Whether super-block `(sx, sy, sz)`'s payload is addressable and its
/// decoder run, at the offset its index entry names, raises no error.
pub open spec fn spec_sb_ok(h: JackalHeader, data: Seq<u8>, sx: int, sy: int, sz: int) -> bool {
    let s = grid_index(spec_sb_w(h), spec_sb_h(h), sx, sy, sz);
    let sp = seq![sx as u32, sy as u32, sz as u32];
    &&& sb_entry(data, s) <= data.len()
    &&& spec_sb_run(h, sp, data, sb_entry(data, s)).3 is None
}

/// Every super-block of the container decodes cleanly.
pub open spec fn spec_texture_runs_ok(h: JackalHeader, data: Seq<u8>) -> bool {
    forall|sx: int, sy: int, sz: int|
        0 <= sx < spec_sb_w(h) && 0 <= sy < spec_sb_h(h) && 0 <= sz < spec_sb_d(h)
            ==> #[trigger] spec_sb_ok(h, data, sx, sy, sz)
}

/// The blocks of super-block `(sx, sy, sz)`'s clipped region hold
/// exactly the bytes its decoder run hands out, coordinate by
/// coordinate in Z-order.
pub open spec fn spec_sb_content(
    h: JackalHeader,
    data: Seq<u8>,
    blocks: Seq<bc1::Block>,
    sx: int,
    sy: int,
    sz: int,
) -> bool {
    let s = grid_index(spec_sb_w(h), spec_sb_h(h), sx, sy, sz);
    let sp = seq![sx as u32, sy as u32, sz as u32];
    let coords = spec_sb_coords(h, sp);
    let run = spec_sb_run(h, sp, data, sb_entry(data, s));
    &&& run.2.len() == 8 * coords.len()
    &&& forall|i: int|
        0 <= i < coords.len() ==> bc1::spec_block_bytes(
            blocks[grid_index(
                spec_raw_w(h.extent) as int,
                spec_raw_h(h.extent) as int,
                spec_clip_start(sp[0], h.footprint.0) + (#[trigger] coords[i]).0,
                spec_clip_start(sp[1], h.footprint.1) + coords[i].1,
                sp[2] as int,
            )],
        ) == run.2.subrange(8 * i, 8 * i + 8).map_values(|v: u32| v as u8)
}

/// Every super-block's region holds its decoded content.
pub open spec fn spec_texture_content(h: JackalHeader, data: Seq<u8>, blocks: Seq<bc1::Block>) -> bool {
    forall|sx: int, sy: int, sz: int|
        0 <= sx < spec_sb_w(h) && 0 <= sy < spec_sb_h(h) && 0 <= sz < spec_sb_d(h)
            ==> #[trigger] spec_sb_content(h, data, blocks, sx, sy, sz)
}

/// Two distinct super-blocks' clipped regions share no block: a block
/// of one lies outside the other.
proof fn lemma_sb_regions_disjoint(h: JackalHeader, sp1: Seq<u32>, sp2: Seq<u32>, i: int)
    requires
        1 <= h.footprint.0,
        1 <= h.footprint.1,
        sp1.len() == 3,
        sp2.len() == 3,
        sp1[0] * h.footprint.0 < spec_raw_w(h.extent),
        sp1[1] * h.footprint.1 < spec_raw_h(h.extent),
        sp2[0] * h.footprint.0 < spec_raw_w(h.extent),
        sp2[1] * h.footprint.1 < spec_raw_h(h.extent),
        !(sp1[0] == sp2[0] && sp1[1] == sp2[1] && sp1[2] == sp2[2]),
        in_super_block(
            spec_raw_w(h.extent) as int,
            spec_raw_h(h.extent) as int,
            spec_clip_start(sp1[0], h.footprint.0),
            spec_sb_cw(h, sp1),
            spec_clip_start(sp1[1], h.footprint.1),
            spec_sb_ch(h, sp1),
            sp1[2] as int,
            i,
        ),
    ensures
        !in_super_block(
            spec_raw_w(h.extent) as int,
            spec_raw_h(h.extent) as int,
            spec_clip_start(sp2[0], h.footprint.0),
            spec_sb_cw(h, sp2),
            spec_clip_start(sp2[1], h.footprint.1),
            spec_sb_ch(h, sp2),
            sp2[2] as int,
            i,
        ),
{
    let rw = spec_raw_w(h.extent) as int;
    let rh = spec_raw_h(h.extent) as int;
    let f0 = h.footprint.0 as int;
    let f1 = h.footprint.1 as int;
    let (bx1, by1) = choose|bx: int, by: int|
        spec_clip_start(sp1[0], h.footprint.0) <= bx < spec_clip_start(sp1[0], h.footprint.0)
            + spec_sb_cw(h, sp1) && spec_clip_start(sp1[1], h.footprint.1) <= by
            < spec_clip_start(sp1[1], h.footprint.1) + spec_sb_ch(h, sp1) && i == #[trigger] grid_index(
            rw,
            rh,
            bx,
            by,
            sp1[2] as int,
        );
    assert(0 <= sp1[0] * f0 && 0 <= sp1[1] * f1 && 0 <= sp2[0] * f0 && 0 <= sp2[1] * f1)
        by (nonlinear_arith)
        requires
            f0 >= 1 && f1 >= 1 && 0 <= sp1[0] && 0 <= sp1[1] && 0 <= sp2[0] && 0 <= sp2[1],
    ;
    if in_super_block(
        rw,
        rh,
        spec_clip_start(sp2[0], h.footprint.0),
        spec_sb_cw(h, sp2),
        spec_clip_start(sp2[1], h.footprint.1),
        spec_sb_ch(h, sp2),
        sp2[2] as int,
        i,
    ) {
        let (bx2, by2) = choose|bx: int, by: int|
            spec_clip_start(sp2[0], h.footprint.0) <= bx < spec_clip_start(sp2[0], h.footprint.0)
                + spec_sb_cw(h, sp2) && spec_clip_start(sp2[1], h.footprint.1) <= by
                < spec_clip_start(sp2[1], h.footprint.1) + spec_sb_ch(h, sp2) && i
                == #[trigger] grid_index(rw, rh, bx, by, sp2[2] as int);
        lemma_grid_decompose_unique(
            rw,
            rh,
            bx1,
            by1,
            sp1[2] as int,
            bx2,
            by2,
            sp2[2] as int,
        );
        vstd::arithmetic::div_mod::lemma_fundamental_div_mod_converse(
            bx1,
            f0,
            sp1[0] as int,
            bx1 - sp1[0] * f0,
        );
        vstd::arithmetic::div_mod::lemma_fundamental_div_mod_converse(
            bx2,
            f0,
            sp2[0] as int,
            bx2 - sp2[0] * f0,
        );
        vstd::arithmetic::div_mod::lemma_fundamental_div_mod_converse(
            by1,
            f1,
            sp1[1] as int,
            by1 - sp1[1] * f1,
        );
        vstd::arithmetic::div_mod::lemma_fundamental_div_mod_converse(
            by2,
            f1,
            sp2[1] as int,
            by2 - sp2[1] * f1,
        );
    }
}

/// Decompress a whole BC1 texture: parse and validate the header, read
/// the super-block index, then fill a black-initialized block grid one
/// super-block at a time.
///
/// It succeeds exactly when the header parses, the grid and index are
/// addressable in memory, the index is present in full, and every
/// super-block's payload decodes cleanly; then every super-block's
/// region holds exactly the bytes its decoder run hands out. A header
/// whose extent or index could not even be addressed is rejected as
/// corrupt rather than attempted.
pub fn decompress_bc1_texture(data: &[u8]) -> (r: Result<
    (Extent, Vec<bc1::Block>),
    DecompressError,
>)
    requires
        data@.len() * 8 <= usize::MAX,
    ensures
        spec_read_header(data@) matches Err(e0) ==> r == Err::<(Extent, Vec<bc1::Block>),
        DecompressError>(e0),
        r is Ok <==> (spec_read_header(data@) matches Ok(h) && spec_grid_addressable(h.extent)
            && spec_index_addressable(h) && 20 + 8 * spec_sb_count(h) <= data@.len()
            && spec_texture_runs_ok(h, data@)),
        r matches Ok((extent, blocks)) ==> {
            &&& spec_read_header(data@) matches Ok(h) && h.extent == extent
                && spec_texture_content(h, data@, blocks@)
            &&& blocks@.len() == spec_raw_w(extent) * spec_raw_h(extent) * spec_raw_d(extent)
        },
{
    let header = match JackalHeader::read_from(data) {
        Ok(h) => h,
        Err(e) => {
            return Err(e);
        },
    };
    let raw = header.extent.raw_size();

    // The grid and the index must be addressable in memory before
    // anything is allocated; a header past these limits is corrupt.
    if raw[0] > 0xFFFF_0000 || raw[1] > 0xFFFF_0000 {
        proof {
            assert(!spec_grid_addressable(header.extent));
        }
        return Err(DecompressError::Decode(DecodeError::InvalidData));
    }
    proof {
        assert((raw@[0] as int) * (raw@[1] as int) <= 0xFFFF_FFFF * 0xFFFF_FFFF)
            by (nonlinear_arith)
            requires
                raw@[0] <= 0xFFFF_FFFF && raw@[1] <= 0xFFFF_FFFF,
        ;
    }
    let p12: u128 = (raw[0] as u128) * (raw[1] as u128);
    proof {
        assert((p12 as int) * (raw@[2] as int) <= 0xFFFF_FFFF_FFFF_FFFF * 0xFFFF_FFFF)
            by (nonlinear_arith)
            requires
                p12 <= 0xFFFF_FFFF_FFFF_FFFF && raw@[2] <= 0xFFFF_FFFF,
        ;
    }
    let p123: u128 = p12 * (raw[2] as u128);
    proof {
        assert(header.footprint == (Footprint(1024, 1024)));
        assert(p12 == spec_raw_w(header.extent) * spec_raw_h(header.extent));
        assert(p123 == spec_raw_w(header.extent) * spec_raw_h(header.extent) * spec_raw_d(
            header.extent,
        ));
    }
    if p12 > usize::MAX as u128 || p123 > usize::MAX as u128 {
        proof {
            assert(!spec_grid_addressable(header.extent));
        }
        return Err(DecompressError::Decode(DecodeError::InvalidData));
    }
    proof {
        assert(header.footprint == (Footprint(1024, 1024)));
        assert(p12 == spec_raw_w(header.extent) * spec_raw_h(header.extent));
        assert(p123 == spec_raw_w(header.extent) * spec_raw_h(header.extent) * spec_raw_d(
            header.extent,
        ));
    }
    let sbe = header.jackal_blocks_extent();
    let sbw = sbe[0];
    let sbh = sbe[1];
    let sbd = sbe[2];
    proof {
        assert((sbe@[0] as int) * (sbe@[1] as int) <= 0xFFFF_FFFF * 0xFFFF_FFFF)
            by (nonlinear_arith)
            requires
                sbe@[0] <= 0xFFFF_FFFF && sbe@[1] <= 0xFFFF_FFFF,
        ;
    }
    let q12: u128 = (sbw as u128) * (sbh as u128);
    proof {
        assert((q12 as int) * (sbe@[2] as int) <= 0xFFFF_FFFF_FFFF_FFFF * 0xFFFF_FFFF)
            by (nonlinear_arith)
            requires
                q12 <= 0xFFFF_FFFF_FFFF_FFFF && sbe@[2] <= 0xFFFF_FFFF,
        ;
    }
    let q123: u128 = q12 * (sbd as u128);
    proof {
        assert(q12 == spec_sb_w(header) * spec_sb_h(header));
        assert(q123 == spec_sb_count(header));
    }
    if q12 > usize::MAX as u128 || q123 > ((usize::MAX - 20) / 8) as u128 {
        proof {
            assert(!spec_index_addressable(header));
        }
        return Err(DecompressError::Decode(DecodeError::InvalidData));
    }
    let sbc = header.jackal_blocks_count();
    let jackal_blocks = match read_jackal_blocks(data, sbc) {
        Ok(v) => v,
        Err(e) => {
            return Err(e);
        },
    };

    let count = header.blocks_count();
    let mut blocks: Vec<bc1::Block> = vec![bc1::Block::black(); count];
    let ghost mut lin: int = 0;

    let mut z: u32 = 0;
    while z < sbd
        invariant
            z <= sbd,
            spec_read_header(data@) == Ok::<JackalHeader, DecompressError>(header),
            sbw == spec_sb_w(header),
            sbh == spec_sb_h(header),
            sbd == spec_sb_d(header),
            sbc == spec_sb_count(header),
            header.footprint == (Footprint(1024, 1024)),
            jackal_blocks@.len() == sbc,
            lin == z * (spec_sb_w(header) * spec_sb_h(header)),
            forall|k: int|
                0 <= k < sbc ==> (#[trigger] jackal_blocks@[k]).offset == sb_entry(data@, k),
            forall|sx: int, sy: int, sz: int|
                0 <= sx < spec_sb_w(header) && 0 <= sy < spec_sb_h(header) && 0 <= sz < spec_sb_d(
                    header,
                ) && grid_index(spec_sb_w(header), spec_sb_h(header), sx, sy, sz) < lin
                    ==> #[trigger] spec_sb_ok(header, data@, sx, sy, sz),
            forall|sx: int, sy: int, sz: int|
                0 <= sx < spec_sb_w(header) && 0 <= sy < spec_sb_h(header) && 0 <= sz < spec_sb_d(
                    header,
                ) && grid_index(spec_sb_w(header), spec_sb_h(header), sx, sy, sz) < lin
                    ==> #[trigger] spec_sb_content(header, data@, blocks@, sx, sy, sz),
            blocks@.len() == spec_raw_w(header.extent) * spec_raw_h(header.extent) * spec_raw_d(
                header.extent,
            ),
            spec_raw_w(header.extent) * spec_raw_h(header.extent) <= usize::MAX,
            blocks@.len() <= usize::MAX,
            data@.len() * 8 <= usize::MAX,
        decreases sbd - z,
    {
        let mut y: u32 = 0;
        while y < sbh
            invariant
                z < sbd,
                y <= sbh,
                spec_read_header(data@) == Ok::<JackalHeader, DecompressError>(header),
                sbw == spec_sb_w(header),
                sbh == spec_sb_h(header),
                sbd == spec_sb_d(header),
                sbc == spec_sb_count(header),
                header.footprint == (Footprint(1024, 1024)),
                jackal_blocks@.len() == sbc,
                lin == z * (spec_sb_w(header) * spec_sb_h(header)) + y * spec_sb_w(header),
                forall|k: int|
                    0 <= k < sbc ==> (#[trigger] jackal_blocks@[k]).offset == sb_entry(data@, k),
                forall|sx: int, sy: int, sz: int|
                    0 <= sx < spec_sb_w(header) && 0 <= sy < spec_sb_h(header) && 0 <= sz
                        < spec_sb_d(header) && grid_index(
                        spec_sb_w(header),
                        spec_sb_h(header),
                        sx,
                        sy,
                        sz,
                    ) < lin ==> #[trigger] spec_sb_ok(header, data@, sx, sy, sz),
                forall|sx: int, sy: int, sz: int|
                    0 <= sx < spec_sb_w(header) && 0 <= sy < spec_sb_h(header) && 0 <= sz
                        < spec_sb_d(header) && grid_index(
                        spec_sb_w(header),
                        spec_sb_h(header),
                        sx,
                        sy,
                        sz,
                    ) < lin ==> #[trigger] spec_sb_content(header, data@, blocks@, sx, sy, sz),
                blocks@.len() == spec_raw_w(header.extent) * spec_raw_h(header.extent)
                    * spec_raw_d(header.extent),
                spec_raw_w(header.extent) * spec_raw_h(header.extent) <= usize::MAX,
                blocks@.len() <= usize::MAX,
                data@.len() * 8 <= usize::MAX,
            decreases sbh - y,
        {
            let mut x: u32 = 0;
            while x < sbw
                invariant
                    z < sbd,
                    y < sbh,
                    x <= sbw,
                    spec_read_header(data@) == Ok::<JackalHeader, DecompressError>(header),
                    sbw == spec_sb_w(header),
                    sbh == spec_sb_h(header),
                    sbd == spec_sb_d(header),
                    sbc == spec_sb_count(header),
                    header.footprint == (Footprint(1024, 1024)),
                    jackal_blocks@.len() == sbc,
                    lin == z * (spec_sb_w(header) * spec_sb_h(header)) + y * spec_sb_w(header) + x,
                    forall|k: int|
                            0 <= k < sbc ==> (#[trigger] jackal_blocks@[k]).offset == sb_entry(data@, k),
                    forall|sx: int, sy: int, sz: int|
                            0 <= sx < spec_sb_w(header) && 0 <= sy < spec_sb_h(header) && 0 <= sz
                                < spec_sb_d(header) && grid_index(
                                spec_sb_w(header),
                                spec_sb_h(header),
                                sx,
                                sy,
                                sz,
                            ) < lin ==> #[trigger] spec_sb_ok(header, data@, sx, sy, sz),
                    forall|sx: int, sy: int, sz: int|
                            0 <= sx < spec_sb_w(header) && 0 <= sy < spec_sb_h(header) && 0 <= sz
                                < spec_sb_d(header) && grid_index(
                                spec_sb_w(header),
                                spec_sb_h(header),
                                sx,
                                sy,
                                sz,
                            ) < lin ==> #[trigger] spec_sb_content(header, data@, blocks@, sx, sy, sz),
                    blocks@.len() == spec_raw_w(header.extent) * spec_raw_h(header.extent)
                        * spec_raw_d(header.extent),
                    spec_raw_w(header.extent) * spec_raw_h(header.extent) <= usize::MAX,
                    blocks@.len() <= usize::MAX,
                    data@.len() * 8 <= usize::MAX,
                decreases sbw - x,
            {
                proof {
                    lemma_grid_index_bounds(
                        x as int,
                        y as int,
                        z as int,
                        sbw as int,
                        sbh as int,
                        sbd as int,
                    );
                    lemma_sb_start_in_grid(spec_raw_w(header.extent) as int, 1024, x as int);
                    lemma_sb_start_in_grid(spec_raw_h(header.extent) as int, 1024, y as int);
                }
                let si = x as usize + (y as usize) * (sbw as usize) + (z as usize) * ((sbw
                    as usize) * (sbh as usize));
                proof {
                    assert(si as int == grid_index(
                        spec_sb_w(header),
                        spec_sb_h(header),
                        x as int,
                        y as int,
                        z as int,
                    ));
                }
                let ghost pre_blocks = blocks@;
                match decompress_bc1_blocks(
                    &header,
                    [x, y, z],
                    jackal_blocks[si],
                    &mut blocks,
                    data,
                ) {
                    Ok(()) => {},
                    Err(e) => {
                        proof {
                            assert([x, y, z]@ =~= seq![x, y, z]);
                            assert(!spec_sb_ok(header, data@, x as int, y as int, z as int));
                            assert(!spec_texture_runs_ok(header, data@));
                        }
                        return Err(e);
                    },
                }
                proof {
                    let spc = seq![x, y, z];
                    assert([x, y, z]@ =~= spc);
                    assert(spec_sb_ok(header, data@, x as int, y as int, z as int));
                    assert(spec_sb_content(header, data@, blocks@, x as int, y as int, z as int));
                    assert forall|sx: int, sy: int, sz: int|
                        0 <= sx < spec_sb_w(header) && 0 <= sy < spec_sb_h(header) && 0 <= sz
                            < spec_sb_d(header) && grid_index(
                            spec_sb_w(header),
                            spec_sb_h(header),
                            sx,
                            sy,
                            sz,
                        ) < lin + 1 implies #[trigger] spec_sb_ok(
                        header,
                        data@,
                        sx,
                        sy,
                        sz,
                    ) by {
                        let t = grid_index(spec_sb_w(header), spec_sb_h(header), sx, sy, sz);
                        if t == lin {
                            lemma_grid_decompose_unique(
                                spec_sb_w(header),
                                spec_sb_h(header),
                                sx,
                                sy,
                                sz,
                                x as int,
                                y as int,
                                z as int,
                            );
                        }
                    }
                    assert forall|sx: int, sy: int, sz: int|
                        0 <= sx < spec_sb_w(header) && 0 <= sy < spec_sb_h(header) && 0 <= sz
                            < spec_sb_d(header) && grid_index(
                            spec_sb_w(header),
                            spec_sb_h(header),
                            sx,
                            sy,
                            sz,
                        ) < lin + 1 implies #[trigger] spec_sb_content(
                        header,
                        data@,
                        blocks@,
                        sx,
                        sy,
                        sz,
                    ) by {
                        let t = grid_index(spec_sb_w(header), spec_sb_h(header), sx, sy, sz);
                        if t == lin {
                            lemma_grid_decompose_unique(
                                spec_sb_w(header),
                                spec_sb_h(header),
                                sx,
                                sy,
                                sz,
                                x as int,
                                y as int,
                                z as int,
                            );
                        }
                        if t < lin {
                            let spt = seq![sx as u32, sy as u32, sz as u32];
                            assert(spec_sb_content(header, data@, pre_blocks, sx, sy, sz));
                            lemma_sb_start_in_grid(
                                spec_raw_w(header.extent) as int,
                                1024,
                                sx,
                            );
                            lemma_sb_start_in_grid(
                                spec_raw_h(header.extent) as int,
                                1024,
                                sy,
                            );
                            assert(!(sx == x as int && sy == y as int && sz == z as int)) by {
                                if sx == x as int && sy == y as int && sz == z as int {
                                    assert(t == lin);
                                }
                            }
                            let coordst = spec_sb_coords(header, spt);
                            let st = grid_index(
                                spec_sb_w(header),
                                spec_sb_h(header),
                                sx,
                                sy,
                                sz,
                            );
                            let runt = spec_sb_run(header, spt, data@, sb_entry(data@, st));
                            assert forall|i: int| 0 <= i < coordst.len() implies bc1::spec_block_bytes(
                                blocks@[grid_index(
                                    spec_raw_w(header.extent) as int,
                                    spec_raw_h(header.extent) as int,
                                    spec_clip_start(spt[0], header.footprint.0) + (
                                    #[trigger] coordst[i]).0,
                                    spec_clip_start(spt[1], header.footprint.1) + coordst[i].1,
                                    spt[2] as int,
                                )],
                            ) == runt.2.subrange(8 * i, 8 * i + 8).map_values(|v: u32| v as u8) by {
                                let cwt = spec_sb_cw(header, spt);
                                let cht = spec_sb_ch(header, spt);
                                assert(1 <= cwt <= 1024 && 1 <= cht <= 1024);
                                lemma_zorder_filter_elems(cwt as u16, cht as u16, 0x1_0000_0000);
                                assert(coordst[i].0 < cwt && coordst[i].1 < cht);
                                assert(spec_clip_start(spt[0], header.footprint.0) + cwt
                                    <= spec_raw_w(header.extent));
                                assert(spec_clip_start(spt[1], header.footprint.1) + cht
                                    <= spec_raw_h(header.extent));
                                assert(spt[2] < spec_raw_d(header.extent));
                                lemma_grid_index_bounds(
                                    spec_clip_start(spt[0], header.footprint.0) + coordst[i].0,
                                    spec_clip_start(spt[1], header.footprint.1) + coordst[i].1,
                                    spt[2] as int,
                                    spec_raw_w(header.extent) as int,
                                    spec_raw_h(header.extent) as int,
                                    spec_raw_d(header.extent) as int,
                                );
                                let bi = grid_index(
                                    spec_raw_w(header.extent) as int,
                                    spec_raw_h(header.extent) as int,
                                    spec_clip_start(spt[0], header.footprint.0) + coordst[i].0,
                                    spec_clip_start(spt[1], header.footprint.1) + coordst[i].1,
                                    spt[2] as int,
                                );
                                assert(in_super_block(
                                    spec_raw_w(header.extent) as int,
                                    spec_raw_h(header.extent) as int,
                                    spec_clip_start(spt[0], header.footprint.0),
                                    cwt,
                                    spec_clip_start(spt[1], header.footprint.1),
                                    cht,
                                    spt[2] as int,
                                    bi,
                                ));
                                lemma_sb_regions_disjoint(header, spt, spc, bi);
                                assert(blocks@[bi] == pre_blocks[bi]);
                            }
                        }
                    }
                    lin = lin + 1;
                }
                x = x + 1;
            }
            y = y + 1;
            proof {
                assert(z * (spec_sb_w(header) * spec_sb_h(header)) + (y - 1) * spec_sb_w(header)
                    + spec_sb_w(header) == z * (spec_sb_w(header) * spec_sb_h(header)) + y
                    * spec_sb_w(header)) by (nonlinear_arith);
            }
        }
        z = z + 1;
        proof {
            assert((z - 1) * (spec_sb_w(header) * spec_sb_h(header)) + spec_sb_h(header)
                * spec_sb_w(header) == z * (spec_sb_w(header) * spec_sb_h(header)))
                by (nonlinear_arith);
        }
    }

    proof {
        assert(lin == spec_sb_d(header) * (spec_sb_w(header) * spec_sb_h(header)));
        assert(lin == spec_sb_count(header)) by (nonlinear_arith)
            requires
                lin == spec_sb_d(header) * (spec_sb_w(header) * spec_sb_h(header)) && spec_sb_count(
                    header,
                ) == spec_sb_w(header) * spec_sb_h(header) * spec_sb_d(header),
        ;
        assert forall|sx: int, sy: int, sz: int|
            0 <= sx < spec_sb_w(header) && 0 <= sy < spec_sb_h(header) && 0 <= sz < spec_sb_d(
                header,
            ) implies #[trigger] spec_sb_ok(header, data@, sx, sy, sz) by {
            lemma_grid_index_bounds(
                sx,
                sy,
                sz,
                spec_sb_w(header),
                spec_sb_h(header),
                spec_sb_d(header),
            );
            assert(grid_index(spec_sb_w(header), spec_sb_h(header), sx, sy, sz) < lin);
        }
        assert forall|sx: int, sy: int, sz: int|
            0 <= sx < spec_sb_w(header) && 0 <= sy < spec_sb_h(header) && 0 <= sz < spec_sb_d(
                header,
            ) implies #[trigger] spec_sb_content(header, data@, blocks@, sx, sy, sz) by {
            lemma_grid_index_bounds(
                sx,
                sy,
                sz,
                spec_sb_w(header),
                spec_sb_h(header),
                spec_sb_d(header),
            );
            assert(grid_index(spec_sb_w(header), spec_sb_h(header), sx, sy, sz) < lin);
        }
        assert(spec_texture_runs_ok(header, data@));
        assert(spec_texture_content(header, data@, blocks@));
    }
    Ok((header.extent(), blocks))
}

} // verus!
