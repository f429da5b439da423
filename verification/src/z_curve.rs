//! Z-order (Morton) traversal of a bounded rectangle: a counter is split
//! into its even-indexed bits (the x coordinate) and odd-indexed bits
//! (the y coordinate), and out-of-bounds sub-quadrants are skipped in one
//! step.

use vstd::prelude::*;

verus! {

/// The even-indexed bits of `v`, squashed together: bit `i` of the result
/// is bit `2 * i` of `v`.
pub open spec fn even_squash(v: u32) -> u16 {
    ((((v >> 0) & 1) << 0) | (((v >> 2) & 1) << 1) | (((v >> 4) & 1) << 2) | (((v >> 6) & 1) << 3) | (((v >> 8) & 1) << 4) | (((v >> 10) & 1) << 5) | (((v >> 12) & 1) << 6) | (((v >> 14) & 1) << 7) | (((v >> 16) & 1) << 8) | (((v >> 18) & 1) << 9) | (((v >> 20) & 1) << 10) | (((v >> 22) & 1) << 11) | (((v >> 24) & 1) << 12) | (((v >> 26) & 1) << 13) | (((v >> 28) & 1) << 14) | (((v >> 30) & 1) << 15)) as u16
}

/// The odd-indexed bits of `v`, squashed together: bit `i` of the result
/// is bit `2 * i + 1` of `v`.
pub open spec fn odd_squash(v: u32) -> u16 {
    ((((v >> 1) & 1) << 0) | (((v >> 3) & 1) << 1) | (((v >> 5) & 1) << 2) | (((v >> 7) & 1) << 3) | (((v >> 9) & 1) << 4) | (((v >> 11) & 1) << 5) | (((v >> 13) & 1) << 6) | (((v >> 15) & 1) << 7) | (((v >> 17) & 1) << 8) | (((v >> 19) & 1) << 9) | (((v >> 21) & 1) << 10) | (((v >> 23) & 1) << 11) | (((v >> 25) & 1) << 12) | (((v >> 27) & 1) << 13) | (((v >> 29) & 1) << 14) | (((v >> 31) & 1) << 15)) as u16
}

/// `x` and `y` interleaved bit by bit: the Morton index of the coordinate.
pub open spec fn interleave(x: u16, y: u16) -> u32 {
    ((((x as u32) >> 0) & 1) << 0) | ((((y as u32) >> 0) & 1) << 1) | ((((x as u32) >> 1) & 1) << 2) | ((((y as u32) >> 1) & 1) << 3) | ((((x as u32) >> 2) & 1) << 4) | ((((y as u32) >> 2) & 1) << 5) | ((((x as u32) >> 3) & 1) << 6) | ((((y as u32) >> 3) & 1) << 7) | ((((x as u32) >> 4) & 1) << 8) | ((((y as u32) >> 4) & 1) << 9) | ((((x as u32) >> 5) & 1) << 10) | ((((y as u32) >> 5) & 1) << 11) | ((((x as u32) >> 6) & 1) << 12) | ((((y as u32) >> 6) & 1) << 13) | ((((x as u32) >> 7) & 1) << 14) | ((((y as u32) >> 7) & 1) << 15) | ((((x as u32) >> 8) & 1) << 16) | ((((y as u32) >> 8) & 1) << 17) | ((((x as u32) >> 9) & 1) << 18) | ((((y as u32) >> 9) & 1) << 19) | ((((x as u32) >> 10) & 1) << 20) | ((((y as u32) >> 10) & 1) << 21) | ((((x as u32) >> 11) & 1) << 22) | ((((y as u32) >> 11) & 1) << 23) | ((((x as u32) >> 12) & 1) << 24) | ((((y as u32) >> 12) & 1) << 25) | ((((x as u32) >> 13) & 1) << 26) | ((((y as u32) >> 13) & 1) << 27) | ((((x as u32) >> 14) & 1) << 28) | ((((y as u32) >> 14) & 1) << 29) | ((((x as u32) >> 15) & 1) << 30) | ((((y as u32) >> 15) & 1) << 31)
}

/// Splitting an interleaved index recovers both coordinates.
pub proof fn lemma_interleave_split(x: u16, y: u16)
    ensures
        even_squash(interleave(x, y)) == x,
        odd_squash(interleave(x, y)) == y,
{
    assert(even_squash(interleave(x, y)) == x && odd_squash(interleave(x, y)) == y)
        by (bit_vector);
}

/// Interleaving the two halves of a split index recovers the index.
pub proof fn lemma_split_interleave(v: u32)
    ensures
        interleave(even_squash(v), odd_squash(v)) == v,
{
    assert(interleave(even_squash(v), odd_squash(v)) == v) by (bit_vector);
}

/// Split `index` into its even-indexed bits (squashed) and its
/// odd-indexed bits (squashed).
pub fn even_odd_split_squash(index: u32) -> (r: (u16, u16))
    ensures
        r.0 == even_squash(index),
        r.1 == odd_squash(index),
{
    let v = index;
    // Mask even and odd bits.
    let mut even_bits: u32 = index & 0x55555555;
    let mut odd_bits: u32 = index & 0xAAAAAAAA;

    // Compact the even bits.
    even_bits = (even_bits | (even_bits >> 1)) & 0x33333333;
    even_bits = (even_bits | (even_bits >> 2)) & 0x0F0F0F0F;
    even_bits = (even_bits | (even_bits >> 4)) & 0x00FF00FF;
    even_bits = (even_bits | (even_bits >> 8)) & 0x0000FFFF;

    // Align the odd bits, then compact them the same way.
    odd_bits = odd_bits >> 1;
    odd_bits = (odd_bits | (odd_bits >> 1)) & 0x33333333;
    odd_bits = (odd_bits | (odd_bits >> 2)) & 0x0F0F0F0F;
    odd_bits = (odd_bits | (odd_bits >> 4)) & 0x00FF00FF;
    odd_bits = (odd_bits | (odd_bits >> 8)) & 0x0000FFFF;

    proof {
        let e = even_bits;
        let o = odd_bits;
        assert(compact_even(v) == even_squash(v) && compact_even(v) < 0x10000) by (bit_vector);
        assert(compact_odd(v) == odd_squash(v) && compact_odd(v) < 0x10000) by (bit_vector);
        assert(e == compact_even(v) && o == compact_odd(v));
    }

    (even_bits as u16, odd_bits as u16)
}

/// The even-bit compaction, written as the shift-or cascade the exec code
/// performs.
pub open spec fn compact_steps(v: u32) -> u32 {
    compact8(compact4(compact2(compact1(v))))
}

pub open spec fn compact1(v: u32) -> u32 {
    (v | (v >> 1)) & 0x33333333
}

pub open spec fn compact2(v: u32) -> u32 {
    (v | (v >> 2)) & 0x0F0F0F0F
}

pub open spec fn compact4(v: u32) -> u32 {
    (v | (v >> 4)) & 0x00FF00FF
}

pub open spec fn compact8(v: u32) -> u32 {
    (v | (v >> 8)) & 0x0000FFFF
}

pub open spec fn compact_even(v: u32) -> u32 {
    compact_steps(v & 0x55555555)
}

pub open spec fn compact_odd(v: u32) -> u32 {
    compact_steps((v & 0xAAAAAAAA) >> 1)
}


/// While the x half of the counter is at or beyond `w`, every counter in
/// the skipped run stays at or beyond `w`: the run only rewinds bits of x
/// below its lowest set bit, and flips the y bit just above them.
proof fn lemma_skip_x(k: u32, w: u16, tz: u32)
    by (bit_vector)
    requires
        even_squash(k) >= w,
        tz < 16,
        (even_squash(k) >> (tz as u16)) & 1 == 1,
        even_squash(k) & (((1u16 << (tz as u16)) - 1) as u16) == 0,
    ensures
        forall|j: u32|
            k <= j && j - k < (1u32 << ((2 * tz + 1) as u32)) - (k & (((1u32 << ((2 * tz + 1)
                as u32)) - 1) as u32)) ==> #[trigger] even_squash(j) >= w,
{
}

/// The matching fact for the y half: the skipped run stays at or beyond
/// `h` until the y bits reset.
proof fn lemma_skip_y(k: u32, h: u16, tz: u32)
    by (bit_vector)
    requires
        odd_squash(k) >= h,
        tz < 16,
        (odd_squash(k) >> (tz as u16)) & 1 == 1,
        odd_squash(k) & (((1u16 << (tz as u16)) - 1) as u16) == 0,
    ensures
        forall|j: u32|
            k <= j && (j as u64) - (k as u64) < (1u64 << ((2 * tz + 2) as u64)) - ((k as u64) & (((
            1u64 << ((2 * tz + 2) as u64)) - 1) as u64)) ==> #[trigger] odd_squash(j) >= h,
{
}

/// Once both halves of the counter are at or beyond their bounds, every
/// later counter is outside the rectangle: the Morton index of any
/// in-rectangle coordinate is smaller.
proof fn lemma_z_exhausted(k: u32, w: u16, h: u16)
    by (bit_vector)
    requires
        even_squash(k) >= w,
        odd_squash(k) >= h,
    ensures
        forall|j: u32| #[trigger] even_squash(j) < w && odd_squash(j) < h ==> j < k,
{
}

/// A finite iterator over the coordinates of a `width` by `height`
/// rectangle in Z-order: coordinates come out in strictly increasing
/// Morton-index order, and none outside the rectangle is emitted.
pub struct BoundZCurve {
    pub width: u16,
    pub height: u16,
    pub next_index: u32,
}

impl BoundZCurve {
    pub fn new(width: u16, height: u16) -> (r: Self)
        ensures
            r.width == width,
            r.height == height,
            r.next_index == 0,
    {
        BoundZCurve { width, height, next_index: 0 }
    }

    /// The next coordinate of the rectangle in Z-order, if any is left.
    ///
    /// An emitted coordinate lies inside the rectangle, its Morton index
    /// is the least one at or after the iterator's counter, and the
    /// counter moves past it. When nothing comes back, no coordinate of
    /// the rectangle with a Morton index at or after the counter
    /// remains.
    pub fn next(&mut self) -> (r: Option<(u16, u16)>)
        ensures
            final(self).width == old(self).width,
            final(self).height == old(self).height,
            final(self).next_index >= old(self).next_index,
            match r {
                Some(p) => {
                    &&& p.0 < old(self).width
                    &&& p.1 < old(self).height
                    &&& interleave(p.0, p.1) >= old(self).next_index
                    &&& final(self).next_index == interleave(p.0, p.1) + 1
                    &&& forall|k: u32|
                        old(self).next_index <= k < interleave(p.0, p.1) ==> !(#[trigger] even_squash(
                            k,
                        ) < old(self).width && odd_squash(k) < old(self).height)
                },
                None => forall|k: u32|
                    old(self).next_index <= k ==> !(#[trigger] even_squash(k) < old(self).width
                        && odd_squash(k) < old(self).height),
            },
    {
        loop
            invariant
                self.width == old(self).width,
                self.height == old(self).height,
                self.next_index >= old(self).next_index,
                forall|k: u32|
                    old(self).next_index <= k < self.next_index ==> !(#[trigger] even_squash(k)
                        < old(self).width && odd_squash(k) < old(self).height),
            decreases u32::MAX - self.next_index,
        {
            let index = self.next_index;
            let (x, y) = even_odd_split_squash(index);

            let x_out = x >= self.width;
            let y_out = y >= self.height;

            if x_out && y_out {
                proof {
                    lemma_z_exhausted(index, self.width, self.height);
                }
                return None;
            }
            if x_out {
                if self.width == 0 {
                    return None;
                }
                let tz = x.trailing_zeros();
                proof {
                    vstd::std_specs::bits::axiom_u16_trailing_zeros(x);
                    let t = tz as u16;
                    assert(x != 0 ==> tz < 16);
                    assert(t < 16 && (x << ((16 - t) as u16)) == 0 ==> x & (((1u16 << t) - 1)
                        as u16) == 0) by (bit_vector);
                }
                let sh: u32 = 2 * tz + 1;
                let msb: u32 = 1u32 << sh;
                proof {
                    assert(msb >= 1) by (bit_vector)
                        requires
                            msb == 1u32 << sh && sh < 32,
                    ;
                }
                let mask: u32 = msb - 1;
                proof {
                    assert(index & mask <= mask) by (bit_vector)
                        requires
                            mask == msb - 1 && msb >= 1,
                    ;
                    lemma_skip_x(index, self.width, tz);
                }
                let until_next: u32 = msb - (index & mask);
                let next64: u64 = index as u64 + until_next as u64;
                if next64 > u32::MAX as u64 {
                    proof {
                        assert forall|k: u32| index <= k implies !(#[trigger] even_squash(k)
                            < self.width && odd_squash(k) < self.height) by {
                            assert(k - index < until_next);
                        }
                    }
                    return None;
                }
                self.next_index = next64 as u32;
                continue ;
            }
            if y_out {
                if self.height == 0 {
                    return None;
                }
                let tz = y.trailing_zeros();
                proof {
                    vstd::std_specs::bits::axiom_u16_trailing_zeros(y);
                    let t = tz as u16;
                    assert(y != 0 ==> tz < 16);
                    assert(t < 16 && (y << ((16 - t) as u16)) == 0 ==> y & (((1u16 << t) - 1)
                        as u16) == 0) by (bit_vector);
                }
                let sh64: u64 = 2 * (tz as u64) + 2;
                let msb64: u64 = 1u64 << sh64;
                proof {
                    assert(msb64 >= 1 && msb64 <= 0x1_0000_0000 && msb64 == 1u64 << ((2 * tz + 2)
                        as u64)) by (bit_vector)
                        requires
                            msb64 == 1u64 << sh64 && sh64 == 2 * (tz as u64) + 2 && tz < 16,
                    ;
                }
                let mask64: u64 = msb64 - 1;
                proof {
                    assert((index as u64) & mask64 <= mask64) by (bit_vector)
                        requires
                            mask64 == msb64 - 1 && msb64 >= 1,
                    ;
                    lemma_skip_y(index, self.height, tz);
                }
                let until64: u64 = msb64 - ((index as u64) & mask64);
                let next64: u64 = index as u64 + until64;
                if next64 > u32::MAX as u64 {
                    proof {
                        assert forall|k: u32| index <= k implies !(#[trigger] even_squash(k)
                            < self.width && odd_squash(k) < self.height) by {
                            assert((k as u64) - (index as u64) < until64);
                        }
                    }
                    return None;
                }
                self.next_index = next64 as u32;
                continue ;
            }
            proof {
                lemma_split_interleave(index);
                assert(even_squash(0xFFFFFFFFu32) == 0xFFFF) by (bit_vector);
            }
            self.next_index = index + 1;
            return Some((x, y));
        }
    }

    /// The coordinates of the rectangle in Z-order: exactly the
    /// in-rectangle coordinates of the whole Morton range, in Morton
    /// order, so every coordinate of the rectangle appears exactly once.
    pub fn points(width: u16, height: u16) -> (r: Vec<(u16, u16)>)
        ensures
            r@ == zorder_filter(width, height, 0x1_0000_0000),
            r@.len() == width * height,
            forall|i: int| 0 <= i < r@.len() ==> (#[trigger] r@[i]).0 < width && r@[i].1 < height,
            forall|i: int, j: int| 0 <= i < j < r@.len() ==> r@[i] != r@[j],
            forall|x: u16, y: u16| x < width && y < height ==> r@.contains((x, y)),
    {
        let mut curve = BoundZCurve::new(width, height);
        let mut r: Vec<(u16, u16)> = Vec::new();
        loop
            invariant
                curve.width == width,
                curve.height == height,
                r@ == zorder_filter(width, height, curve.next_index as int),
                forall|i: int| 0 <= i < r@.len() ==> (#[trigger] r@[i]).0 < width && r@[i].1 < height,
                forall|i: int|
                    0 <= i < r@.len() ==> #[trigger] interleave(r@[i].0, r@[i].1)
                        < curve.next_index,
                forall|i: int, j: int| 0 <= i < j < r@.len() ==> r@[i] != r@[j],
                forall|k: u32|
                    k < curve.next_index && #[trigger] even_squash(k) < width && odd_squash(k)
                        < height ==> r@.contains((even_squash(k), odd_squash(k))),
            decreases u32::MAX + 1 - curve.next_index,
        {
            let ghost prev = r@;
            let ghost prev_next = curve.next_index as int;
            match curve.next() {
                None => {
                    proof {
                        assert forall|k: int| prev_next <= k < 0x1_0000_0000 implies !in_zrange(
                            width,
                            height,
                            k,
                        ) by {
                            assert(!(even_squash(k as u32) < width && odd_squash(k as u32)
                                < height));
                        }
                        lemma_zorder_filter_stable(width, height, prev_next, 0x1_0000_0000);
                        lemma_zorder_filter_count(width, height);
                        assert forall|x: u16, y: u16| x < width && y < height implies r@.contains(
                            (x, y),
                        ) by {
                            let k = interleave(x, y);
                            lemma_interleave_split(x, y);
                            assert(even_squash(k) < width && odd_squash(k) < height);
                            assert(k < curve.next_index);
                        }
                    }
                    return r;
                },
                Some(p) => {
                    proof {
                        let m = interleave(p.0, p.1) as int;
                        assert forall|k: int| prev_next <= k < m implies !in_zrange(
                            width,
                            height,
                            k,
                        ) by {
                            assert(!(even_squash(k as u32) < width && odd_squash(k as u32)
                                < height));
                        }
                        lemma_zorder_filter_stable(width, height, prev_next, m);
                        lemma_interleave_split(p.0, p.1);
                        assert(in_zrange(width, height, m));
                        assert(zorder_filter(width, height, m + 1) == zorder_filter(
                            width,
                            height,
                            m,
                        ).push(p));
                        assert forall|i: int, j: int| 0 <= i < j < r@.len() + 1 implies r@.push(
                            p,
                        )[i] != r@.push(p)[j] by {
                            if j == r@.len() {
                                assert(interleave(r@[i].0, r@[i].1) < interleave(p.0, p.1));
                            }
                        }
                    }
                    r.push(p);
                    proof {
                        lemma_interleave_split(p.0, p.1);
                        assert(r@[r@.len() - 1] == p);
                        assert forall|k: u32|
                            k < curve.next_index && #[trigger] even_squash(k) < width
                                && odd_squash(k) < height implies r@.contains(
                            (even_squash(k), odd_squash(k)),
                        ) by {
                            if k < interleave(p.0, p.1) {
                                assert(prev.contains((even_squash(k), odd_squash(k))));
                                let i = choose|i: int|
                                    0 <= i < prev.len() && prev[i] == (
                                    even_squash(k),
                                    odd_squash(k),
                                    );
                                assert(r@[i] == (even_squash(k), odd_squash(k)));
                            } else {
                                assert(k == interleave(p.0, p.1));
                                assert((even_squash(k), odd_squash(k)) == p);
                            }
                        }
                    }
                },
            }
        }
    }
}



/// The rectangle's coordinate set, with a partial extra row on top:
/// the `w` by `h` block plus the first `j` coordinates of row `h`.
pub open spec fn rect_rows(w: int, h: int, j: int) -> Set<(u16, u16)> {
    Set::new(
        |p: (u16, u16)|
            ((p.0 as int) < w && (p.1 as int) < h) || ((p.0 as int) < j && (p.1 as int) == h),
    )
}

/// The rectangle-with-partial-row holds exactly `w * h + j` coordinates.
proof fn lemma_rect_rows_card(w: int, h: int, j: int)
    requires
        0 <= w <= 0x10000,
        0 <= h <= 0x10000,
        0 <= j <= w,
        j > 0 ==> h < 0x10000,
    ensures
        rect_rows(w, h, j).finite(),
        rect_rows(w, h, j).len() == w * h + j,
    decreases h, j,
{
    broadcast use vstd::set::group_set_axioms;

    if j > 0 {
        lemma_rect_rows_card(w, h, j - 1);
        let p = (((j - 1) as u16), (h as u16));
        assert(rect_rows(w, h, j) =~= rect_rows(w, h, j - 1).insert(p)) by {
            assert forall|q: (u16, u16)| rect_rows(w, h, j).contains(q) implies rect_rows(
                w,
                h,
                j - 1,
            ).insert(p).contains(q) by {
                if !(((q.0 as int) < w && (q.1 as int) < h) || ((q.0 as int) < j - 1 && (
                q.1 as int) == h)) {
                    assert((q.0 as int) == j - 1 && (q.1 as int) == h);
                    assert(q == p);
                }
            }
            assert((p.0 as int) == j - 1 && (p.1 as int) == h);
            assert forall|q: (u16, u16)| rect_rows(w, h, j - 1).insert(p).contains(q)
                implies rect_rows(w, h, j).contains(q) by {
                if q == p {
                    assert((q.0 as int) < j && (q.1 as int) == h);
                }
            }
        }
        assert(!rect_rows(w, h, j - 1).contains(p));
        assert(rect_rows(w, h, j - 1).insert(p).len() == rect_rows(w, h, j - 1).len() + 1);
    } else if h > 0 {
        lemma_rect_rows_card(w, h - 1, w);
        assert(rect_rows(w, h, 0) =~= rect_rows(w, h - 1, w));
        assert(w * (h - 1) + w == w * h) by (nonlinear_arith);
    } else {
        assert(rect_rows(w, 0, 0) =~= Set::<(u16, u16)>::empty());
        assert(w * h + j == 0) by (nonlinear_arith)
            requires
                h == 0 && j == 0,
        ;
    }
}

/// The traversal prefix comes out in strictly increasing Morton order.
proof fn lemma_zorder_filter_increasing(w: u16, h: u16, k_end: int)
    requires
        k_end <= 0x1_0000_0000,
    ensures
        forall|i: int, j: int|
            0 <= i < j < zorder_filter(w, h, k_end).len() ==> interleave(
                (#[trigger] zorder_filter(w, h, k_end)[i]).0,
                zorder_filter(w, h, k_end)[i].1,
            ) < interleave(
                (#[trigger] zorder_filter(w, h, k_end)[j]).0,
                zorder_filter(w, h, k_end)[j].1,
            ),
    decreases k_end,
{
    if k_end > 0 {
        lemma_zorder_filter_increasing(w, h, k_end - 1);
        lemma_zorder_filter_elems(w, h, k_end - 1);
        let f = zorder_filter(w, h, k_end);
        let fp = zorder_filter(w, h, k_end - 1);
        if in_zrange(w, h, k_end - 1) {
            lemma_split_interleave((k_end - 1) as u32);
        }
        assert forall|i: int, j: int| 0 <= i < j < f.len() implies interleave(
            (#[trigger] f[i]).0,
            f[i].1,
        ) < interleave((#[trigger] f[j]).0, f[j].1) by {
            if j < fp.len() {
                assert(f[i] == fp[i] && f[j] == fp[j]);
            } else {
                assert(f[i] == fp[i]);
                assert(interleave(f[i].0, f[i].1) < k_end - 1);
                assert(interleave(f[j].0, f[j].1) == k_end - 1);
            }
        }
    }
}

/// The whole traversal holds exactly one entry per rectangle
/// coordinate: `w * h` of them.
pub proof fn lemma_zorder_filter_count(w: u16, h: u16)
    ensures
        zorder_filter(w, h, 0x1_0000_0000).len() == w * h,
{
    broadcast use vstd::set::group_set_axioms;

    let f = zorder_filter(w, h, 0x1_0000_0000);
    lemma_zorder_filter_elems(w, h, 0x1_0000_0000);
    lemma_zorder_filter_increasing(w, h, 0x1_0000_0000);
    assert(f.no_duplicates()) by {
        assert forall|i: int, j: int|
            0 <= i < f.len() && 0 <= j < f.len() && i != j implies f[i] != f[j] by {
            if i < j {
                assert(interleave(f[i].0, f[i].1) < interleave(f[j].0, f[j].1));
            } else {
                assert(interleave(f[j].0, f[j].1) < interleave(f[i].0, f[i].1));
            }
        }
    }
    f.unique_seq_to_set();
    assert forall|x: u16, y: u16| x < w && y < h implies f.contains((x, y)) by {
        let k = interleave(x, y);
        lemma_interleave_split(x, y);
        assert(in_zrange(w, h, k as int));
        lemma_zorder_filter_contains(w, h, k as int, 0x1_0000_0000);
    }
    assert(f.to_set() =~= rect_rows(w as int, h as int, 0)) by {
        assert forall|p: (u16, u16)| f.to_set().contains(p) implies rect_rows(
            w as int,
            h as int,
            0,
        ).contains(p) by {
            let i = choose|i: int| 0 <= i < f.len() && f[i] == p;
            assert(f[i].0 < w && f[i].1 < h);
        }
        assert forall|p: (u16, u16)| rect_rows(w as int, h as int, 0).contains(p) implies f.to_set(
        ).contains(p) by {
            assert(f.contains((p.0, p.1)));
        }
    }
    lemma_rect_rows_card(w as int, h as int, 0);
}

/// Whether Morton index `k` demuxes to a coordinate inside the `w` by
/// `h` rectangle.
pub open spec fn in_zrange(w: u16, h: u16, k: int) -> bool {
    even_squash(k as u32) < w && odd_squash(k as u32) < h
}

/// The in-rectangle coordinates among Morton indices `0 .. k_end`, in
/// index order: the prefix of the Z-order traversal the counter has
/// passed.
pub open spec fn zorder_filter(w: u16, h: u16, k_end: int) -> Seq<(u16, u16)>
    decreases k_end,
{
    if k_end <= 0 {
        Seq::<(u16, u16)>::empty()
    } else if in_zrange(w, h, k_end - 1) {
        zorder_filter(w, h, k_end - 1).push(
            (even_squash((k_end - 1) as u32), odd_squash((k_end - 1) as u32)),
        )
    } else {
        zorder_filter(w, h, k_end - 1)
    }
}


/// A longer traversal prefix extends a shorter one.
pub proof fn lemma_zorder_filter_len_mono(w: u16, h: u16, k1: int, k2: int)
    requires
        0 <= k1 <= k2,
    ensures
        zorder_filter(w, h, k1).len() <= zorder_filter(w, h, k2).len(),
    decreases k2 - k1,
{
    if k2 > k1 {
        lemma_zorder_filter_len_mono(w, h, k1, k2 - 1);
    }
}

/// A stretch of Morton indices that all fall outside the rectangle adds
/// nothing to the traversal prefix.
pub proof fn lemma_zorder_filter_stable(w: u16, h: u16, k1: int, k2: int)
    requires
        0 <= k1 <= k2,
        forall|k: int| k1 <= k < k2 ==> !#[trigger] in_zrange(w, h, k),
    ensures
        zorder_filter(w, h, k2) == zorder_filter(w, h, k1),
    decreases k2 - k1,
{
    if k2 > k1 {
        assert(!in_zrange(w, h, k2 - 1));
        lemma_zorder_filter_stable(w, h, k1, k2 - 1);
    }
}


/// Every entry of the traversal prefix lies inside the rectangle, and
/// its Morton index is below the cut.
pub proof fn lemma_zorder_filter_elems(w: u16, h: u16, k_end: int)
    ensures
        forall|i: int|
            0 <= i < zorder_filter(w, h, k_end).len() ==> (#[trigger] zorder_filter(
                w,
                h,
                k_end,
            )[i]).0 < w && zorder_filter(w, h, k_end)[i].1 < h && interleave(
                zorder_filter(w, h, k_end)[i].0,
                zorder_filter(w, h, k_end)[i].1,
            ) < k_end,
    decreases k_end,
{
    if k_end > 0 {
        lemma_zorder_filter_elems(w, h, k_end - 1);
        if k_end <= 0x1_0000_0000 && in_zrange(w, h, k_end - 1) {
            lemma_split_interleave((k_end - 1) as u32);
        }
        let f = zorder_filter(w, h, k_end);
        let fp = zorder_filter(w, h, k_end - 1);
        assert forall|i: int| 0 <= i < f.len() implies (#[trigger] f[i]).0 < w && f[i].1 < h
            && interleave(f[i].0, f[i].1) < k_end by {
            if i < fp.len() {
                assert(f[i] == fp[i]);
                assert((fp[i]).0 < w && fp[i].1 < h && interleave(fp[i].0, fp[i].1) < k_end - 1);
            } else {
                assert(in_zrange(w, h, k_end - 1));
                assert(f[i] == (even_squash((k_end - 1) as u32), odd_squash((k_end - 1) as u32)));
            }
        }
    }
}

/// Every in-rectangle Morton index below the cut is represented in the
/// traversal prefix.
pub proof fn lemma_zorder_filter_contains(w: u16, h: u16, k: int, k_end: int)
    requires
        0 <= k < k_end,
        in_zrange(w, h, k),
    ensures
        zorder_filter(w, h, k_end).contains((even_squash(k as u32), odd_squash(k as u32))),
    decreases k_end,
{
    let p = (even_squash(k as u32), odd_squash(k as u32));
    if k == k_end - 1 {
        let f = zorder_filter(w, h, k_end);
        assert(f[f.len() - 1] == p);
    } else {
        lemma_zorder_filter_contains(w, h, k, k_end - 1);
        let fp = zorder_filter(w, h, k_end - 1);
        let i = choose|i: int| 0 <= i < fp.len() && fp[i] == p;
        if in_zrange(w, h, k_end - 1) {
            assert(zorder_filter(w, h, k_end)[i] == p);
        } else {
            assert(zorder_filter(w, h, k_end)[i] == p);
        }
    }
}

} // verus!
