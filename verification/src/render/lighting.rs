//! Coastline detection on an ocean mask.

use vstd::prelude::*;
use crate::grid::{flat, ring_next, ring_prev, lemma_flat_in_grid};

verus! {

/// A land cell is coast when one of its four neighbours, taken with
/// wrap-around at the grid edges, is ocean.
pub open spec fn is_coast(ocean: Seq<bool>, w: int, h: int, x: int, y: int) -> bool {
    &&& !ocean[flat(x, y, w)]
    &&& {
        ||| ocean[flat(x, ring_prev(y, h), w)]
        ||| ocean[flat(x, ring_next(y, h), w)]
        ||| ocean[flat(ring_prev(x, w), y, w)]
        ||| ocean[flat(ring_next(x, w), y, w)]
    }
}

/// Pixels whose 4-neighbourhood includes at least one ocean cell.
///
/// `ocean` is a row-major `w * h` mask; the result has one entry per cell,
/// `true` exactly for land cells next to the ocean.
pub fn coastline_mask(ocean: &[bool], w: usize, h: usize) -> (coast: Vec<bool>)
    requires
        w * h <= usize::MAX,
        ocean@.len() >= w * h,
    ensures
        coast@.len() == w * h,
        forall|x: int, y: int|
            0 <= x < w && 0 <= y < h ==> #[trigger] coast@[flat(x, y, w as int)] == is_coast(
                ocean@,
                w as int,
                h as int,
                x,
                y,
            ),
        forall|x: int, y: int|
            0 <= x < w && 0 <= y < h ==> #[trigger] coast@[flat(x, y, w as int)] == (!ocean@[flat(
                x,
                y,
                w as int,
            )] && (ocean@[flat((x + w - 1) % (w as int), y, w as int)] || ocean@[flat(
                (x + 1) % (w as int),
                y,
                w as int,
            )] || ocean@[flat(x, (y + h - 1) % (h as int), w as int)] || ocean@[flat(
                x,
                (y + 1) % (h as int),
                w as int,
            )])),
{
    let n = w * h;
    let mut coast: Vec<bool> = Vec::new();
    let mut k: usize = 0;
    while k < n
        invariant
            k <= n,
            coast@.len() == k,
            forall|i: int| 0 <= i < k ==> !coast@[i],
        decreases n - k,
    {
        coast.push(false);
        k = k + 1;
    }
    let mut y: usize = 0;
    while y < h
        invariant
            n == w * h,
            ocean@.len() >= n,
            coast@.len() == n,
            y <= h,
            forall|xx: int, yy: int|
                0 <= xx < w && 0 <= yy < y ==> #[trigger] coast@[flat(xx, yy, w as int)] == is_coast(
                    ocean@,
                    w as int,
                    h as int,
                    xx,
                    yy,
                ),
            forall|i: int| y * w <= i < n ==> !coast@[i],
        decreases h - y,
    {
        let ym1 = if y == 0 {
            h - 1
        } else {
            y - 1
        };
        let yp1 = if y + 1 == h {
            0
        } else {
            y + 1
        };
        let mut x: usize = 0;
        while x < w
            invariant
                n == w * h,
                ocean@.len() >= n,
                coast@.len() == n,
                y < h,
                x <= w,
                ym1 == ring_prev(y as int, h as int),
                yp1 == ring_next(y as int, h as int),
                forall|xx: int, yy: int|
                    0 <= xx < w && 0 <= yy < y ==> #[trigger] coast@[flat(xx, yy, w as int)]
                        == is_coast(ocean@, w as int, h as int, xx, yy),
                forall|xx: int|
                    0 <= xx < x ==> #[trigger] coast@[flat(xx, y as int, w as int)] == is_coast(
                        ocean@,
                        w as int,
                        h as int,
                        xx,
                        y as int,
                    ),
                forall|i: int| y * w + x <= i < n ==> !coast@[i],
            decreases w - x,
        {
            let xm1 = if x == 0 {
                w - 1
            } else {
                x - 1
            };
            let xp1 = if x + 1 == w {
                0
            } else {
                x + 1
            };
            proof {
                lemma_flat_in_grid(x as int, y as int, w as int, h as int);
                lemma_flat_in_grid(x as int, ym1 as int, w as int, h as int);
                lemma_flat_in_grid(x as int, yp1 as int, w as int, h as int);
                lemma_flat_in_grid(xm1 as int, y as int, w as int, h as int);
                lemma_flat_in_grid(xp1 as int, y as int, w as int, h as int);
            }
            let idx = y * w + x;
            if !ocean[idx] {
                if ocean[ym1 * w + x] || ocean[yp1 * w + x] || ocean[y * w + xm1] || ocean[y * w
                    + xp1] {
                    coast.set(idx, true);
                }
            }
            proof {
                assert forall|xx: int, yy: int|
                    0 <= xx < w && 0 <= yy < y implies #[trigger] coast@[flat(xx, yy, w as int)]
                    == is_coast(ocean@, w as int, h as int, xx, yy) by {
                    lemma_flat_in_grid(xx, yy, w as int, h as int);
                    assert(flat(xx, yy, w as int) < y * w) by (nonlinear_arith)
                        requires
                            0 <= xx < w,
                            yy < y,
                    ;
                }
            }
            x = x + 1;
        }
        proof {
            assert((y + 1) * w == y * w + w) by (nonlinear_arith);
        }
        y = y + 1;
    }
    proof {
        assert forall|x: int, y: int| 0 <= x < w && 0 <= y < h implies #[trigger] coast@[flat(
            x,
            y,
            w as int,
        )] == (!ocean@[flat(x, y, w as int)] && (ocean@[flat((x + w - 1) % (w as int), y, w as int)]
            || ocean@[flat((x + 1) % (w as int), y, w as int)] || ocean@[flat(
            x,
            (y + h - 1) % (h as int),
            w as int,
        )] || ocean@[flat(x, (y + 1) % (h as int), w as int)])) by {
            lemma_coast_wraps(ocean@, w as int, h as int, x, y);
        }
    }
    coast
}

/// Stepping round a ring of `n` cells is adding modulo `n`.
proof fn lemma_ring_mod(i: int, n: int)
    requires
        0 <= i < n,
    ensures
        ring_prev(i, n) == (i + n - 1) % n,
        ring_next(i, n) == (i + 1) % n,
{
    if i == 0 {
        vstd::arithmetic::div_mod::lemma_small_mod((n - 1) as nat, n as nat);
    } else {
        vstd::arithmetic::div_mod::lemma_mod_add_multiples_vanish(i - 1, n);
        vstd::arithmetic::div_mod::lemma_small_mod((i - 1) as nat, n as nat);
    }
    if i + 1 == n {
        vstd::arithmetic::div_mod::lemma_mod_self_0(n);
    } else {
        vstd::arithmetic::div_mod::lemma_small_mod((i + 1) as nat, n as nat);
    }
}

/// The grid wraps around at every edge: a land cell is coast exactly when
/// the cell to its left, right, below or above, counted modulo the grid
/// size, is ocean.
pub proof fn lemma_coast_wraps(ocean: Seq<bool>, w: int, h: int, x: int, y: int)
    requires
        0 <= x < w,
        0 <= y < h,
    ensures
        is_coast(ocean, w, h, x, y) == (!ocean[flat(x, y, w)] && (ocean[flat((x + w - 1) % w, y, w)]
            || ocean[flat((x + 1) % w, y, w)] || ocean[flat(x, (y + h - 1) % h, w)] || ocean[flat(
            x,
            (y + 1) % h,
            w,
        )])),
{
    lemma_ring_mod(x, w);
    lemma_ring_mod(y, h);
}

/// Coast detection does not depend on where the grid's columns start:
/// turning every row of the ocean mask one column to the left moves the
/// coast with it.
pub proof fn lemma_coast_shift(ocean: Seq<bool>, shifted: Seq<bool>, w: int, h: int, x: int, y: int)
    requires
        0 <= x < w,
        0 <= y < h,
        forall|xx: int, yy: int|
            0 <= xx < w && 0 <= yy < h ==> #[trigger] shifted[flat(xx, yy, w)] == ocean[flat(
                (xx + 1) % w,
                yy,
                w,
            )],
    ensures
        is_coast(shifted, w, h, x, y) == is_coast(ocean, w, h, (x + 1) % w, y),
{
    let x1 = (x + 1) % w;
    lemma_ring_mod(x, w);
    lemma_ring_mod(y, h);
    lemma_ring_mod(x1, w);
    lemma_ring_mod(ring_prev(x, w), w);
    lemma_ring_mod(ring_next(x, w), w);
    assert(0 <= x1 < w);
    assert(ring_prev(x1, w) == x);
    assert(shifted[flat(x, y, w)] == ocean[flat(x1, y, w)]);
    assert(shifted[flat(x, ring_prev(y, h), w)] == ocean[flat(x1, ring_prev(y, h), w)]);
    assert(shifted[flat(x, ring_next(y, h), w)] == ocean[flat(x1, ring_next(y, h), w)]);
    assert(shifted[flat(ring_prev(x, w), y, w)] == ocean[flat(x, y, w)]);
    assert(shifted[flat(ring_next(x, w), y, w)] == ocean[flat(ring_next(x1, w), y, w)]);
}

/// Coast cells are land: no ocean cell is ever marked as coast.
pub proof fn lemma_coast_is_land(ocean: Seq<bool>, coast: Seq<bool>, w: int, h: int, x: int, y: int)
    requires
        0 <= x < w,
        0 <= y < h,
        coast.len() == w * h,
        forall|xx: int, yy: int|
            0 <= xx < w && 0 <= yy < h ==> #[trigger] coast[flat(xx, yy, w)] == is_coast(
                ocean,
                w,
                h,
                xx,
                yy,
            ),
        ocean[flat(x, y, w)],
    ensures
        !coast[flat(x, y, w)],
{
}

} // verus!
