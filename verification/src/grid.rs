//! Row-major grid arithmetic shared by the other modules.

use vstd::prelude::*;

verus! {

/// Flat index of column `x` in row `y` of a row-major grid `w` cells wide.
pub open spec fn flat(x: int, y: int, w: int) -> int {
    y * w + x
}

/// The cell before `i` on a ring of `n` cells.
pub open spec fn ring_prev(i: int, n: int) -> int {
    if i == 0 {
        n - 1
    } else {
        i - 1
    }
}

/// The cell after `i` on a ring of `n` cells.
pub open spec fn ring_next(i: int, n: int) -> int {
    if i + 1 == n {
        0
    } else {
        i + 1
    }
}

/// A cell inside a `w` by `h` grid has a flat index inside the grid.
pub proof fn lemma_flat_in_grid(x: int, y: int, w: int, h: int)
    requires
        0 <= x < w,
        0 <= y < h,
    ensures
        0 <= flat(x, y, w) < w * h,
        flat(x, y, w) + 1 <= w * h,
{
    assert(0 <= y * w) by (nonlinear_arith)
        requires
            0 <= y,
            0 <= w,
    ;
    assert(y * w + x < w * h) by (nonlinear_arith)
        requires
            0 <= x < w,
            0 <= y < h,
    ;
}

} // verus!
