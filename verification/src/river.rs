//! Grid topology of the river extraction: the eight neighbours of a cell,
//! the D-infinity facets between them, and stepping to a neighbour without
//! leaving the grid (map edges are the only outlet).

use vstd::prelude::*;
use crate::grid::{flat, lemma_flat_in_grid};

verus! {

/// Row and column offset of neighbour `k` of the eight, listed row by row
/// from the lower-left.
pub open spec fn offset8(k: int) -> (int, int) {
    if k == 0 {
        (-1, -1)
    } else if k == 1 {
        (-1, 0)
    } else if k == 2 {
        (-1, 1)
    } else if k == 3 {
        (0, -1)
    } else if k == 4 {
        (0, 1)
    } else if k == 5 {
        (1, -1)
    } else if k == 6 {
        (1, 0)
    } else {
        (1, 1)
    }
}

/// Offsets `(cardinal, diagonal)` of D-infinity facet `f`: each facet is
/// the triangle between a cardinal neighbour and a diagonal one.
pub open spec fn facet_spec(f: int) -> ((int, int), (int, int)) {
    if f == 0 {
        ((0, 1), (-1, 1))
    } else if f == 1 {
        ((-1, 0), (-1, 1))
    } else if f == 2 {
        ((-1, 0), (-1, -1))
    } else if f == 3 {
        ((0, -1), (-1, -1))
    } else if f == 4 {
        ((0, -1), (1, -1))
    } else if f == 5 {
        ((1, 0), (1, -1))
    } else if f == 6 {
        ((1, 0), (1, 1))
    } else {
        ((0, 1), (1, 1))
    }
}

/// Offset of neighbour `k` of the eight.
pub fn neighbor8(k: usize) -> (d: (i64, i64))
    requires
        k < 8,
    ensures
        d.0 == offset8(k as int).0,
        d.1 == offset8(k as int).1,
{
    match k {
        0 => (-1, -1),
        1 => (-1, 0),
        2 => (-1, 1),
        3 => (0, -1),
        4 => (0, 1),
        5 => (1, -1),
        6 => (1, 0),
        _ => (1, 1),
    }
}

/// Offsets of the cardinal and the diagonal neighbour of facet `f`.
pub fn facet(f: usize) -> (d: ((i64, i64), (i64, i64)))
    requires
        f < 8,
    ensures
        d.0.0 == facet_spec(f as int).0.0,
        d.0.1 == facet_spec(f as int).0.1,
        d.1.0 == facet_spec(f as int).1.0,
        d.1.1 == facet_spec(f as int).1.1,
{
    match f {
        0 => ((0, 1), (-1, 1)),
        1 => ((-1, 0), (-1, 1)),
        2 => ((-1, 0), (-1, -1)),
        3 => ((0, -1), (-1, -1)),
        4 => ((0, -1), (1, -1)),
        5 => ((1, 0), (1, -1)),
        6 => ((1, 0), (1, 1)),
        _ => ((0, 1), (1, 1)),
    }
}

/// The flat index of the cell `(dr, dc)` away from cell `(r, c)` of a
/// row-major `cols * rows` grid, or `None` when that step leaves the grid.
pub fn step(r: usize, c: usize, dr: i64, dc: i64, cols: usize, rows: usize) -> (n: Option<usize>)
    requires
        r < rows,
        c < cols,
        cols * rows <= usize::MAX,
        rows <= i64::MAX,
        cols <= i64::MAX,
        -1 <= dr <= 1,
        -1 <= dc <= 1,
    ensures
        n is Some <==> (0 <= r + dr < rows && 0 <= c + dc < cols),
        n matches Some(i) ==> i == flat(c + dc, r + dr, cols as int),
{
    let nr = r as i64 + dr;
    let nc = c as i64 + dc;
    if nr < 0 || nc < 0 || nr >= rows as i64 || nc >= cols as i64 {
        None
    } else {
        proof {
            lemma_flat_in_grid(nc as int, nr as int, cols as int, rows as int);
        }
        Some(nr as usize * cols + nc as usize)
    }
}

/// The eight offsets are the eight cells around a cell, each once.
pub proof fn lemma_neighbors8(k1: int, k2: int)
    requires
        0 <= k1 < 8,
        0 <= k2 < 8,
    ensures
        -1 <= offset8(k1).0 <= 1 && -1 <= offset8(k1).1 <= 1,
        offset8(k1) != (0int, 0int),
        k1 != k2 ==> offset8(k1) != offset8(k2),
{
}

/// Each facet pairs a cardinal neighbour with a diagonal neighbour next to
/// it, and consecutive facets (the last followed by the first) share a
/// neighbour, so the eight facets go once around the cell.
pub proof fn lemma_facets(f: int)
    requires
        0 <= f < 8,
    ensures
        ({
            let (a, b) = facet_spec(f);
            &&& (a.0 == 0) != (a.1 == 0)
            &&& -1 <= a.0 <= 1 && -1 <= a.1 <= 1
            &&& (b.0 == 1 || b.0 == -1) && (b.1 == 1 || b.1 == -1)
            &&& (a.0 == b.0 || a.1 == b.1)
        }),
        ({
            let g = if f == 7 { 0 } else { f + 1 };
            ||| facet_spec(f).0 == facet_spec(g).0
            ||| facet_spec(f).1 == facet_spec(g).1
        }),
        forall|g: int| 0 <= g < 8 && g != f ==> facet_spec(g) != facet_spec(f),
{
}

} // verus!
