//! Marching squares on a grid of above/below-threshold flags.
//!
//! Corners of cell `(r, c)` are numbered 0 = `(r, c)`, 1 = `(r, c + 1)`,
//! 2 = `(r + 1, c + 1)`, 3 = `(r + 1, c)`; edges 0 = top (corners 0–1),
//! 1 = right (1–2), 2 = bottom (3–2), 3 = left (0–3).  A cell's case sets
//! bit `i` when corner `i` is at or above the threshold.

use vstd::prelude::*;

verus! {

/// Entry of the marching-squares table for a case: up to two segments,
/// each a pair of edges, padded with the sentinel `4`.
pub open spec fn ms_table(case: int) -> Seq<u8> {
    if case == 0 {
        seq![4, 4, 4, 4, 4]
    } else if case == 1 {
        seq![0, 3, 4, 4, 4]
    } else if case == 2 {
        seq![0, 1, 4, 4, 4]
    } else if case == 3 {
        seq![1, 3, 4, 4, 4]
    } else if case == 4 {
        seq![1, 2, 4, 4, 4]
    } else if case == 5 {
        seq![0, 3, 1, 2, 4]
    } else if case == 6 {
        seq![0, 2, 4, 4, 4]
    } else if case == 7 {
        seq![2, 3, 4, 4, 4]
    } else if case == 8 {
        seq![2, 3, 4, 4, 4]
    } else if case == 9 {
        seq![0, 2, 4, 4, 4]
    } else if case == 10 {
        seq![0, 1, 2, 3, 4]
    } else if case == 11 {
        seq![1, 2, 4, 4, 4]
    } else if case == 12 {
        seq![1, 3, 4, 4, 4]
    } else if case == 13 {
        seq![0, 1, 4, 4, 4]
    } else if case == 14 {
        seq![0, 3, 4, 4, 4]
    } else {
        seq![4, 4, 4, 4, 4]
    }
}

/// The segments listed by a table entry, read two by two up to the first
/// sentinel.
pub open spec fn entry_pairs(entry: Seq<u8>) -> Seq<(u8, u8)> {
    if entry[0] == 4 {
        Seq::empty()
    } else if entry[2] == 4 {
        seq![(entry[0], entry[1])]
    } else {
        seq![(entry[0], entry[1]), (entry[2], entry[3])]
    }
}

/// Case index of a cell from the flags of its four corners.
pub open spec fn case_of(b0: bool, b1: bool, b2: bool, b3: bool) -> int {
    (if b0 {
        1int
    } else {
        0
    }) + (if b1 {
        2int
    } else {
        0
    }) + (if b2 {
        4int
    } else {
        0
    }) + (if b3 {
        8int
    } else {
        0
    })
}

/// Bit `i` of a case: whether corner `i` is at or above the threshold.
pub open spec fn corner_bit(case: int, i: int) -> bool {
    if i == 0 {
        case % 2 == 1
    } else if i == 1 {
        (case / 2) % 2 == 1
    } else if i == 2 {
        (case / 4) % 2 == 1
    } else {
        (case / 8) % 2 == 1
    }
}

/// The two corners that edge `e` joins.
pub open spec fn edge_ends(e: int) -> (int, int) {
    if e == 0 {
        (0, 1)
    } else if e == 1 {
        (1, 2)
    } else if e == 2 {
        (3, 2)
    } else {
        (0, 3)
    }
}

/// The threshold crosses edge `e`: one of its corners is above, the other
/// below.
pub open spec fn crossed(case: int, e: int) -> bool {
    corner_bit(case, edge_ends(e).0) != corner_bit(case, edge_ends(e).1)
}

/// Some segment of `pairs` ends on edge `e`.
pub open spec fn uses_edge(pairs: Seq<(u8, u8)>, e: int) -> bool {
    ||| (pairs.len() > 0 && (pairs[0].0 == e || pairs[0].1 == e))
    ||| (pairs.len() > 1 && (pairs[1].0 == e || pairs[1].1 == e))
}

/// The table is right: every segment joins two distinct crossed edges, and
/// every crossed edge is the end of a segment.
pub proof fn lemma_table_crossings(case: int)
    requires
        0 <= case < 16,
    ensures
        forall|q: int|
            0 <= q < entry_pairs(ms_table(case)).len() ==> {
                let p = #[trigger] entry_pairs(ms_table(case))[q];
                &&& p.0 < 4
                &&& p.1 < 4
                &&& p.0 != p.1
                &&& crossed(case, p.0 as int)
                &&& crossed(case, p.1 as int)
            },
        forall|e: int| 0 <= e < 4 ==> (crossed(case, e) <==> uses_edge(entry_pairs(ms_table(case)), e)),
{
    assert(corner_bit(case, 0) == (case % 2 == 1));
    assert(corner_bit(case, 1) == ((case / 2) % 2 == 1));
    assert(corner_bit(case, 2) == ((case / 4) % 2 == 1));
    assert(corner_bit(case, 3) == ((case / 8) % 2 == 1));
    if case == 0 {
    } else if case == 1 {
    } else if case == 2 {
    } else if case == 3 {
    } else if case == 4 {
    } else if case == 5 {
    } else if case == 6 {
    } else if case == 7 {
    } else if case == 8 {
    } else if case == 9 {
    } else if case == 10 {
    } else if case == 11 {
    } else if case == 12 {
    } else if case == 13 {
    } else if case == 14 {
    } else {
    }
}

/// The case of a cell has bit `i` set exactly when corner `i` is above.
pub proof fn lemma_case_bits(b0: bool, b1: bool, b2: bool, b3: bool)
    ensures
        0 <= case_of(b0, b1, b2, b3) < 16,
        corner_bit(case_of(b0, b1, b2, b3), 0) == b0,
        corner_bit(case_of(b0, b1, b2, b3), 1) == b1,
        corner_bit(case_of(b0, b1, b2, b3), 2) == b2,
        corner_bit(case_of(b0, b1, b2, b3), 3) == b3,
{
}

/// The marching-squares table entry for `case`.
pub fn ms_entry(case: u8) -> (entry: [u8; 5])
    requires
        case < 16,
    ensures
        entry@ == ms_table(case as int),
{
    let entry: [u8; 5] = if case == 0 {
        [4, 4, 4, 4, 4]
    } else if case == 1 {
        [0, 3, 4, 4, 4]
    } else if case == 2 {
        [0, 1, 4, 4, 4]
    } else if case == 3 {
        [1, 3, 4, 4, 4]
    } else if case == 4 {
        [1, 2, 4, 4, 4]
    } else if case == 5 {
        [0, 3, 1, 2, 4]
    } else if case == 6 {
        [0, 2, 4, 4, 4]
    } else if case == 7 {
        [2, 3, 4, 4, 4]
    } else if case == 8 {
        [2, 3, 4, 4, 4]
    } else if case == 9 {
        [0, 2, 4, 4, 4]
    } else if case == 10 {
        [0, 1, 2, 3, 4]
    } else if case == 11 {
        [1, 2, 4, 4, 4]
    } else if case == 12 {
        [1, 3, 4, 4, 4]
    } else if case == 13 {
        [0, 1, 4, 4, 4]
    } else if case == 14 {
        [0, 3, 4, 4, 4]
    } else {
        [4, 4, 4, 4, 4]
    };
    assert(entry@ =~= ms_table(case as int));
    entry
}

/// Case index of a cell: bit `i` is set when corner `i` is at or above the
/// threshold.
pub fn cell_case(above: [bool; 4]) -> (case: u8)
    ensures
        case as int == case_of(above[0], above[1], above[2], above[3]),
        case < 16,
{
    let mut case: u8 = 0;
    if above[0] {
        case = case + 1;
    }
    if above[1] {
        case = case + 2;
    }
    if above[2] {
        case = case + 4;
    }
    if above[3] {
        case = case + 8;
    }
    case
}

/// Grid position `(row, col)` of corner `i` of cell `(r, c)`.
pub open spec fn corner_pos(r: int, c: int, i: int) -> (int, int) {
    if i == 0 {
        (r, c)
    } else if i == 1 {
        (r, c + 1)
    } else if i == 2 {
        (r + 1, c + 1)
    } else {
        (r + 1, c)
    }
}

/// The grid points `(row, col)` at the two ends of edge `e` of cell `(r, c)`,
/// between which the crossing point is interpolated.
pub fn edge_corners(r: usize, c: usize, e: u8) -> (ends: ((usize, usize), (usize, usize)))
    requires
        e < 4,
        r < usize::MAX,
        c < usize::MAX,
    ensures
        ends.0.0 == corner_pos(r as int, c as int, edge_ends(e as int).0).0,
        ends.0.1 == corner_pos(r as int, c as int, edge_ends(e as int).0).1,
        ends.1.0 == corner_pos(r as int, c as int, edge_ends(e as int).1).0,
        ends.1.1 == corner_pos(r as int, c as int, edge_ends(e as int).1).1,
{
    if e == 0 {
        ((r, c), (r, c + 1))
    } else if e == 1 {
        ((r, c + 1), (r + 1, c + 1))
    } else if e == 2 {
        ((r + 1, c), (r + 1, c + 1))
    } else {
        ((r, c), (r + 1, c))
    }
}

/// One contour segment of a cell: it joins the crossing points on edges
/// `e0` and `e1` of cell `(row, col)`.
#[derive(Debug, Clone, Copy, PartialEq, Eq, Structural)]
pub struct Crossing {
    pub row: usize,
    pub col: usize,
    pub e0: u8,
    pub e1: u8,
}

/// Case of cell `(r, c)` of a row-major flag grid `cols` wide.
pub open spec fn case_at(above: Seq<bool>, cols: int, r: int, c: int) -> int {
    case_of(
        above[r * cols + c],
        above[r * cols + c + 1],
        above[(r + 1) * cols + c + 1],
        above[(r + 1) * cols + c],
    )
}

/// The segments of cell `(r, c)`, in table order.
pub open spec fn cell_crossings(above: Seq<bool>, cols: int, r: int, c: int) -> Seq<Crossing> {
    let pairs = entry_pairs(ms_table(case_at(above, cols, r, c)));
    Seq::new(
        pairs.len(),
        |q: int| Crossing { row: r as usize, col: c as usize, e0: pairs[q].0, e1: pairs[q].1 },
    )
}

/// Segments of the first `c` cells of row `r`.
pub open spec fn row_crossings(above: Seq<bool>, cols: int, r: int, c: int) -> Seq<Crossing>
    decreases c,
{
    if c <= 0 {
        Seq::empty()
    } else {
        row_crossings(above, cols, r, c - 1) + cell_crossings(above, cols, r, c - 1)
    }
}

/// Segments of the first `r` rows of cells, row by row.
pub open spec fn grid_crossings(above: Seq<bool>, cols: int, r: int) -> Seq<Crossing>
    decreases r,
{
    if r <= 0 {
        Seq::empty()
    } else {
        grid_crossings(above, cols, r - 1) + row_crossings(above, cols, r - 1, cols - 1)
    }
}

/// Run marching squares over a row-major grid of `cols * rows` corner
/// flags (`above[i]` = sample `i` is at or above the threshold) and list
/// the segments of every cell, row by row and, within a cell, in table
/// order.
pub fn extract_crossings(above: &[bool], cols: usize, rows: usize) -> (out: Vec<Crossing>)
    requires
        1 <= cols,
        1 <= rows,
        cols * rows <= usize::MAX,
        above@.len() >= cols * rows,
    ensures
        out@ == grid_crossings(above@, cols as int, rows - 1),
        forall|q: int|
            0 <= q < out@.len() ==> true_crossing(above@, cols as int, #[trigger] out@[q])
                && out@[q].row < rows - 1 && out@[q].col < cols - 1,
        forall|r: int, c: int, e: int|
            0 <= r < rows - 1 && 0 <= c < cols - 1 && 0 <= e < 4 && #[trigger] edge_differs(
                above@,
                cols as int,
                r,
                c,
                e,
            ) ==> lists_edge(out@, r, c, e),
{
    let grid_rows = rows - 1;
    let grid_cols = cols - 1;
    let mut out: Vec<Crossing> = Vec::new();
    let mut r: usize = 0;
    while r < grid_rows
        invariant
            grid_rows == rows - 1,
            grid_cols == cols - 1,
            1 <= cols,
            cols * rows <= usize::MAX,
            above@.len() >= cols * rows,
            r <= grid_rows,
            out@ == grid_crossings(above@, cols as int, r as int),
        decreases grid_rows - r,
    {
        let mut c: usize = 0;
        while c < grid_cols
            invariant
                grid_rows == rows - 1,
                grid_cols == cols - 1,
                1 <= cols,
                cols * rows <= usize::MAX,
                above@.len() >= cols * rows,
                r < grid_rows,
                c <= grid_cols,
                out@ == grid_crossings(above@, cols as int, r as int) + row_crossings(
                    above@,
                    cols as int,
                    r as int,
                    c as int,
                ),
            decreases grid_cols - c,
        {
            proof {
                crate::grid::lemma_flat_in_grid(c as int, r as int, cols as int, rows as int);
                crate::grid::lemma_flat_in_grid(c + 1, r as int, cols as int, rows as int);
                crate::grid::lemma_flat_in_grid(c as int, r + 1, cols as int, rows as int);
                crate::grid::lemma_flat_in_grid(c + 1, r + 1, cols as int, rows as int);
                assert((r + 1) * cols == r * cols + cols) by (nonlinear_arith);
            }
            let top = r * cols;
            let bottom = top + cols;
            let h = [above[top + c], above[top + c + 1], above[bottom + c + 1], above[bottom + c]];
            let case = cell_case(h);
            let entry = ms_entry(case);
            let ghost before = out@;
            let ghost pairs = entry_pairs(ms_table(case as int));
            if entry[0] != 4 {
                out.push(Crossing { row: r, col: c, e0: entry[0], e1: entry[1] });
                if entry[2] != 4 {
                    out.push(Crossing { row: r, col: c, e0: entry[2], e1: entry[3] });
                }
            }
            proof {
                assert(case as int == case_at(above@, cols as int, r as int, c as int));
                assert(out@ =~= before + cell_crossings(above@, cols as int, r as int, c as int));
                assert(row_crossings(above@, cols as int, r as int, c + 1) == row_crossings(
                    above@,
                    cols as int,
                    r as int,
                    c as int,
                ) + cell_crossings(above@, cols as int, r as int, c as int));
                assert(out@ =~= grid_crossings(above@, cols as int, r as int) + row_crossings(
                    above@,
                    cols as int,
                    r as int,
                    c + 1,
                ));
            }
            c = c + 1;
        }
        proof {
            assert(grid_crossings(above@, cols as int, r + 1) == grid_crossings(
                above@,
                cols as int,
                r as int,
            ) + row_crossings(above@, cols as int, r as int, cols - 1));
        }
        r = r + 1;
    }
    proof {
        lemma_crossings_true(above@, cols as int, rows - 1);
        assert forall|r: int, c: int, e: int|
            0 <= r < rows - 1 && 0 <= c < cols - 1 && 0 <= e < 4 && #[trigger] edge_differs(
                above@,
                cols as int,
                r,
                c,
                e,
            ) implies lists_edge(out@, r, c, e) by {
            lemma_crossings_complete(above@, cols as int, rows as int, r, c, e);
        }
    }
    out
}

/// The threshold crosses edge `e` of cell `(r, c)`: the flags at its two
/// end corners differ.
pub open spec fn edge_differs(above: Seq<bool>, cols: int, r: int, c: int, e: int) -> bool {
    let a = corner_pos(r, c, edge_ends(e).0);
    let b = corner_pos(r, c, edge_ends(e).1);
    above[a.0 * cols + a.1] != above[b.0 * cols + b.1]
}

/// Some crossing of `s` belongs to cell `(r, c)` and ends on edge `e`.
pub open spec fn lists_edge(s: Seq<Crossing>, r: int, c: int, e: int) -> bool {
    exists|q: int|
        0 <= q < s.len() && (#[trigger] s[q]).row == r && s[q].col == c && (s[q].e0 == e
            || s[q].e1 == e)
}

proof fn lemma_cell_complete(above: Seq<bool>, cols: int, r: int, c: int, e: int)
    requires
        0 <= r < usize::MAX,
        0 <= c < usize::MAX,
        0 <= e < 4,
        edge_differs(above, cols, r, c, e),
    ensures
        lists_edge(cell_crossings(above, cols, r, c), r, c, e),
{
    let b0 = above[r * cols + c];
    let b1 = above[r * cols + c + 1];
    let b2 = above[(r + 1) * cols + c + 1];
    let b3 = above[(r + 1) * cols + c];
    let case = case_of(b0, b1, b2, b3);
    lemma_case_bits(b0, b1, b2, b3);
    lemma_table_crossings(case);
    assert(r * cols + (c + 1) == r * cols + c + 1);
    assert((r + 1) * cols + (c + 1) == (r + 1) * cols + c + 1);
    assert(corner_bit(case, 0) == above[corner_pos(r, c, 0).0 * cols + corner_pos(r, c, 0).1]);
    assert(corner_bit(case, 1) == above[corner_pos(r, c, 1).0 * cols + corner_pos(r, c, 1).1]);
    assert(corner_bit(case, 2) == above[corner_pos(r, c, 2).0 * cols + corner_pos(r, c, 2).1]);
    assert(corner_bit(case, 3) == above[corner_pos(r, c, 3).0 * cols + corner_pos(r, c, 3).1]);
    assert(crossed(case, e));
    let pairs = entry_pairs(ms_table(case));
    let cs = cell_crossings(above, cols, r, c);
    assert(uses_edge(pairs, e));
    if pairs.len() > 0 && (pairs[0].0 == e || pairs[0].1 == e) {
        assert(cs[0].row == r && cs[0].col == c);
    } else {
        assert(cs[1].row == r && cs[1].col == c);
    }
}

proof fn lemma_row_complete(above: Seq<bool>, cols: int, r: int, c: int, c0: int, e: int)
    requires
        0 <= r < usize::MAX,
        0 <= c0 < c,
        c < usize::MAX,
        0 <= e < 4,
        edge_differs(above, cols, r, c0, e),
    ensures
        lists_edge(row_crossings(above, cols, r, c), r, c0, e),
    decreases c,
{
    let a = row_crossings(above, cols, r, c - 1);
    let b = cell_crossings(above, cols, r, c - 1);
    assert(row_crossings(above, cols, r, c) == a + b);
    if c0 == c - 1 {
        lemma_cell_complete(above, cols, r, c0, e);
        let q = choose|q: int|
            0 <= q < b.len() && (#[trigger] b[q]).row == r && b[q].col == c0 && (b[q].e0 == e
                || b[q].e1 == e);
        assert((a + b)[a.len() + q] == b[q]);
    } else {
        lemma_row_complete(above, cols, r, c - 1, c0, e);
        let q = choose|q: int|
            0 <= q < a.len() && (#[trigger] a[q]).row == r && a[q].col == c0 && (a[q].e0 == e
                || a[q].e1 == e);
        assert((a + b)[q] == a[q]);
    }
}

proof fn lemma_grid_complete(above: Seq<bool>, cols: int, r: int, r0: int, c0: int, e: int)
    requires
        0 <= r0 < r,
        r < usize::MAX,
        0 <= c0 < cols - 1,
        cols <= usize::MAX,
        0 <= e < 4,
        edge_differs(above, cols, r0, c0, e),
    ensures
        lists_edge(grid_crossings(above, cols, r), r0, c0, e),
    decreases r,
{
    let a = grid_crossings(above, cols, r - 1);
    let b = row_crossings(above, cols, r - 1, cols - 1);
    assert(grid_crossings(above, cols, r) == a + b);
    if r0 == r - 1 {
        lemma_row_complete(above, cols, r0, cols - 1, c0, e);
        let q = choose|q: int|
            0 <= q < b.len() && (#[trigger] b[q]).row == r0 && b[q].col == c0 && (b[q].e0 == e
                || b[q].e1 == e);
        assert((a + b)[a.len() + q] == b[q]);
    } else {
        lemma_grid_complete(above, cols, r - 1, r0, c0, e);
        let q = choose|q: int|
            0 <= q < a.len() && (#[trigger] a[q]).row == r0 && a[q].col == c0 && (a[q].e0 == e
                || a[q].e1 == e);
        assert((a + b)[q] == a[q]);
    }
}

/// Marching squares misses no crossing: for every cell of the grid and
/// every edge whose two end flags differ, some listed segment of that cell
/// ends on that edge (so a saddle cell, with all four edges crossed, lists
/// both of its segments).
pub proof fn lemma_crossings_complete(above: Seq<bool>, cols: int, rows: int, r: int, c: int, e: int)
    requires
        1 <= cols <= usize::MAX,
        rows <= usize::MAX,
        0 <= r < rows - 1,
        0 <= c < cols - 1,
        0 <= e < 4,
        edge_differs(above, cols, r, c, e),
    ensures
        lists_edge(grid_crossings(above, cols, rows - 1), r, c, e),
{
    lemma_grid_complete(above, cols, rows - 1, r, c, e);
}

/// A crossing of cell `(r, c)` is a true crossing: the segment joins two
/// distinct edges, and the threshold lies between the flags at the two ends
/// of each of them.
pub open spec fn true_crossing(above: Seq<bool>, cols: int, x: Crossing) -> bool {
    let r = x.row as int;
    let c = x.col as int;
    let a0 = corner_pos(r, c, edge_ends(x.e0 as int).0);
    let b0 = corner_pos(r, c, edge_ends(x.e0 as int).1);
    let a1 = corner_pos(r, c, edge_ends(x.e1 as int).0);
    let b1 = corner_pos(r, c, edge_ends(x.e1 as int).1);
    &&& x.e0 < 4
    &&& x.e1 < 4
    &&& x.e0 != x.e1
    &&& above[a0.0 * cols + a0.1] != above[b0.0 * cols + b0.1]
    &&& above[a1.0 * cols + a1.1] != above[b1.0 * cols + b1.1]
}

proof fn lemma_cell_true(above: Seq<bool>, cols: int, r: int, c: int)
    requires
        0 <= r < usize::MAX,
        0 <= c < usize::MAX,
    ensures
        forall|q: int|
            0 <= q < cell_crossings(above, cols, r, c).len() ==> true_crossing(
                above,
                cols,
                #[trigger] cell_crossings(above, cols, r, c)[q],
            ) && cell_crossings(above, cols, r, c)[q].row == r && cell_crossings(above, cols, r, c)[q].col == c,
{
    let b0 = above[r * cols + c];
    let b1 = above[r * cols + c + 1];
    let b2 = above[(r + 1) * cols + c + 1];
    let b3 = above[(r + 1) * cols + c];
    let case = case_of(b0, b1, b2, b3);
    lemma_case_bits(b0, b1, b2, b3);
    lemma_table_crossings(case);
    assert(r * cols + (c + 1) == r * cols + c + 1);
    assert((r + 1) * cols + (c + 1) == (r + 1) * cols + c + 1);
    assert forall|q: int| 0 <= q < cell_crossings(above, cols, r, c).len() implies true_crossing(
        above,
        cols,
        #[trigger] cell_crossings(above, cols, r, c)[q],
    ) by {
        let p = entry_pairs(ms_table(case))[q];
        let x = cell_crossings(above, cols, r, c)[q];
        assert(x.e0 == p.0 && x.e1 == p.1);
        assert(x.row as int == r && x.col as int == c);
        assert(crossed(case, p.0 as int));
        assert(crossed(case, p.1 as int));
        assert(corner_bit(case, 0) == above[corner_pos(r, c, 0).0 * cols + corner_pos(r, c, 0).1]);
        assert(corner_bit(case, 1) == above[corner_pos(r, c, 1).0 * cols + corner_pos(r, c, 1).1]);
        assert(corner_bit(case, 2) == above[corner_pos(r, c, 2).0 * cols + corner_pos(r, c, 2).1]);
        assert(corner_bit(case, 3) == above[corner_pos(r, c, 3).0 * cols + corner_pos(r, c, 3).1]);
    }
}

proof fn lemma_row_true(above: Seq<bool>, cols: int, r: int, c: int)
    requires
        0 <= r < usize::MAX,
        0 <= c < usize::MAX,
    ensures
        forall|q: int|
            0 <= q < row_crossings(above, cols, r, c).len() ==> true_crossing(
                above,
                cols,
                #[trigger] row_crossings(above, cols, r, c)[q],
            ) && row_crossings(above, cols, r, c)[q].row == r && row_crossings(above, cols, r, c)[q].col < c,
    decreases c,
{
    if c > 0 {
        lemma_row_true(above, cols, r, c - 1);
        lemma_cell_true(above, cols, r, c - 1);
        let a = row_crossings(above, cols, r, c - 1);
        let b = cell_crossings(above, cols, r, c - 1);
        assert forall|q: int| 0 <= q < (a + b).len() implies true_crossing(above, cols, #[trigger] (a + b)[q])
            && (a + b)[q].row == r && (a + b)[q].col < c by {
            if q < a.len() {
                assert((a + b)[q] == a[q]);
            } else {
                assert((a + b)[q] == b[q - a.len()]);
            }
        }
    }
}

/// Every segment that marching squares lists is a true crossing of a cell
/// inside the grid.
pub proof fn lemma_crossings_true(above: Seq<bool>, cols: int, r: int)
    requires
        0 <= r < usize::MAX,
        1 <= cols <= usize::MAX,
    ensures
        forall|q: int|
            0 <= q < grid_crossings(above, cols, r).len() ==> true_crossing(
                above,
                cols,
                #[trigger] grid_crossings(above, cols, r)[q],
            ) && grid_crossings(above, cols, r)[q].row < r && grid_crossings(above, cols, r)[q].col
                < cols - 1,
    decreases r,
{
    if r > 0 {
        lemma_crossings_true(above, cols, r - 1);
        lemma_row_true(above, cols, r - 1, cols - 1);
        let a = grid_crossings(above, cols, r - 1);
        let b = row_crossings(above, cols, r - 1, cols - 1);
        assert forall|q: int| 0 <= q < (a + b).len() implies true_crossing(above, cols, #[trigger] (a + b)[q])
            && (a + b)[q].row < r && (a + b)[q].col < cols - 1 by {
            if q < a.len() {
                assert((a + b)[q] == a[q]);
            } else {
                assert((a + b)[q] == b[q - a.len()]);
            }
        }
    }
}

} // verus!
