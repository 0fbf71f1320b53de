//! The dynamically sized grid of the particle simulation.
//!
//! Positions are `(x, y)` with `x` the row and `y` the column, flattened
//! row-major; the grid is generic over the cell record.

use vstd::prelude::*;

verus! {

/// Neighbour step, in cells, used by the settling and normal stencils.
pub const LOD_SIZE: i32 = 1;

/// A `width` (columns) by `height` (rows) grid of cells.
pub struct WorldMap<C> {
    pub cells: Vec<C>,
    /// Number of columns (stride for row-major indexing).
    pub width: usize,
    /// Number of rows.
    pub height: usize,
}

impl<C> WorldMap<C> {
    /// The grid holds one cell per position.
    pub open spec fn wf(&self) -> bool {
        &&& self.width * self.height <= usize::MAX
        &&& self.cells@.len() == self.width * self.height
    }

    /// `(x, y)` lies outside the grid, with the bounds read as `i32`.
    pub open spec fn is_oob(&self, x: i32, y: i32) -> bool {
        x < 0 || y < 0 || x >= self.height as i32 || y >= self.width as i32
    }

    /// Flat index of an in-grid position.
    pub open spec fn flat_index(&self, x: int, y: int) -> int {
        x * self.width + y
    }

    /// Total number of cells.
    pub fn area(&self) -> (a: usize)
        requires
            self.width * self.height <= usize::MAX,
        ensures
            a == self.width * self.height,
    {
        self.width * self.height
    }

    /// Flatten a 2-D position into the row-major index (x = row, y = column).
    pub fn index(&self, x: i32, y: i32) -> (i: usize)
        requires
            x >= 0,
            y >= 0,
            x * self.width + y <= usize::MAX,
        ensures
            i == self.flat_index(x as int, y as int),
    {
        (x as usize) * self.width + (y as usize)
    }

    /// Out-of-bounds check (integer).
    pub fn oob_i(&self, x: i32, y: i32) -> (b: bool)
        ensures
            b == self.is_oob(x, y),
    {
        x < 0 || y < 0 || x >= self.height as i32 || y >= self.width as i32
    }

    /// Get an immutable cell reference, or `None` outside the grid.
    pub fn get(&self, x: i32, y: i32) -> (r: Option<&C>)
        requires
            self.wf(),
        ensures
            self.is_oob(x, y) ==> r.is_none(),
            !self.is_oob(x, y) ==> {
                &&& 0 <= self.flat_index(x as int, y as int) < self.cells@.len()
                &&& r == Some(&self.cells@[self.flat_index(x as int, y as int)])
            },
    {
        if self.oob_i(x, y) {
            None
        } else {
            proof {
                lemma_in_grid(self.width, self.height, x, y);
            }
            Some(&self.cells[self.index(x, y)])
        }
    }

    /// Get a mutable cell reference, or `None` outside the grid.
    pub fn get_mut(&mut self, x: i32, y: i32) -> (r: Option<&mut C>)
        requires
            old(self).wf(),
        ensures
            old(self).is_oob(x, y) ==> r.is_none() && *final(self) == *old(self),
            !old(self).is_oob(x, y) ==> {
                let i = old(self).flat_index(x as int, y as int);
                &&& 0 <= i < old(self).cells@.len()
                &&& r matches Some(c) && *c == old(self).cells@[i] && final(self).cells@
                    == old(self).cells@.update(i, *final(c)) && final(self).width == old(self).width
                    && final(self).height == old(self).height
            },
    {
        if self.oob_i(x, y) {
            None
        } else {
            proof {
                lemma_in_grid(self.width, self.height, x, y);
            }
            let idx = self.index(x, y);
            Some(&mut self.cells[idx])
        }
    }
}

impl<C: Copy + Default> WorldMap<C> {
    /// A `width` by `height` grid of default cells: every cell is the value
    /// that `C::default()` gave.
    pub fn new(width: usize, height: usize) -> (m: Self)
        requires
            width * height <= usize::MAX,
        ensures
            m.width == width,
            m.height == height,
            m.wf(),
            width * height > 0 ==> call_ensures(C::default, (), m.cells@[0]),
            forall|i: int| 0 <= i < width * height ==> #[trigger] m.cells@[i] == m.cells@[0],
    {
        let n = width * height;
        let d = C::default();
        let mut cells: Vec<C> = Vec::new();
        let mut k: usize = 0;
        while k < n
            invariant
                k <= n,
                cells@.len() == k,
                forall|i: int| 0 <= i < k ==> #[trigger] cells@[i] == d,
            decreases n - k,
        {
            cells.push(d);
            k = k + 1;
        }
        Self { cells, width, height }
    }
}

/// An in-bounds position has an index inside the grid.
proof fn lemma_in_grid(width: usize, height: usize, x: i32, y: i32)
    requires
        width * height <= usize::MAX,
        !(x < 0 || y < 0 || x >= height as i32 || y >= width as i32),
    ensures
        0 <= x * width + y < width * height,
{
    assert((height as i32) >= 0 ==> (height as i32) as u64 <= height as u64) by (bit_vector);
    assert((width as i32) >= 0 ==> (width as i32) as u64 <= width as u64) by (bit_vector);
    crate::grid::lemma_flat_in_grid(y as int, x as int, width as int, height as int);
}

} // verus!
