//! The fixed-size grid of the interactive simulation: `WORLD_SIZE` rows of
//! `WORLD_SIZE` cells, flattened row-major with `x` the row and `y` the
//! column.

use vstd::prelude::*;

verus! {

/// Side of one tile, in cells.
pub const TILE_SIZE: usize = 512;

/// Cells in one tile.
#[verifier::nonlinear]
pub const TILE_AREA: usize = TILE_SIZE * TILE_SIZE;

/// Side of the map, in tiles.
pub const MAP_SIZE: usize = 1;

/// Tiles in the map.
#[verifier::nonlinear]
pub const MAP_AREA: usize = MAP_SIZE * MAP_SIZE;

/// Side of the world, in cells.
#[verifier::nonlinear]
pub const WORLD_SIZE: usize = MAP_SIZE * TILE_SIZE;

/// Cells in the world.
#[verifier::nonlinear]
pub const WORLD_AREA: usize = MAP_AREA * TILE_AREA;

/// Neighbour step, in cells, used by the normal stencil.
pub const LOD_SIZE: i32 = 1;

/// The `WORLD_SIZE` by `WORLD_SIZE` grid of cells.
pub struct WorldMap<C> {
    pub cells: Vec<C>,
}

impl<C> WorldMap<C> {
    /// The grid holds one cell per position.
    pub open spec fn wf(&self) -> bool {
        self.cells@.len() == WORLD_AREA
    }

    /// `(x, y)` lies outside the world.
    pub open spec fn is_oob(x: i32, y: i32) -> bool {
        x < 0 || y < 0 || x >= WORLD_SIZE || y >= WORLD_SIZE
    }

    /// Flat index of a position.
    pub open spec fn flat_index(x: int, y: int) -> int {
        x * WORLD_SIZE + y
    }

    /// Flatten a 2-D position into the row-major index.
    pub fn index(&self, x: i32, y: i32) -> (i: usize)
        requires
            x >= 0,
            y >= 0,
            x * WORLD_SIZE + y <= usize::MAX,
        ensures
            i == Self::flat_index(x as int, y as int),
    {
        (x as usize) * WORLD_SIZE + (y as usize)
    }

    /// Out-of-bounds check.
    pub fn oob_i(&self, x: i32, y: i32) -> (b: bool)
        ensures
            b == Self::is_oob(x, y),
            !b <==> (0 <= x < WORLD_SIZE && 0 <= y < WORLD_SIZE),
    {
        x < 0 || y < 0 || x >= WORLD_SIZE as i32 || y >= WORLD_SIZE as i32
    }

    /// Get an immutable cell reference, or `None` outside the world.
    pub fn get(&self, x: i32, y: i32) -> (r: Option<&C>)
        requires
            self.wf(),
        ensures
            r is Some <==> (0 <= x < WORLD_SIZE && 0 <= y < WORLD_SIZE),
            Self::is_oob(x, y) ==> r.is_none(),
            !Self::is_oob(x, y) ==> {
                &&& 0 <= Self::flat_index(x as int, y as int) < WORLD_AREA
                &&& r == Some(&self.cells@[Self::flat_index(x as int, y as int)])
            },
    {
        if self.oob_i(x, y) {
            None
        } else {
            Some(&self.cells[self.index(x, y)])
        }
    }

    /// Get a mutable cell reference, or `None` outside the world.
    pub fn get_mut(&mut self, x: i32, y: i32) -> (r: Option<&mut C>)
        requires
            old(self).wf(),
        ensures
            r is Some <==> (0 <= x < WORLD_SIZE && 0 <= y < WORLD_SIZE),
            Self::is_oob(x, y) ==> r.is_none() && *final(self) == *old(self),
            !Self::is_oob(x, y) ==> {
                let i = Self::flat_index(x as int, y as int);
                &&& 0 <= i < WORLD_AREA
                &&& r matches Some(c) && *c == old(self).cells@[i] && final(self).cells@
                    == old(self).cells@.update(i, *final(c))
            },
    {
        if self.oob_i(x, y) {
            None
        } else {
            let idx = self.index(x, y);
            Some(&mut self.cells[idx])
        }
    }
}

/// A position is inside the world exactly when its row and its column each
/// are, and distinct positions inside it have distinct cells.
pub proof fn lemma_world_positions(x1: i32, y1: i32, x2: i32, y2: i32)
    ensures
        !WorldMap::<()>::is_oob(x1, y1) <==> (0 <= x1 < WORLD_SIZE && 0 <= y1 < WORLD_SIZE),
        !WorldMap::<()>::is_oob(x1, y1) ==> 0 <= WorldMap::<()>::flat_index(x1 as int, y1 as int)
            < WORLD_AREA,
        !WorldMap::<()>::is_oob(x1, y1) && !WorldMap::<()>::is_oob(x2, y2) && (x1 != x2 || y1
            != y2) ==> WorldMap::<()>::flat_index(x1 as int, y1 as int) != WorldMap::<()>::flat_index(
            x2 as int,
            y2 as int,
        ),
{
    if !WorldMap::<()>::is_oob(x1, y1) {
        assert(x1 * 512 + y1 < 512 * 512) by (nonlinear_arith)
            requires
                0 <= x1 < 512,
                0 <= y1 < 512,
        ;
        if !WorldMap::<()>::is_oob(x2, y2) && x1 != x2 {
            if x1 < x2 {
                assert(x1 * 512 + y1 < x2 * 512 + y2) by (nonlinear_arith)
                    requires
                        x1 < x2,
                        0 <= y1 < 512,
                        0 <= y2,
                ;
            } else {
                assert(x2 * 512 + y2 < x1 * 512 + y1) by (nonlinear_arith)
                    requires
                        x2 < x1,
                        0 <= y2 < 512,
                        0 <= y1,
                ;
            }
        }
    }
}

impl<C: Copy + Default> WorldMap<C> {
    /// A world of default cells: every cell is the value that
    /// `C::default()` gave.
    pub fn new() -> (m: Self)
        ensures
            m.wf(),
            call_ensures(C::default, (), m.cells@[0]),
            forall|i: int| 0 <= i < WORLD_AREA ==> #[trigger] m.cells@[i] == m.cells@[0],
    {
        let d = C::default();
        let mut cells: Vec<C> = Vec::new();
        let mut k: usize = 0;
        while k < WORLD_AREA
            invariant
                k <= WORLD_AREA,
                cells@.len() == k,
                forall|i: int| 0 <= i < k ==> #[trigger] cells@[i] == d,
            decreases WORLD_AREA - k,
        {
            cells.push(d);
            k = k + 1;
        }
        Self { cells }
    }
}

} // verus!
