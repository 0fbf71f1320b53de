//! The continuous height field of the 50 km by 50 km world.

use vstd::prelude::*;

verus! {

/// Continuous height field for a 50 km by 50 km world, identified by the
/// seed of its fractal noise.
pub struct Terrain {
    pub seed: u32,
}

impl Terrain {
    /// Create a new terrain with the given seed.
    pub fn new(seed: u32) -> (t: Self)
        ensures
            t.seed == seed,
    {
        Terrain { seed }
    }
}

} // verus!
