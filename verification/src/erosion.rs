//! Grids used by the hydraulic erosion pass.

pub mod heightmap;
