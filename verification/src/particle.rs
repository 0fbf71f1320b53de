//! Particle-based hydraulic erosion: the grid of cells the droplets act on.

pub mod cell;
pub mod world;
