//! Grid, contour and hydrology logic of a terrain generator and erosion
//! simulator, with the contracts that the rendering and simulation layers
//! rely on.

pub mod contour;
pub mod control;
pub mod erosion;
pub mod grid;
pub mod particle;
pub mod render;
pub mod resources;
pub mod river;
pub mod sim;
pub mod terrain;
pub mod visibility;
