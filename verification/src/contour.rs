//! Contour extraction: the marching-squares edge logic and the stitching of
//! segments into polylines.

pub mod chaining;
pub mod marching;
