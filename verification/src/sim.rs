//! The fixed-size world of the interactive hydrology simulation.

pub mod cell;
