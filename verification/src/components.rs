//! Value types for the grid: sizes and points, with randomized constructors.

pub mod math;
pub mod visuals;
