//! Spatial containers built on the grid value types.

pub mod quadtree;
