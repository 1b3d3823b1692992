//! Quadtree spatial index over a bounded grid of cells, with a bitmap codec
//! that serializes the indexed point set to a compact binary form and back,
//! and an optional run-length compression stage for the encoded bytes.

pub mod components;
pub mod data_structures;
pub mod encoding;
