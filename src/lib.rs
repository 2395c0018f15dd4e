//! Procedural maze maps: a seeded random spanning tree over a rectangular grid
//! of cells, and the wall segments that separate every pair of neighbouring
//! cells the tree does not join.
pub mod grid;
pub mod laws;
pub mod map;
pub mod plugin;
pub mod random;
