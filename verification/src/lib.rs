//! A rectangular grid modeled as a graph of coordinate-addressed cells,
//! randomized generators that carve spanning-tree mazes over it, and a
//! breadth-first solver for distance fields and shortest paths.
pub mod grid;
pub mod mazes;
pub mod rng;
