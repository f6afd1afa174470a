//! Wave-function-collapse grid generation.
//!
//! A grid of cells, each holding a bitset of still-possible tile types,
//! is collapsed cell by cell; after each collapse the adjacency constraints
//! are propagated until the grid is consistent again.

pub mod bits;
pub mod rng;
pub mod tile;
pub mod world;
