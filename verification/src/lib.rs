//! Wave Function Collapse over a 2-D tile grid.
//!
//! A small source pattern is cut into overlapping tiles (with toroidal
//! wraparound), an adjacency table records which tiles may stand next to
//! which in each cardinal direction, and a grid of cells is then narrowed,
//! one `update` step at a time, until every cell holds exactly one tile or a
//! contradiction is reached.

pub mod adjacency;
pub mod cell;
pub mod color;
pub mod direction;
pub mod grid;
pub mod image;
pub mod rng;
