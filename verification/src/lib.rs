//! A match-3 tile-matching simulation engine: a rectangular grid of colored
//! tokens, detection of same-colored runs of three or more along rows and
//! columns, removal, gravity, refill, and a one-ply move evaluator.

pub mod cell;
pub mod engine;
pub mod gravity;
pub mod laws;
pub mod grid;
pub mod scan;
pub mod grid_ext;

pub use cell::{Cell, Color};
pub use grid::CellGrid;
