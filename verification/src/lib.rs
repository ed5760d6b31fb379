//! A verified 9x9 sudoku engine.
//!
//! The crate generates fully solved grids, derives puzzles from them by
//! clearing cells while a unique solution is preserved, and solves arbitrary
//! puzzles by backtracking search over the empty cells.  The mathematical
//! model lives in [`model`]; every executable component is specified and
//! proved against it.

pub mod board;
mod consistency;
pub mod codec;
pub mod error;
pub mod game;
pub mod index;
pub mod model;
pub mod ops;
pub mod options;
mod rng;
pub mod transform;
