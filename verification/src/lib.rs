//! A solver for grid puzzles in which coloured endpoint pairs are joined by
//! paths that may step orthogonally or diagonally, with numbered junction
//! cells that must end with an exact number of incoming edges.
//!
//! The board model and the backtracking search are stated over a
//! mathematical model of the board and proved against it.

pub mod symbol;
pub mod direction;
pub mod model;
pub mod laws;
pub mod board;
pub mod closure;
pub mod search;
pub mod solver;
pub mod solution;
pub mod load;
pub mod report;
