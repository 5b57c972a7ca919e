//! A verified solver for 9x9 fill-in number puzzles.
//!
//! `grid` holds the puzzle state: the placed digits, the per-cell candidate
//! sets, and the per-cell candidate counts, kept consistent by eager
//! propagation on every placement.  `solver` drives forced-move propagation
//! and backtracking search over cloned grids.  `load` builds a grid from a
//! flat list of clue values.

pub mod grid;
pub mod load;
pub mod solver;
