//! A verified Futoshiki-on-Sudoku puzzle engine.
//!
//! The library synthesizes a fully solved 9x9 Sudoku grid, derives the
//! complete set of "less than" ordering relations between adjacent cells,
//! and assembles puzzles whose unique solvability is established by an
//! exhaustive constraint-propagating search with a solution-count cap.

pub mod futoshiki;
pub mod generator;
pub mod pattern;
pub mod rng;
pub mod solver;
pub mod sudoku;
