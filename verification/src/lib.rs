//! A 9×9 Sudoku solving engine: a board that tracks, for every cell, the
//! values its peers still leave open, and a backtracking search that always
//! commits to the most constrained cell first.

pub mod grid;
pub mod rules;
pub mod board;
pub mod search;
pub mod text;
