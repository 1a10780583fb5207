//! A brute-force backtracking sudoku solver with machine-checked contracts.
pub mod grid;
pub mod validate;
pub mod solve;
pub mod text;
