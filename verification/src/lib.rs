//! Sudoku boards and two ways of completing them: exhaustive backtracking
//! search and simulated annealing.

pub mod cost;
pub mod grid;
pub mod random;
pub mod rules;
pub mod search;
pub mod solver;
pub mod text;
