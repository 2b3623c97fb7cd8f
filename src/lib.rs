//! A 9x9 Sudoku grid, a validator for its row/column/box rule and a
//! backtracking solver, with their contracts proved.

pub mod grid;
pub mod solver;
pub mod session;
