//! A constraint-propagation solver for 9x9 Sudoku grids.
pub mod board;
pub mod cell;
