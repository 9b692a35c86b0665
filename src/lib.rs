//! A 9×9 Sudoku solver: candidate tracking, logical deduction and
//! depth-first search, with contracts checked by Verus.
pub mod bits;
pub mod sets;
pub mod geometry;
pub mod puzzle;
pub mod tech;
pub mod solver;
