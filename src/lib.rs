//! A solver for variable-size Sudoku puzzles, with side lengths that are
//! perfect squares (4, 9, 16, ...), built from constraint propagation and
//! randomized backtracking search.
pub mod square;
pub mod board;
pub mod solver;
pub mod radix;
