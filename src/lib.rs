//! A 9x9 Sudoku encoded as a constraint model over 8-bit solver terms.
//!
//! `peers` derives which cells must differ, `grid` loads a puzzle, `model`
//! builds the terms and assertions to hand to a solver, and `solution` reads
//! the solver's verdict and model back, handing on only a checked solution.

pub mod grid;
pub mod model;
pub mod peers;
pub mod solution;
