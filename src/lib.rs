//! Exact cover solver (Algorithm X with the minimum-remaining-values rule),
//! with reductions of Sudoku, N-Queens and a string-based toy problem.
pub mod incidence;
pub mod basic_example;
pub mod engine;
pub mod exact_cover;
pub mod nqueens;
pub mod priority_index;
pub mod search;
pub mod sudoku;
mod text;
