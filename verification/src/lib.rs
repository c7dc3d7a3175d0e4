//! A Sudoku engine: a candidate-tracking board, a family of deductive
//! elimination strategies and a backtracking search, each with a contract
//! that Verus proves.

pub mod board;
pub mod cell;
pub mod combinatorics;
pub mod digits;
pub mod geometry;
pub mod grid;
pub mod rules;
pub mod solvers;
pub mod strategy;
pub mod subset;
pub mod utils;

pub use board::Board;
pub use cell::Cell;
pub use digits::InvalidInput;
pub use strategy::Strategy;
pub use subset::Subset;
pub use geometry::{BoardIndexFormulas, Orientation, SubsetIndexToSubset};
