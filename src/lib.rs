//! A Sudoku analyser that solves a 9x9 puzzle the way a person does, by a
//! ranked catalogue of deductions, and rates the puzzle by what it needed.

pub mod grid;
pub mod groups;
pub mod strategy;
pub mod removal;
pub mod sudoku;
pub mod singles;
pub mod pairs;
pub mod pointing;
pub mod xwing;
pub mod driver;
pub mod collect;
pub mod laws;
pub mod soundness;
