//! Sudoku core: board representation, placement rules, a backtracking
//! solver, a board validator and a puzzle generator, each with a
//! machine-checked contract.

pub mod board;
pub mod rules;
pub mod solver;
pub mod validator;
pub mod generator;
pub mod clock;
pub mod game;
pub mod api;

pub use board::{Board, CellValue, Difficulty};
pub use generator::{generate, generate_seeded};
pub use rules::is_valid_placement;
pub use solver::solve;
pub use validator::{validate, ValidationResult};
