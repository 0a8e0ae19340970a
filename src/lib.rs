//! A line-propagation solver for nonogram puzzles.
pub mod board;
pub mod line;
pub mod solver;
pub mod nonogram_solver;
pub mod game;
pub mod sound;
