//! Spelling-bee game rules: puzzles, word validation, scoring and ranks, and
//! the state of one game as it is played.

pub mod dictionary;
pub mod game;
pub mod properties;
pub mod session;
pub mod text;
