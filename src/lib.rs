//! A 9x9 Sudoku engine with the game rules around it.
//!
//! `puzzle` holds the engine: a backtracking solver that returns the first
//! solution in row-major order, a solution counter capped at two, a randomized
//! full-grid generator and a reducer that clears cells while the solution stays
//! unique. `rules` states what these are proved against, and the laws that
//! follow. `state`, `history`, `input`, `session` and `leaderboard` hold the
//! game built on the engine; `layout` and `text` size and write the drawn board.
pub mod history;
pub mod input;
pub mod layout;
pub mod leaderboard;
pub mod puzzle;
pub mod rules;
pub mod session;
pub mod state;
pub mod text;
