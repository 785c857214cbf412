//! The 2048 game: the rules of the board, and what drives it.
pub mod event;
pub mod game;
pub mod slide;
