//! Minesweeper: the board, its rules and the decisions of the game loop.
pub mod board;
pub mod clock;
pub mod cell;
pub mod config;
pub mod controls;
pub mod game;
pub mod laws;
pub mod rules;
pub mod uncover;
mod shuffle;
