//! A Minesweeper engine: a grid of tiles, mine placement, the cascading
//! reveal of empty regions, and win/loss detection.
pub mod board;
pub mod count;
pub mod game;

pub use board::{Board, MineOrHint, Tile};
pub use game::{Game, GameError, GameView, Winstate};
