//! A Reversi/Othello engine on a configurable rectangular board: move
//! legality and capture logic, plus an alpha-beta game-tree search that
//! selects moves for an automated player.

pub mod board;
pub mod color;
pub mod cpu;
pub mod game;
