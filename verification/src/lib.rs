//! Rule engine and move selection for a two-player disc-flipping board game
//! on a fixed 8x8 board: board state, move legality and flip computation,
//! move enumeration, and the corner-aware heuristic used by the computer
//! player.

pub mod field;
pub mod game;
pub mod occupytype;
pub mod point;
