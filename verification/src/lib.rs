//! A verified Connect Four engine.
//!
//! The library owns the full game logic: the board with gravity-based token
//! placement, move validity, diagonal extraction, run-length win detection,
//! and the turn machinery with its configuration checks. Rendering, argument
//! parsing and console input live outside the library and talk to it through
//! plain values.

pub mod board;
pub mod game;
pub mod player;

pub use board::Board;
pub use game::Game;
pub use player::Player;
