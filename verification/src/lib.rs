//! A PGN viewer's core: SAN moves, a PGN parser, and a chess game state that
//! replays parsed moves on a board.
//!
//! [`parser`] turns PGN text into moves, [`game`] replays them on a board,
//! [`viewer`] holds the navigation state of the terminal viewer, and
//! [`display`] builds the text it draws.

pub mod action;
pub mod board_grid;
pub mod display;
pub mod game;
pub mod parser;
pub mod text;
pub mod viewer;
