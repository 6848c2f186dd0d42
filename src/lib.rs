//! A Mancala-family board game engine for any number of players, with a
//! relay-capture sowing rule and an extra turn for landing in one's own store.

pub mod board;
pub mod laws;
pub mod model;
pub mod status;

mod lemmas;

pub use board::Board;
pub use status::{MoveStatus, Outcome};
