//! Sanqi (三棋) board game: rules, search engine and rendering.
use vstd::prelude::*;

pub mod board;
pub mod clock;
pub mod counting;
pub mod eval;
pub mod frontend;
pub mod game;
pub mod interactive;
pub mod movetext;
pub mod position;
pub mod render;
pub mod search;
pub mod table;
pub mod text;
pub mod zobrist;

verus! {
}
