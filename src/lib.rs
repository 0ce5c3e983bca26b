//! A sliding-tile puzzle whose tiles are cut from a square picture and drawn
//! into a character terminal with half-block glyphs.
pub mod board;
pub mod puzzle;
pub mod render;

pub use board::{Board, BoardBuilder, BuildError};
pub use puzzle::Direction;
pub use render::{Color, DrawOp, Glyph, Run};
