//! Packing markdown sections onto a character board.
//!
//! Markdown is split into sections, each section is rendered into a
//! piece of wrapped text lines, every piece gets an outline of
//! contiguous line groups, and pieces are placed on a fixed-width board.
pub mod text;
pub mod piece;
pub mod board;
pub mod tui;
pub mod parse;
pub mod extract;
pub mod export;
