pub mod grid;
pub mod placement;

pub use grid::Board;
pub use placement::{Anchor, PlacedPiece};
