pub mod types;
pub mod outline;
pub mod shape;
pub mod render;

pub use types::{LineSegment, Piece, RenderedLine, TextStyle};
pub use outline::{OutlineGroup, compute_outline_groups};
pub use shape::PieceShape;
