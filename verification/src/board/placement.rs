//! Where a piece sits on the board.
use vstd::prelude::*;
use crate::piece::PieceShape;

verus! {

/// The top-left cell of a placed piece.
#[derive(Debug, Clone, Copy)]
pub struct Anchor {
    pub x: usize,
    pub y: usize,
}

/// A piece on the board: which piece, where, and its silhouette.
#[derive(Debug, Clone)]
pub struct PlacedPiece {
    pub piece_index: usize,
    pub anchor: Anchor,
    pub shape: PieceShape,
}

/// Whether cell `(x, y)` lies in a shape with the given row widths
/// anchored at `a`.
pub open spec fn covers(rows: Seq<usize>, a: Anchor, x: int, y: int) -> bool {
    &&& a.y <= y < a.y + rows.len()
    &&& a.x <= x < a.x + rows[y - a.y]
}

/// No coordinate of a shape anchored at `a` overflows a `usize`.
pub open spec fn anchor_fits(rows: Seq<usize>, a: Anchor) -> bool {
    &&& a.y + rows.len() <= usize::MAX
    &&& forall|r: int| 0 <= r < rows.len() ==> a.x + #[trigger] rows[r] <= usize::MAX
}

} // verus!
