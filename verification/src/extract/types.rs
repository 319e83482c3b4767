//! The types of extraction: its configuration, and the piece types it shares
//! with the rest of the crate.
pub use crate::piece::types::{LineSegment, Piece, RenderedLine, TextStyle};
pub use crate::piece::outline::OutlineGroup;
pub use crate::parse::types::{ContentItem, ListEntry, Section, TextRun};

use vstd::prelude::*;

verus! {

/// How a document is split and wrapped.
pub struct ExtractConfig {
    /// Sections start at headings of this level.
    pub split_level: u8,
    /// Lines are wrapped to this many columns.
    pub max_width: usize,
}

impl Default for ExtractConfig {
    fn default() -> (c: Self)
        ensures
            c.split_level == 2,
            c.max_width == 40,
    {
        ExtractConfig { split_level: 2, max_width: 40 }
    }
}

} // verus!
