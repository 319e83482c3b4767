//! Extraction of pieces from markdown, with text outlines of the pieces.
pub mod types;
pub mod outline;

pub use outline::render_outline;
pub use types::{ExtractConfig, LineSegment, OutlineGroup, Piece, RenderedLine, TextStyle};

use vstd::prelude::*;
use crate::parse::markdown::parse_markdown;
use crate::parse::{
    all_fit, document_sections, renders_sections, pieces_from_sections, sections_fit,
};

verus! {

/// Splits a markdown document into sections and renders each into a piece.
pub fn extract_pieces(markdown: &str, config: &ExtractConfig) -> (pieces: Vec<Piece>)
    requires
        all_fit(document_sections(markdown@, config.split_level)),
    ensures
        renders_sections(pieces@, document_sections(markdown@, config.split_level), config.max_width as nat),
{
    let sections = parse_markdown(markdown, config.split_level);
    pieces_from_sections(&sections, config.max_width)
}

/// `extract_pieces` on documents whose sections can all be rendered;
/// `None` for a document with a section too large to render.
pub fn try_extract_pieces(markdown: &str, config: &ExtractConfig) -> (r: Option<Vec<Piece>>)
    ensures
        r is Some <==> all_fit(document_sections(markdown@, config.split_level)),
        r matches Some(pieces) ==> renders_sections(
            pieces@,
            document_sections(markdown@, config.split_level),
            config.max_width as nat,
        ),
{
    let sections = parse_markdown(markdown, config.split_level);
    if sections_fit(&sections) {
        Some(extract_pieces(markdown, config))
    } else {
        None
    }
}

} // verus!
