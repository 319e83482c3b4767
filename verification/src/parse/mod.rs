//! Turning a markdown document into rendered pieces.
pub mod types;
pub mod markdown;

pub use types::{ContentItem, ListEntry, Section, TextRun};

use vstd::prelude::*;
use crate::piece::types::Piece;
use crate::piece::render::{
    render_piece, section_fits, section_fits_check, section_lines, lines_view, widths_exact,
};
use types::{SectionView, sections_view, section_view};
use markdown::{parse_markdown, sections_of, doc_tree};

verus! {

/// How a document is split and wrapped.
pub struct ParseConfig {
    /// Sections start at headings of this level.
    pub split_level: u8,
    /// Lines are wrapped to this many columns.
    pub max_width: usize,
}

impl Default for ParseConfig {
    fn default() -> (c: Self)
        ensures
            c.split_level == 2,
            c.max_width == 40,
    {
        ParseConfig { split_level: 2, max_width: 40 }
    }
}

/// Every section is small enough to be rendered without overflow.
pub open spec fn all_fit(sections: Seq<SectionView>) -> bool {
    forall|i: int| 0 <= i < sections.len() ==> section_fits(#[trigger] sections[i])
}

/// `pieces` are `sections` rendered in order: piece `i` comes from
/// section `i`, has its title and its lines wrapped to `max_width`.
pub open spec fn renders_sections(pieces: Seq<Piece>, sections: Seq<SectionView>, max_width: nat) -> bool {
    &&& pieces.len() == sections.len()
    &&& forall|i: int|
        0 <= i < pieces.len() ==> {
            &&& (#[trigger] pieces[i]).section_index == i
            &&& types::title_view(pieces[i].title) == sections[i].title
            &&& lines_view(pieces[i].lines@) == section_lines(sections[i], max_width)
            &&& widths_exact(pieces[i].lines@)
        }
}

/// The sections of a document, in order, as plain values.
pub open spec fn document_sections(input: Seq<char>, split_level: u8) -> Seq<SectionView> {
    sections_of(doc_tree(input), split_level)
}

/// Renders every section into a piece numbered by its position.
pub fn pieces_from_sections(sections: &Vec<Section>, max_width: usize) -> (pieces: Vec<Piece>)
    requires
        all_fit(sections_view(sections@)),
    ensures
        renders_sections(pieces@, sections_view(sections@), max_width as nat),
{
    let ghost sv = sections_view(sections@);
    let mut pieces: Vec<Piece> = Vec::new();
    let mut i: usize = 0;
    while i < sections.len()
        invariant
            i <= sections.len(),
            sv == sections_view(sections@),
            all_fit(sv),
            renders_sections(pieces@, sv.take(i as int), max_width as nat),
        decreases sections.len() - i,
    {
        assert(sv[i as int] == section_view(sections@[i as int]));
        assert(section_fits(sv[i as int]));
        let p = render_piece(&sections[i], i, max_width);
        pieces.push(p);
        i += 1;
        assert forall|k: int| 0 <= k < pieces@.len() implies {
            &&& (#[trigger] pieces@[k]).section_index == k
            &&& types::title_view(pieces@[k].title) == sv.take(i as int)[k].title
            &&& lines_view(pieces@[k].lines@) == section_lines(sv.take(i as int)[k], max_width as nat)
            &&& widths_exact(pieces@[k].lines@)
        } by {
            if k < i - 1 {
                assert(sv.take(i as int)[k] == sv.take(i - 1)[k]);
            }
        }
    }
    assert(sv.take(sections.len() as int) =~= sv);
    pieces
}

/// Whether every section is small enough to be rendered.
pub fn sections_fit(sections: &Vec<Section>) -> (b: bool)
    ensures
        b == all_fit(sections_view(sections@)),
{
    let ghost sv = sections_view(sections@);
    let mut i: usize = 0;
    while i < sections.len()
        invariant
            i <= sections.len(),
            sv == sections_view(sections@),
            forall|k: int| 0 <= k < i ==> section_fits(#[trigger] sv[k]),
        decreases sections.len() - i,
    {
        if !section_fits_check(&sections[i]) {
            assert(!section_fits(sv[i as int]));
            return false;
        }
        i += 1;
    }
    true
}

/// Splits a markdown document into sections and renders each into a piece.
pub fn extract_pieces(input: &str, config: &ParseConfig) -> (pieces: Vec<Piece>)
    requires
        all_fit(document_sections(input@, config.split_level)),
    ensures
        renders_sections(pieces@, document_sections(input@, config.split_level), config.max_width as nat),
{
    let sections = parse_markdown(input, config.split_level);
    pieces_from_sections(&sections, config.max_width)
}

/// `extract_pieces` on documents whose sections can all be rendered;
/// `None` for a document with a section too large to render.
pub fn try_extract_pieces(input: &str, config: &ParseConfig) -> (r: Option<Vec<Piece>>)
    ensures
        r is Some <==> all_fit(document_sections(input@, config.split_level)),
        r matches Some(pieces) ==> renders_sections(
            pieces@,
            document_sections(input@, config.split_level),
            config.max_width as nat,
        ),
{
    let sections = parse_markdown(input, config.split_level);
    if sections_fit(&sections) {
        Some(extract_pieces(input, config))
    } else {
        None
    }
}

} // verus!
