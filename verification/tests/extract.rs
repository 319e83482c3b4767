use pack::extract::{self, ExtractConfig};
use pack::parse::{self, ParseConfig};
use pack::piece::{Piece, TextStyle};

fn texts(p: &Piece) -> Vec<String> {
    p.lines.iter().map(|l| l.text()).collect()
}

fn cfg(split_level: u8, max_width: usize) -> ParseConfig {
    ParseConfig { split_level, max_width }
}

#[test]
fn default_configs() {
    let c = ParseConfig::default();
    assert_eq!(c.split_level, 2);
    assert_eq!(c.max_width, 40);
    let e = ExtractConfig::default();
    assert_eq!(e.split_level, 2);
    assert_eq!(e.max_width, 40);
}

#[test]
fn one_piece_per_section_in_order() {
    let ps = parse::extract_pieces("## A\n\nhello world\n\n## B\n\nbye\n", &ParseConfig::default());
    assert_eq!(ps.len(), 2);
    assert_eq!(ps[0].section_index, 0);
    assert_eq!(ps[0].title.as_deref(), Some("A"));
    assert_eq!(texts(&ps[0]), vec!["A", "hello world"]);
    assert_eq!(ps[0].widths(), vec![1, 11]);
    assert_eq!(ps[0].lines[0].segments[0].style, TextStyle::Bold);
    assert_eq!(ps[1].section_index, 1);
    assert_eq!(texts(&ps[1]), vec!["B", "bye"]);
}

#[test]
fn extract_module_gives_the_same_pieces() {
    let doc = "intro\n\n## A\n\n- x\n- y\n";
    let a = parse::extract_pieces(doc, &cfg(2, 40));
    let b = extract::extract_pieces(doc, &ExtractConfig { split_level: 2, max_width: 40 });
    assert_eq!(a.len(), b.len());
    for (p, q) in a.iter().zip(b.iter()) {
        assert_eq!(texts(p), texts(q));
        assert_eq!(p.title, q.title);
        assert_eq!(p.section_index, q.section_index);
    }
    assert_eq!(texts(&a[0]), vec!["intro"]);
    assert_eq!(a[0].title, None);
    assert_eq!(texts(&a[1]), vec!["A", "• x", "• y"]);
}

#[test]
fn try_extract_succeeds_on_ordinary_documents() {
    let doc = "## A\n\nsome text\n";
    let ps = parse::try_extract_pieces(doc, &ParseConfig::default()).expect("pieces");
    assert_eq!(texts(&ps[0]), vec!["A", "some text"]);
    let ps2 = extract::try_extract_pieces(doc, &ExtractConfig::default()).expect("pieces");
    assert_eq!(texts(&ps2[0]), vec!["A", "some text"]);
}

#[test]
fn paragraphs_wrap_at_the_width() {
    let ps = parse::extract_pieces("one two three four\n", &cfg(2, 10));
    assert_eq!(texts(&ps[0]), vec!["one two", "three four"]);
    assert_eq!(ps[0].widths(), vec![7, 10]);
}

#[test]
fn a_word_longer_than_the_width_stands_alone() {
    let ps = parse::extract_pieces("a abcdefghijkl b\n", &cfg(2, 5));
    assert_eq!(texts(&ps[0]), vec!["a", "abcdefghijkl", "b"]);
}

#[test]
fn styles_split_segments_but_not_lines() {
    let ps = parse::extract_pieces("plain **bold** tail\n", &cfg(2, 40));
    let line = &ps[0].lines[0];
    let segs: Vec<(String, TextStyle)> = line.segments.iter().map(|s| (s.text.clone(), s.style)).collect();
    assert_eq!(
        segs,
        vec![
            ("plain".to_string(), TextStyle::Normal),
            (" bold".to_string(), TextStyle::Bold),
            (" tail".to_string(), TextStyle::Normal),
        ]
    );
    assert_eq!(line.width, 15);
}

#[test]
fn words_glued_across_styles_stay_glued() {
    let ps = parse::extract_pieces("a**b**c\n", &cfg(2, 40));
    assert_eq!(texts(&ps[0]), vec!["abc"]);
}

#[test]
fn lists_get_bullets_and_indents() {
    let ps = parse::extract_pieces("- alpha beta\n  - inner\n\n1. first\n2. second\n", &cfg(2, 40));
    assert_eq!(texts(&ps[0]), vec!["• alpha beta", "  · inner", "1. first", "2. second"]);
}

#[test]
fn list_entries_wrap_under_their_text() {
    let ps = parse::extract_pieces("- aaa bbb ccc\n", &cfg(2, 9));
    assert_eq!(texts(&ps[0]), vec!["• aaa bbb", "  ccc"]);
}

#[test]
fn code_blocks_keep_their_lines() {
    let ps = parse::extract_pieces("```\nlet x = 1;\n\n  y\n```\n", &cfg(2, 5));
    assert_eq!(texts(&ps[0]), vec!["let x = 1;", "", "  y"]);
    assert_eq!(ps[0].lines[0].segments[0].style, TextStyle::Code);
}

#[test]
fn tables_join_cells() {
    let ps = parse::extract_pieces("| a | b |\n|---|---|\n| 1 | 22 |\n", &cfg(2, 40));
    assert_eq!(texts(&ps[0]), vec!["a │ b", "1 │ 22"]);
    assert_eq!(ps[0].lines[0].segments[0].style, TextStyle::Bold);
    assert_eq!(ps[0].lines[1].segments[0].style, TextStyle::Normal);
}

#[test]
fn rules_and_quotes_render() {
    let ps = parse::extract_pieces("a\n\n---\n\n> hi there\n", &cfg(2, 40));
    assert_eq!(texts(&ps[0]), vec!["a", "───", "  hi there"]);
    let quoted = &ps[0].lines[2];
    assert_eq!(quoted.segments[0].text, "  ");
    assert_eq!(quoted.width, 10);
}

#[test]
fn quotes_wrap_within_the_indent() {
    let ps = parse::extract_pieces("> aaa bbb\n", &cfg(2, 6));
    assert_eq!(texts(&ps[0]), vec!["  aaa", "  bbb"]);
}

#[test]
fn subheadings_render_bold() {
    let ps = parse::extract_pieces("## A\n\n### B\n", &cfg(2, 40));
    assert_eq!(texts(&ps[0]), vec!["A", "B"]);
    assert_eq!(ps[0].lines[1].segments[0].style, TextStyle::Bold);
}

#[test]
fn extracted_pieces_get_outlines() {
    let ps = parse::extract_pieces("## Ab\n\nabcd\n", &cfg(2, 40));
    assert_eq!(extract::render_outline(&ps[0]), vec!["┌────┐", "│Ab  │", "│abcd│", "└────┘"]);
}
