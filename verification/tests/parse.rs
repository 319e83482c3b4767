use pack::parse::markdown::parse_markdown;
use pack::parse::{ContentItem, ListEntry, Section, TextRun};
use pack::piece::TextStyle;

fn runs(rs: &[TextRun]) -> Vec<(String, TextStyle)> {
    rs.iter().map(|r| (r.text.clone(), r.style)).collect()
}

fn para(item: &ContentItem) -> Vec<(String, TextStyle)> {
    match item {
        ContentItem::Paragraph { runs: rs } => runs(rs),
        other => panic!("expected a paragraph, got {:?}", other),
    }
}

fn s(t: &str) -> String {
    t.to_string()
}

fn title(sec: &Section) -> Option<&str> {
    sec.title.as_deref()
}

#[test]
fn a_heading_starts_a_section() {
    let secs = parse_markdown("# Title\n\nHello *world*\n", 1);
    assert_eq!(secs.len(), 1);
    assert_eq!(title(&secs[0]), Some("Title"));
    assert_eq!(secs[0].items.len(), 1);
    assert_eq!(
        para(&secs[0].items[0]),
        vec![(s("Hello "), TextStyle::Normal), (s("world"), TextStyle::Italic)]
    );
}

#[test]
fn text_before_the_first_heading_is_an_untitled_section() {
    let secs = parse_markdown("intro\n\n## A\n\ntext\n\n## B\n", 2);
    assert_eq!(secs.len(), 3);
    assert_eq!(title(&secs[0]), None);
    assert_eq!(para(&secs[0].items[0]), vec![(s("intro"), TextStyle::Normal)]);
    assert_eq!(title(&secs[1]), Some("A"));
    assert_eq!(para(&secs[1].items[0]), vec![(s("text"), TextStyle::Normal)]);
    assert_eq!(title(&secs[2]), Some("B"));
    assert!(secs[2].items.is_empty());
}

#[test]
fn other_headings_stay_inside_the_section() {
    let secs = parse_markdown("## A\n\n### Sub\n\nx\n\n# Top\n", 2);
    assert_eq!(secs.len(), 1);
    assert_eq!(secs[0].items.len(), 3);
    match &secs[0].items[0] {
        ContentItem::Heading { level, text } => {
            assert_eq!(*level, 3);
            assert_eq!(text, "Sub");
        }
        other => panic!("expected a heading, got {:?}", other),
    }
    match &secs[0].items[2] {
        ContentItem::Heading { level, text } => {
            assert_eq!(*level, 1);
            assert_eq!(text, "Top");
        }
        other => panic!("expected a heading, got {:?}", other),
    }
}

#[test]
fn an_empty_document_has_no_section() {
    assert!(parse_markdown("", 2).is_empty());
    assert!(parse_markdown("\n\n", 1).is_empty());
}

#[test]
fn the_split_level_decides_the_sections() {
    let doc = "# A\n\n## B\n\nx\n";
    let by_top = parse_markdown(doc, 1);
    assert_eq!(by_top.len(), 1);
    assert_eq!(title(&by_top[0]), Some("A"));
    let by_second = parse_markdown(doc, 2);
    assert_eq!(by_second.len(), 2);
    assert_eq!(title(&by_second[0]), None);
    assert_eq!(title(&by_second[1]), Some("B"));
}

#[test]
fn inline_styles_become_runs() {
    let secs = parse_markdown("**b** and `c` *i **bi***\n", 2);
    assert_eq!(
        para(&secs[0].items[0]),
        vec![
            (s("b"), TextStyle::Bold),
            (s(" and "), TextStyle::Normal),
            (s("c"), TextStyle::Code),
            (s(" "), TextStyle::Normal),
            (s("i "), TextStyle::Italic),
            (s("bi"), TextStyle::BoldItalic),
        ]
    );
}

#[test]
fn line_breaks_become_spaces() {
    let secs = parse_markdown("a\nb\n", 2);
    assert_eq!(
        para(&secs[0].items[0]),
        vec![(s("a"), TextStyle::Normal), (s(" "), TextStyle::Normal), (s("b"), TextStyle::Normal)]
    );
}

#[test]
fn heading_titles_collect_their_text() {
    let secs = parse_markdown("## Use `pack` *now*\n", 2);
    assert_eq!(title(&secs[0]), Some("Use pack now"));
}

fn entry_text(e: &ListEntry) -> String {
    e.runs.iter().map(|r| r.text.as_str()).collect()
}

#[test]
fn lists_keep_their_nesting() {
    let secs = parse_markdown("- one\n- two\n  - inner\n", 2);
    match &secs[0].items[0] {
        ContentItem::List { items, ordered } => {
            assert!(!*ordered);
            assert_eq!(items.len(), 2);
            assert_eq!(entry_text(&items[0]), "one");
            assert!(items[0].children.is_empty());
            assert_eq!(entry_text(&items[1]), "two");
            assert_eq!(items[1].children.len(), 1);
            assert_eq!(entry_text(&items[1].children[0]), "inner");
        }
        other => panic!("expected a list, got {:?}", other),
    }
}

#[test]
fn ordered_lists_are_marked() {
    let secs = parse_markdown("1. a\n2. b\n", 2);
    match &secs[0].items[0] {
        ContentItem::List { items, ordered } => {
            assert!(*ordered);
            assert_eq!(items.len(), 2);
        }
        other => panic!("expected a list, got {:?}", other),
    }
}

#[test]
fn code_blocks_keep_their_text() {
    let secs = parse_markdown("```\nx = 1\ny\n```\n", 2);
    match &secs[0].items[0] {
        ContentItem::CodeBlock { code } => assert_eq!(code, "x = 1\ny\n"),
        other => panic!("expected code, got {:?}", other),
    }
}

#[test]
fn tables_keep_headers_and_rows() {
    let secs = parse_markdown("| a | b |\n|---|---|\n| 1 | 2 |\n| 3 | 4 |\n", 2);
    match &secs[0].items[0] {
        ContentItem::Table { headers, rows } => {
            assert_eq!(headers, &vec![s("a"), s("b")]);
            assert_eq!(rows, &vec![vec![s("1"), s("2")], vec![s("3"), s("4")]]);
        }
        other => panic!("expected a table, got {:?}", other),
    }
}

#[test]
fn rules_and_quotes() {
    let secs = parse_markdown("a\n\n---\n\n> quoted\n", 2);
    assert_eq!(secs[0].items.len(), 3);
    assert!(matches!(secs[0].items[1], ContentItem::Rule));
    match &secs[0].items[2] {
        ContentItem::BlockQuote { items } => {
            assert_eq!(items.len(), 1);
            assert_eq!(para(&items[0]), vec![(s("quoted"), TextStyle::Normal)]);
        }
        other => panic!("expected a quote, got {:?}", other),
    }
}

#[test]
fn html_blocks_are_left_out() {
    let secs = parse_markdown("## A\n\n<div>x</div>\n\ntext\n", 2);
    assert_eq!(secs[0].items.len(), 1);
    assert_eq!(para(&secs[0].items[0]), vec![(s("text"), TextStyle::Normal)]);
}

#[test]
fn splitting_keeps_every_block_in_order() {
    let doc = "p1\n\n## A\n\np2\n\n---\n\n## B\n\n## C\n\n- l\n\n### D\n";
    let secs = parse_markdown(doc, 2);
    let titles: Vec<Option<&str>> = secs.iter().map(|s| title(s)).collect();
    assert_eq!(titles, vec![None, Some("A"), Some("B"), Some("C")]);
    let kinds: Vec<&str> = secs
        .iter()
        .flat_map(|s| s.items.iter())
        .map(|i| match i {
            ContentItem::Paragraph { .. } => "paragraph",
            ContentItem::Rule => "rule",
            ContentItem::List { .. } => "list",
            ContentItem::Heading { .. } => "heading",
            _ => "other",
        })
        .collect();
    assert_eq!(kinds, vec!["paragraph", "paragraph", "rule", "list", "heading"]);
    assert!(secs.iter().all(|s| s.title.is_some() || !s.items.is_empty()));
}

#[test]
fn task_items_are_not_list_entries() {
    let secs = parse_markdown("- [ ] todo\n- [x] done\n", 2);
    match &secs[0].items[0] {
        ContentItem::List { items, ordered } => {
            assert!(!*ordered);
            assert!(items.is_empty());
        }
        other => panic!("expected a list, got {:?}", other),
    }
}

#[test]
fn sections_can_be_copied() {
    let secs = parse_markdown("## A\n\n- x\n  - y\n\n> q\n\n| a |\n|---|\n| 1 |\n", 2);
    let copy = secs.clone();
    assert_eq!(format!("{:?}", secs), format!("{:?}", copy));
    let item = secs[0].items[1].clone();
    assert_eq!(format!("{:?}", item), format!("{:?}", secs[0].items[1]));
}
