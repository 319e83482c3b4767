use pack::parse::markdown::{build_tree, node_kind, sections_from_tree, Kind, MdEvent, MdNode};
use pack::parse::ContentItem;

fn node(kind: &str, literal: &str, level: u8) -> MdNode {
    MdNode { kind: kind.to_string(), literal: literal.to_string(), level, ordered: false }
}

fn open(kind: &str, literal: &str, level: u8) -> MdEvent {
    MdEvent::Open(node(kind, literal, level))
}

#[test]
fn well_nested_events_give_their_tree() {
    let events = vec![
        open("document", "", 0),
        open("heading", "", 2),
        open("text", "Title", 0),
        MdEvent::Close,
        MdEvent::Close,
        open("paragraph", "", 0),
        open("text", "body", 0),
        MdEvent::Close,
        MdEvent::Close,
        MdEvent::Close,
    ];
    let tree = build_tree(&events).expect("a tree");
    assert_eq!(tree.node.kind, "document");
    assert_eq!(tree.children.len(), 2);
    assert_eq!(tree.children[0].node.level, 2);
    assert_eq!(tree.children[0].children[0].node.literal, "Title");
    assert_eq!(tree.children[1].children.len(), 1);

    let sections = sections_from_tree(&tree, 2);
    assert_eq!(sections.len(), 1);
    assert_eq!(sections[0].title.as_deref(), Some("Title"));
    match &sections[0].items[0] {
        ContentItem::Paragraph { runs } => assert_eq!(runs[0].text, "body"),
        other => panic!("expected a paragraph, got {:?}", other),
    }
}

#[test]
fn events_that_are_no_traversal_give_no_tree() {
    assert!(build_tree(&vec![]).is_none());
    assert!(build_tree(&vec![MdEvent::Close]).is_none());
    assert!(build_tree(&vec![open("document", "", 0)]).is_none());
    // Two trees one after the other are not one traversal.
    let two = vec![open("a", "", 0), MdEvent::Close, open("b", "", 0), MdEvent::Close];
    assert!(build_tree(&two).is_none());
    let extra_close = vec![open("a", "", 0), MdEvent::Close, MdEvent::Close];
    assert!(build_tree(&extra_close).is_none());
}

#[test]
fn node_kinds_follow_comrak_names() {
    assert_eq!(node_kind(&node("heading", "", 1)), Kind::Heading);
    assert_eq!(node_kind(&node("softbreak", "", 0)), Kind::Break);
    assert_eq!(node_kind(&node("linebreak", "", 0)), Kind::Break);
    assert_eq!(node_kind(&node("code_block", "x", 0)), Kind::CodeBlock);
    assert_eq!(node_kind(&node("block_quote", "", 0)), Kind::BlockQuote);
    assert_eq!(node_kind(&node("thematic_break", "", 0)), Kind::ThematicBreak);
    assert_eq!(node_kind(&node("taskitem", "", 0)), Kind::Other);
    assert_eq!(node_kind(&node("html_block", "", 0)), Kind::Other);
}
