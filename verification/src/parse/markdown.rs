//! Markdown to sections: comrak parses, the document tree is rebuilt from
//! comrak's traversal, and sections are cut at headings of the split level.
use vstd::prelude::*;
use comrak::{Arena, Options, parse_document};
use comrak::arena_tree::NodeEdge;
use comrak::nodes::{ListType, NodeValue};
use crate::piece::TextStyle;
use crate::text::{push_chars, chars_of, push_char};
use super::types::{
    ContentItem, ListEntry, Section, TextRun, RunView, runs_view, ItemView, EntryView, SectionView,
    entry_view, entries_view, item_view, items_view, section_view, lemma_entries_view, lemma_items_view,
    table_rows_view, title_view, lemma_entries_view_push, lemma_items_view_push, sections_view,
    opt_entry_view, opt_item_view,
};
use crate::text::strings_view;

verus! {

#[verifier::external_type_specification]
#[verifier::external_body]
pub struct ExNodeValue(NodeValue);

/// One node of a parsed markdown document, as plain values.
#[derive(Debug)]
pub struct MdNode {
    /// The node's kind as comrak names it (`"paragraph"`, `"heading"`, ...).
    pub kind: String,
    /// The text of a text node, or the literal of inline code or a code block.
    pub literal: String,
    /// The level of a heading (0 for other nodes).
    pub level: u8,
    /// Whether a list is ordered (false for other nodes).
    pub ordered: bool,
}

/// An event of a depth-first traversal: a node starts, or the innermost
/// started node ends.
#[derive(Debug)]
pub enum MdEvent {
    Open(MdNode),
    Close,
}

/// A document tree.
#[derive(Debug)]
pub struct MdTree {
    pub node: MdNode,
    pub children: Vec<MdTree>,
}

/// A node as plain values: kind, literal, level, ordered.
pub type NodeView = (Seq<char>, Seq<char>, u8, bool);

/// An event as plain values: `Some(node)` opens a node, `None` closes one.
pub type EventView = Option<NodeView>;

/// A document tree as plain values.
pub struct TreeView {
    pub node: NodeView,
    pub children: Seq<TreeView>,
}

pub open spec fn node_view(n: MdNode) -> NodeView {
    (n.kind@, n.literal@, n.level, n.ordered)
}

pub open spec fn event_view(e: MdEvent) -> EventView {
    match e {
        MdEvent::Open(n) => Some(node_view(n)),
        MdEvent::Close => None,
    }
}

pub open spec fn events_view(es: Seq<MdEvent>) -> Seq<EventView> {
    es.map_values(|e: MdEvent| event_view(e))
}

/// The traversal events comrak gives for `input`, parsed as CommonMark with
/// the table, strikethrough and task list extensions: the document node
/// first, every node's start before its children and its end after them.
pub uninterp spec fn commonmark_events(input: Seq<char>) -> Seq<EventView>;

/// The events of a depth-first traversal of a tree.
pub open spec fn ser(t: TreeView) -> Seq<EventView>
    decreases t,
{
    seq![Some(t.node)] + ser_forest(t.children, t.children.len() as int) + seq![None]
}

/// The traversal events of the first `k` trees, one after the other.
pub open spec fn ser_forest(ts: Seq<TreeView>, k: int) -> Seq<EventView>
    decreases ts, k,
{
    if k <= 0 || k > ts.len() {
        Seq::empty()
    } else {
        ser_forest(ts, k - 1) + ser(ts[k - 1])
    }
}

pub open spec fn tree_view(t: MdTree) -> TreeView
    decreases t,
{
    TreeView { node: node_view(t.node), children: trees_view(t.children@, t.children@.len() as int) }
}

/// The views of the first `k` trees.
pub open spec fn trees_view(ts: Seq<MdTree>, k: int) -> Seq<TreeView>
    decreases ts, k,
{
    if k <= 0 || k > ts.len() {
        Seq::empty()
    } else {
        trees_view(ts, k - 1).push(tree_view(ts[k - 1]))
    }
}

pub proof fn lemma_trees_view(ts: Seq<MdTree>, k: int)
    requires
        0 <= k <= ts.len(),
    ensures
        trees_view(ts, k).len() == k,
        forall|i: int| 0 <= i < k ==> #[trigger] trees_view(ts, k)[i] == tree_view(ts[i]),
    decreases k,
{
    if k > 0 {
        lemma_trees_view(ts, k - 1);
    }
}

/// Converts one comrak node value: its XML node name
/// (`NodeValue::xml_node_name`) and the fields the sections read, moved
/// over unchanged.
#[verifier::external_body]
fn md_node(value: &NodeValue) -> MdNode {
    MdNode {
        kind: value.xml_node_name().to_string(),
        literal: match value {
            NodeValue::Text(t) => t.to_string(),
            NodeValue::Code(c) => c.literal.clone(),
            NodeValue::CodeBlock(b) => b.literal.clone(),
            _ => String::new(),
        },
        level: match value { NodeValue::Heading(h) => h.level, _ => 0 },
        ordered: match value { NodeValue::List(l) => l.list_type == ListType::Ordered, _ => false },
    }
}

/// Parses `input` with comrak (`comrak::parse_document`, with the table,
/// strikethrough and task list extensions) and returns the events of the
/// document tree's traversal (`Node::traverse`). The result is named
/// `commonmark_events(input)`; the traversal of a tree is well nested, so
/// it is the traversal of some tree.
#[verifier::external_body]
fn parse_commonmark(input: &str) -> (events: Vec<MdEvent>)
    ensures
        events_view(events@) == commonmark_events(input@),
        exists|t: TreeView| ser(t) == events_view(events@),
{
    let arena = Arena::new();
    let mut options = Options::default();
    options.extension.table = true;
    options.extension.strikethrough = true;
    options.extension.tasklist = true;
    let root = parse_document(&arena, input, &options);
    root.traverse().map(|edge| match edge {
        NodeEdge::Start(n) => MdEvent::Open(md_node(&n.data.borrow().value)),
        NodeEdge::End(_) => MdEvent::Close,
    }).collect()
}

// ---------------------------------------------------------------------
// Rebuilding the tree from its traversal
// ---------------------------------------------------------------------

/// The traversal of `t` stands in `ev` from `pos` on.
pub open spec fn ser_at(ev: Seq<EventView>, pos: int, t: TreeView) -> bool {
    &&& 0 <= pos
    &&& pos + ser(t).len() <= ev.len()
    &&& ev.subrange(pos, pos + ser(t).len()) == ser(t)
}

proof fn lemma_ser_forest_prefix(ts: Seq<TreeView>, j: int, m: int)
    requires
        0 <= j <= m <= ts.len(),
    ensures
        ser_forest(ts, j).len() <= ser_forest(ts, m).len(),
        ser_forest(ts, m).subrange(0, ser_forest(ts, j).len() as int) == ser_forest(ts, j),
    decreases m - j,
{
    if j < m {
        lemma_ser_forest_prefix(ts, j, m - 1);
        let a = ser_forest(ts, m - 1);
        let b = ser_forest(ts, m);
        assert(b == a + ser(ts[m - 1]));
        assert(b.subrange(0, ser_forest(ts, j).len() as int) =~= a.subrange(0, ser_forest(ts, j).len() as int));
    } else {
        assert(ser_forest(ts, m).subrange(0, ser_forest(ts, m).len() as int) =~= ser_forest(ts, m));
    }
}

proof fn lemma_ser_shape(t: TreeView)
    ensures
        ser(t).len() >= 2,
        ser(t)[0] == Some(t.node),
        ser(t)[ser(t).len() - 1] == None::<NodeView>,
        ser(t).len() == ser_forest(t.children, t.children.len() as int).len() + 2,
{
}

fn copy_string(s: &String) -> (c: String)
    ensures
        c@ == s@,
{
    s.clone()
}

fn copy_node(n: &MdNode) -> (c: MdNode)
    ensures
        node_view(c) == node_view(*n),
{
    MdNode { kind: copy_string(&n.kind), literal: copy_string(&n.literal), level: n.level, ordered: n.ordered }
}

/// Rebuilds the tree whose traversal starts at `pos`, returning it and the
/// position after its traversal.
fn build_node(events: &Vec<MdEvent>, pos: usize) -> (r: Option<(MdTree, usize)>)
    requires
        pos <= events.len(),
    ensures
        r matches Some((t, end)) ==> pos < end <= events.len() && events_view(events@).subrange(
            pos as int,
            end as int,
        ) == ser(tree_view(t)),
        forall|t: TreeView|
            #[trigger] ser_at(events_view(events@), pos as int, t) ==> (r matches Some((rt, end)) && end
                == pos + ser(t).len() && tree_view(rt) == t),
    decreases events.len() - pos,
{
    let ghost ev = events_view(events@);
    if pos >= events.len() {
        proof {
            assert forall|t: TreeView| #[trigger] ser_at(ev, pos as int, t) implies false by {
                lemma_ser_shape(t);
            }
        }
        return None;
    }
    let n = match &events[pos] {
        MdEvent::Open(n) => n,
        MdEvent::Close => {
            proof {
                assert forall|t: TreeView| #[trigger] ser_at(ev, pos as int, t) implies false by {
                    lemma_ser_shape(t);
                    assert(ev[pos as int] == ev.subrange(pos as int, pos + ser(t).len())[0]);
                }
            }
            return None;
        },
    };
    assert(ev[pos as int] == Some(node_view(*n)));
    let node = copy_node(n);
    let mut children: Vec<MdTree> = Vec::new();
    let mut p: usize = pos + 1;
    proof {
        assert forall|t: TreeView| #[trigger] ser_at(ev, pos as int, t) implies trees_view(children@, 0)
            == t.children.take(0) && node_view(node) == t.node by {
            lemma_ser_shape(t);
            assert(t.children.take(0) =~= Seq::<TreeView>::empty());
            assert(ev[pos as int] == ev.subrange(pos as int, pos + ser(t).len())[0]);
        }
    }
    loop
        invariant
            ev == events_view(events@),
            pos < p <= events.len(),
            ev[pos as int] == Some(node_view(node)),
            ev.subrange(pos + 1, p as int) == ser_forest(
                trees_view(children@, children@.len() as int),
                children@.len() as int,
            ),
            forall|t: TreeView|
                #[trigger] ser_at(ev, pos as int, t) ==> children@.len() <= t.children.len() && p == pos + 1
                    + ser_forest(t.children, children@.len() as int).len() && trees_view(
                    children@,
                    children@.len() as int,
                ) == t.children.take(children@.len() as int) && node_view(node) == t.node,
        decreases events.len() - p,
    {
        let ghost k = children@.len() as int;
        if p >= events.len() {
            proof {
                assert forall|t: TreeView| #[trigger] ser_at(ev, pos as int, t) implies false by {
                    lemma_ser_shape(t);
                    lemma_ser_forest_prefix(t.children, k, t.children.len() as int);
                }
            }
            return None;
        }
        let is_close = match &events[p] {
            MdEvent::Close => true,
            MdEvent::Open(_) => false,
        };
        if is_close {
            proof {
                assert(ev[p as int] == None::<NodeView>);
            }
            let tree = MdTree { node, children };
            proof {
                lemma_trees_view(tree.children@, tree.children@.len() as int);
                let tv = tree_view(tree);
                assert(tv.children == trees_view(tree.children@, tree.children@.len() as int));
                assert(ev.subrange(pos as int, p + 1) =~= seq![ev[pos as int]] + ev.subrange(pos + 1, p as int) + seq![ev[p as int]]);
                assert forall|t: TreeView| #[trigger] ser_at(ev, pos as int, t) implies p + 1 == pos + ser(t).len()
                    && tree_view(tree) == t by {
                    lemma_ser_shape(t);
                    if k < t.children.len() {
                        lemma_ser_forest_prefix(t.children, k + 1, t.children.len() as int);
                        lemma_ser_shape(t.children[k]);
                        let f = ser_forest(t.children, t.children.len() as int);
                        assert(ser_forest(t.children, k + 1) == ser_forest(t.children, k) + ser(t.children[k]));
                        assert(ser(t)[p - pos] == f[p - pos - 1]);
                        assert(f[p - pos - 1] == ser_forest(t.children, k + 1)[p - pos - 1]);
                        assert(ev[p as int] == ser(t)[p - pos]);
                    }
                    assert(t.children.take(k) =~= t.children);
                }
            }
            return Some((tree, p + 1));
        }
        assert(ev[p as int] is Some);
        match build_node(events, p) {
            None => {
                proof {
                    assert forall|t: TreeView| #[trigger] ser_at(ev, pos as int, t) implies false by {
                        lemma_ser_shape(t);
                        if k >= t.children.len() {
                            assert(ev[p as int] == ser(t)[p - pos]);
                        } else {
                            lemma_ser_forest_prefix(t.children, k + 1, t.children.len() as int);
                            let c = t.children[k];
                            let f = ser_forest(t.children, t.children.len() as int);
                            assert(ser_forest(t.children, k + 1) == ser_forest(t.children, k) + ser(c));
                            assert forall|i: int| 0 <= i < ser(c).len() implies ev[p + i] == ser(c)[i] by {
                                assert(ev[p + i] == ser(t)[p - pos + i]);
                                assert(ser(t)[p - pos + i] == f[p - pos - 1 + i]);
                                assert(f[p - pos - 1 + i] == ser_forest(t.children, k + 1)[p - pos - 1 + i]);
                            }
                            assert(ev.subrange(p as int, p + ser(c).len()) =~= ser(c));
                            assert(ser_at(ev, p as int, c));
                        }
                    }
                }
                return None;
            },
            Some((child, end)) => {
                proof {
                    assert forall|t: TreeView| #[trigger] ser_at(ev, pos as int, t) implies k + 1 <= t.children.len()
                        && end == pos + 1 + ser_forest(t.children, k + 1).len() && tree_view(child) == t.children[k] by {
                        lemma_ser_shape(t);
                        if k >= t.children.len() {
                            assert(ev[p as int] == ser(t)[p - pos]);
                        } else {
                            lemma_ser_forest_prefix(t.children, k + 1, t.children.len() as int);
                            let c = t.children[k];
                            let f = ser_forest(t.children, t.children.len() as int);
                            assert(ser_forest(t.children, k + 1) == ser_forest(t.children, k) + ser(c));
                            assert forall|i: int| 0 <= i < ser(c).len() implies ev[p + i] == ser(c)[i] by {
                                assert(ev[p + i] == ser(t)[p - pos + i]);
                                assert(ser(t)[p - pos + i] == f[p - pos - 1 + i]);
                                assert(f[p - pos - 1 + i] == ser_forest(t.children, k + 1)[p - pos - 1 + i]);
                            }
                            assert(ev.subrange(p as int, p + ser(c).len()) =~= ser(c));
                            assert(ser_at(ev, p as int, c));
                        }
                    }
                }
                let ghost old_children = children@;
                children.push(child);
                proof {
                    lemma_trees_view(old_children, k);
                    lemma_trees_view(children@, k + 1);
                    let ov = trees_view(old_children, k);
                    let nv = trees_view(children@, k + 1);
                    assert(nv =~= ov.push(tree_view(child)));
                    assert forall|j: int| 0 <= j <= k implies #[trigger] ser_forest(nv, j) == ser_forest(ov, j) by {
                        lemma_ser_forest_same(nv, ov, j);
                    }
                    assert(ser_forest(nv, k + 1) == ser_forest(nv, k) + ser(nv[k]));
                    assert(ev.subrange(pos + 1, end as int) =~= ev.subrange(pos + 1, p as int) + ev.subrange(p as int, end as int));
                    assert forall|t: TreeView| #[trigger] ser_at(ev, pos as int, t) implies trees_view(children@, k + 1)
                        == t.children.take(k + 1) by {
                        assert(t.children.take(k + 1) =~= t.children.take(k).push(t.children[k]));
                    }
                }
                p = end;
            },
        }
    }
}

proof fn lemma_ser_forest_same(a: Seq<TreeView>, b: Seq<TreeView>, j: int)
    requires
        0 <= j <= b.len(),
        j <= a.len(),
        forall|i: int| 0 <= i < j ==> a[i] == b[i],
    ensures
        ser_forest(a, j) == ser_forest(b, j),
    decreases j,
{
    if j > 0 {
        lemma_ser_forest_same(a, b, j - 1);
    }
}

/// Rebuilds the tree whose traversal the events are, if they are one.
pub fn build_tree(events: &Vec<MdEvent>) -> (r: Option<MdTree>)
    ensures
        r matches Some(t) ==> ser(tree_view(t)) == events_view(events@),
        forall|t: TreeView| ser(t) == events_view(events@) ==> (r matches Some(rt) && tree_view(rt) == t),
{
    let ghost ev = events_view(events@);
    match build_node(events, 0) {
        Some((t, end)) => {
            if end == events.len() {
                assert(ev.subrange(0, end as int) =~= ev);
                assert forall|tt: TreeView| ser(tt) == ev implies tree_view(t) == tt by {
                    assert(ev.subrange(0, ser(tt).len() as int) =~= ev);
                    assert(ser_at(ev, 0, tt));
                }
                Some(t)
            } else {
                proof {
                    assert forall|tt: TreeView| ser(tt) == ev implies false by {
                        assert(ev.subrange(0, ser(tt).len() as int) =~= ev);
                        assert(ser_at(ev, 0, tt));
                    }
                }
                None
            }
        },
        None => {
            proof {
                assert forall|tt: TreeView| ser(tt) == ev implies false by {
                    assert(ev.subrange(0, ser(tt).len() as int) =~= ev);
                    assert(ser_at(ev, 0, tt));
                }
            }
            None
        },
    }
}

// ---------------------------------------------------------------------
// Node kinds
// ---------------------------------------------------------------------

/// The node kinds the sections tell apart.
#[derive(Debug, Clone, Copy, PartialEq, Eq, Structural)]
pub enum Kind {
    Heading,
    Text,
    Code,
    Break,
    Paragraph,
    CodeBlock,
    List,
    Item,
    Table,
    BlockQuote,
    ThematicBreak,
    Strong,
    Emph,
    Other,
}

/// The kind of a node by comrak's name for it.
pub open spec fn kind_of(name: Seq<char>) -> Kind {
    if name == "heading"@ {
        Kind::Heading
    } else if name == "text"@ {
        Kind::Text
    } else if name == "code"@ {
        Kind::Code
    } else if name == "softbreak"@ || name == "linebreak"@ {
        Kind::Break
    } else if name == "paragraph"@ {
        Kind::Paragraph
    } else if name == "code_block"@ {
        Kind::CodeBlock
    } else if name == "list"@ {
        Kind::List
    } else if name == "item"@ {
        Kind::Item
    } else if name == "table"@ {
        Kind::Table
    } else if name == "block_quote"@ {
        Kind::BlockQuote
    } else if name == "thematic_break"@ {
        Kind::ThematicBreak
    } else if name == "strong"@ {
        Kind::Strong
    } else if name == "emph"@ {
        Kind::Emph
    } else {
        Kind::Other
    }
}

pub open spec fn kind(t: TreeView) -> Kind {
    kind_of(t.node.0)
}

fn is_named(name: &String, lit: &str) -> (b: bool)
    ensures
        b == (name@ == lit@),
{
    let l = String::from_str(lit);
    *name == l
}

/// The kind of a node.
pub fn node_kind(n: &MdNode) -> (k: Kind)
    ensures
        k == kind_of(n.kind@),
{
    let name = &n.kind;
    if is_named(name, "heading") {
        Kind::Heading
    } else if is_named(name, "text") {
        Kind::Text
    } else if is_named(name, "code") {
        Kind::Code
    } else if is_named(name, "softbreak") || is_named(name, "linebreak") {
        Kind::Break
    } else if is_named(name, "paragraph") {
        Kind::Paragraph
    } else if is_named(name, "code_block") {
        Kind::CodeBlock
    } else if is_named(name, "list") {
        Kind::List
    } else if is_named(name, "item") {
        Kind::Item
    } else if is_named(name, "table") {
        Kind::Table
    } else if is_named(name, "block_quote") {
        Kind::BlockQuote
    } else if is_named(name, "thematic_break") {
        Kind::ThematicBreak
    } else if is_named(name, "strong") {
        Kind::Strong
    } else if is_named(name, "emph") {
        Kind::Emph
    } else {
        Kind::Other
    }
}

// ---------------------------------------------------------------------
// Text of a node
// ---------------------------------------------------------------------

/// The plain text of a node: text and inline code literally, a line break
/// as one space, anything else as the text of its children.
pub open spec fn text_of(t: TreeView) -> Seq<char>
    decreases t,
{
    match kind(t) {
        Kind::Text | Kind::Code => t.node.1,
        Kind::Break => seq![' '],
        _ => texts_of(t.children, t.children.len() as int),
    }
}

/// The text of the first `k` nodes, concatenated.
pub open spec fn texts_of(ts: Seq<TreeView>, k: int) -> Seq<char>
    decreases ts, k,
{
    if k <= 0 || k > ts.len() {
        Seq::empty()
    } else {
        texts_of(ts, k - 1) + text_of(ts[k - 1])
    }
}

fn collect_text_into(t: &MdTree, out: &mut String)
    ensures
        final(out)@ == old(out)@ + text_of(tree_view(*t)),
    decreases t,
{
    let ghost tv = tree_view(*t);
    let k = node_kind(&t.node);
    match k {
        Kind::Text | Kind::Code => {
            let cs = chars_of(t.node.literal.as_str());
            push_chars(out, &cs);
        },
        Kind::Break => {
            push_char(out, ' ');
            assert(out@ =~= old(out)@ + seq![' ']);
        },
        _ => {
            let ghost cs = t.children@;
            proof {
                lemma_trees_view(cs, cs.len() as int);
            }
            let ghost start = out@;
            let mut i: usize = 0;
            while i < t.children.len()
                invariant
                    i <= t.children.len(),
                    cs == t.children@,
                    tv == tree_view(*t),
                    tv.children == trees_view(cs, cs.len() as int),
                    forall|j: int| 0 <= j < cs.len() ==> #[trigger] tv.children[j] == tree_view(cs[j]),
                    tv.children.len() == cs.len(),
                    out@ == start + texts_of(tv.children, i as int),
                decreases t.children.len() - i,
            {
                proof {
                    assert(decreases_to!(*t => t.children));
                }
                collect_text_into(&t.children[i], out);
                i += 1;
                assert(out@ =~= start + texts_of(tv.children, i as int));
            }
        },
    }
}

/// The plain text of a node.
pub fn collect_text(t: &MdTree) -> (s: String)
    ensures
        s@ == text_of(tree_view(*t)),
{
    let mut s = String::new();
    collect_text_into(t, &mut s);
    assert(s@ =~= text_of(tree_view(*t)));
    s
}

// ---------------------------------------------------------------------
// Inline runs
// ---------------------------------------------------------------------

/// The style inside strong emphasis.
pub open spec fn strong_style(s: TextStyle) -> TextStyle {
    if s == TextStyle::Italic {
        TextStyle::BoldItalic
    } else {
        TextStyle::Bold
    }
}

/// The style inside emphasis.
pub open spec fn emph_style(s: TextStyle) -> TextStyle {
    if s == TextStyle::Bold {
        TextStyle::BoldItalic
    } else {
        TextStyle::Italic
    }
}

/// The styled runs of an inline node in a surrounding `style`: text in
/// that style, inline code in code style, a line break as a space, strong
/// and emphasis restyling their children.
pub open spec fn inline_runs(t: TreeView, style: TextStyle) -> Seq<RunView>
    decreases t,
{
    match kind(t) {
        Kind::Text => seq![(t.node.1, style)],
        Kind::Code => seq![(t.node.1, TextStyle::Code)],
        Kind::Strong => children_runs(t.children, t.children.len() as int, strong_style(style)),
        Kind::Emph => children_runs(t.children, t.children.len() as int, emph_style(style)),
        Kind::Break => seq![(seq![' '], style)],
        _ => children_runs(t.children, t.children.len() as int, style),
    }
}

/// The runs of the first `k` nodes, in order.
pub open spec fn children_runs(ts: Seq<TreeView>, k: int, style: TextStyle) -> Seq<RunView>
    decreases ts, k,
{
    if k <= 0 || k > ts.len() {
        Seq::empty()
    } else {
        children_runs(ts, k - 1, style) + inline_runs(ts[k - 1], style)
    }
}

pub open spec fn is_bold(s: TextStyle) -> bool {
    s == TextStyle::Bold || s == TextStyle::BoldItalic
}

pub open spec fn is_italic(s: TextStyle) -> bool {
    s == TextStyle::Italic || s == TextStyle::BoldItalic
}

/// Strong text is bold and emphasised text italic, each keeping the other
/// quality of the surrounding plain, bold or italic text; so strong text
/// inside emphasis and emphasis inside strong text are bold italic.
pub proof fn styles_compose(s: TextStyle)
    requires
        s == TextStyle::Normal || s == TextStyle::Bold || s == TextStyle::Italic,
    ensures
        is_bold(strong_style(s)),
        is_italic(strong_style(s)) == is_italic(s),
        is_italic(emph_style(s)),
        is_bold(emph_style(s)) == is_bold(s),
        strong_style(s) != TextStyle::Code && emph_style(s) != TextStyle::Code,
        !is_italic(s) ==> emph_style(strong_style(s)) == TextStyle::BoldItalic,
        !is_bold(s) ==> strong_style(emph_style(s)) == TextStyle::BoldItalic,
{
}

/// Text directly under strong and emphasis nodes, nested either way, in
/// plain text, is one run in bold italic.
pub proof fn nested_strong_and_emphasis(t: TreeView)
    requires
        t.children.len() == 1,
        (kind(t) == Kind::Strong && kind(t.children[0]) == Kind::Emph) || (kind(t) == Kind::Emph && kind(
            t.children[0],
        ) == Kind::Strong),
        t.children[0].children.len() == 1,
        kind(t.children[0].children[0]) == Kind::Text,
    ensures
        inline_runs(t, TextStyle::Normal) == seq![(t.children[0].children[0].node.1, TextStyle::BoldItalic)],
{
    let style = TextStyle::Normal;
    let c = t.children[0];
    let x = c.children[0];
    let inner = if kind(t) == Kind::Strong { strong_style(style) } else { emph_style(style) };
    let inner2 = if kind(c) == Kind::Strong { strong_style(inner) } else { emph_style(inner) };
    assert(inner2 == TextStyle::BoldItalic);
    assert(inline_runs(x, inner2) == seq![(x.node.1, inner2)]);
    assert(children_runs(c.children, 0, inner2) == Seq::<RunView>::empty());
    assert(children_runs(c.children, 1, inner2) =~= seq![(x.node.1, inner2)]);
    assert(inline_runs(c, inner) == children_runs(c.children, 1, inner2));
    assert(children_runs(t.children, 0, inner) == Seq::<RunView>::empty());
    assert(children_runs(t.children, 1, inner) =~= inline_runs(c, inner));
    assert(inline_runs(t, style) == children_runs(t.children, 1, inner));
}

fn style_strong(s: TextStyle) -> (r: TextStyle)
    ensures
        r == strong_style(s),
{
    match s {
        TextStyle::Italic => TextStyle::BoldItalic,
        _ => TextStyle::Bold,
    }
}

fn style_emph(s: TextStyle) -> (r: TextStyle)
    ensures
        r == emph_style(s),
{
    match s {
        TextStyle::Bold => TextStyle::BoldItalic,
        _ => TextStyle::Italic,
    }
}

fn push_run(runs: &mut Vec<TextRun>, text: String, style: TextStyle)
    ensures
        runs_view(final(runs)@) == runs_view(old(runs)@).push((text@, style)),
{
    runs.push(TextRun { text, style });
    assert(runs_view(runs@) =~= runs_view(old(runs)@).push((text@, style)));
}

fn collect_inline_recursive(t: &MdTree, parent_style: TextStyle, runs: &mut Vec<TextRun>)
    ensures
        runs_view(final(runs)@) == runs_view(old(runs)@) + inline_runs(tree_view(*t), parent_style),
    decreases t,
{
    let ghost tv = tree_view(*t);
    let ghost start = runs_view(runs@);
    let k = node_kind(&t.node);
    match k {
        Kind::Text => {
            push_run(runs, copy_string(&t.node.literal), parent_style);
            assert(runs_view(runs@) =~= start + inline_runs(tv, parent_style));
        },
        Kind::Code => {
            push_run(runs, copy_string(&t.node.literal), TextStyle::Code);
            assert(runs_view(runs@) =~= start + inline_runs(tv, parent_style));
        },
        Kind::Break => {
            let mut sp = String::new();
            push_char(&mut sp, ' ');
            push_run(runs, sp, parent_style);
            assert(sp@ =~= seq![' ']);
            assert(runs_view(runs@) =~= start + inline_runs(tv, parent_style));
        },
        _ => {
            let style = match k {
                Kind::Strong => style_strong(parent_style),
                Kind::Emph => style_emph(parent_style),
                _ => parent_style,
            };
            let ghost cs = t.children@;
            proof {
                lemma_trees_view(cs, cs.len() as int);
            }
            let mut i: usize = 0;
            while i < t.children.len()
                invariant
                    i <= t.children.len(),
                    cs == t.children@,
                    tv == tree_view(*t),
                    tv.children == trees_view(cs, cs.len() as int),
                    forall|j: int| 0 <= j < cs.len() ==> #[trigger] tv.children[j] == tree_view(cs[j]),
                    tv.children.len() == cs.len(),
                    runs_view(runs@) == start + children_runs(tv.children, i as int, style),
                decreases t.children.len() - i,
            {
                proof {
                    assert(decreases_to!(*t => t.children));
                }
                collect_inline_recursive(&t.children[i], style, runs);
                i += 1;
                assert(runs_view(runs@) =~= start + children_runs(tv.children, i as int, style));
            }
        },
    }
}

/// The styled runs of a node's children.
pub fn collect_inline_runs(t: &MdTree, parent_style: TextStyle) -> (runs: Vec<TextRun>)
    ensures
        runs_view(runs@) == children_runs(tree_view(*t).children, t.children@.len() as int, parent_style),
{
    let ghost tv = tree_view(*t);
    let ghost cs = t.children@;
    proof {
        lemma_trees_view(cs, cs.len() as int);
    }
    let mut runs: Vec<TextRun> = Vec::new();
    assert(runs_view(runs@) =~= Seq::<RunView>::empty());
    let mut i: usize = 0;
    while i < t.children.len()
        invariant
            i <= t.children.len(),
            cs == t.children@,
            tv == tree_view(*t),
            tv.children == trees_view(cs, cs.len() as int),
            forall|j: int| 0 <= j < cs.len() ==> #[trigger] tv.children[j] == tree_view(cs[j]),
            tv.children.len() == cs.len(),
            runs_view(runs@) == children_runs(tv.children, i as int, parent_style),
        decreases t.children.len() - i,
    {
        collect_inline_recursive(&t.children[i], parent_style, &mut runs);
        i += 1;
        assert(runs_view(runs@) =~= children_runs(tv.children, i as int, parent_style));
    }
    runs
}

// ---------------------------------------------------------------------
// List entries
// ---------------------------------------------------------------------

/// A list item as an entry: the runs of its paragraphs, and the entries of
/// its nested lists; other nodes give no entry.
pub open spec fn list_entry(t: TreeView) -> Option<EntryView>
    decreases t,
{
    if kind(t) == Kind::Item {
        Some(
            EntryView {
                runs: item_runs(t.children, t.children.len() as int),
                children: item_children(t.children, t.children.len() as int),
            },
        )
    } else {
        None
    }
}

/// The runs of the paragraphs among the first `k` nodes.
pub open spec fn item_runs(ts: Seq<TreeView>, k: int) -> Seq<RunView>
    decreases k,
{
    if k <= 0 || k > ts.len() {
        Seq::empty()
    } else {
        item_runs(ts, k - 1) + if kind(ts[k - 1]) == Kind::Paragraph {
            children_runs(ts[k - 1].children, ts[k - 1].children.len() as int, TextStyle::Normal)
        } else {
            Seq::empty()
        }
    }
}

/// The entries of the lists among the first `k` nodes.
pub open spec fn item_children(ts: Seq<TreeView>, k: int) -> Seq<EntryView>
    decreases ts, k,
{
    if k <= 0 || k > ts.len() {
        Seq::empty()
    } else {
        item_children(ts, k - 1) + if kind(ts[k - 1]) == Kind::List {
            entries_of(ts[k - 1].children, ts[k - 1].children.len() as int)
        } else {
            Seq::empty()
        }
    }
}

/// The entries of the first `k` nodes that are list items.
pub open spec fn entries_of(ts: Seq<TreeView>, k: int) -> Seq<EntryView>
    decreases ts, k,
{
    if k <= 0 || k > ts.len() {
        Seq::empty()
    } else {
        entries_of(ts, k - 1) + match list_entry(ts[k - 1]) {
            Some(e) => seq![e],
            None => Seq::empty(),
        }
    }
}

proof fn lemma_tree_children(t: MdTree)
    ensures
        tree_view(t).children.len() == t.children@.len(),
        forall|j: int| 0 <= j < t.children@.len() ==> #[trigger] tree_view(t).children[j] == tree_view(t.children@[j]),
{
    lemma_trees_view(t.children@, t.children@.len() as int);
}

fn push_entry(es: &mut Vec<ListEntry>, e: ListEntry)
    ensures
        entries_view(final(es)@, final(es)@.len() as int) == entries_view(old(es)@, old(es)@.len() as int).push(entry_view(e)),
{
    let ghost before = es@;
    es.push(e);
    proof {
        lemma_entries_view_push(before, e);
        assert(es@ == before.push(e));
    }
}

/// A list item as an entry; `None` for other nodes.
pub fn build_list_entry(t: &MdTree) -> (r: Option<ListEntry>)
    ensures
        opt_entry_view(r) == list_entry(tree_view(*t)),
    decreases t,
{
    let ghost tv = tree_view(*t);
    if node_kind(&t.node) != Kind::Item {
        return None;
    }
    proof {
        lemma_tree_children(*t);
    }
    let mut runs: Vec<TextRun> = Vec::new();
    let mut children: Vec<ListEntry> = Vec::new();
    assert(runs_view(runs@) =~= Seq::<RunView>::empty());
    let mut i: usize = 0;
    while i < t.children.len()
        invariant
            i <= t.children.len(),
            tv == tree_view(*t),
            tv.children.len() == t.children@.len(),
            forall|j: int| 0 <= j < t.children@.len() ==> #[trigger] tv.children[j] == tree_view(t.children@[j]),
            runs_view(runs@) == item_runs(tv.children, i as int),
            entries_view(children@, children@.len() as int) == item_children(tv.children, i as int),
        decreases t.children.len() - i,
    {
        let child = &t.children[i];
        let ghost cv = tree_view(*child);
        assert(cv == tv.children[i as int]);
        let ck = node_kind(&child.node);
        if ck == Kind::Paragraph {
            proof {
                lemma_tree_children(*child);
            }
            let more = collect_inline_runs(child, TextStyle::Normal);
            let ghost before = runs_view(runs@);
            let mut m = more;
            runs.append(&mut m);
            assert(runs_view(runs@) =~= before + children_runs(cv.children, child.children@.len() as int, TextStyle::Normal));
        } else if ck == Kind::List {
            proof {
                lemma_tree_children(*child);
            }
            let ghost before = entries_view(children@, children@.len() as int);
            let mut j: usize = 0;
            while j < child.children.len()
                invariant
                    j <= child.children.len(),
                    child == &t.children[i as int],
                    i < t.children.len(),
                    cv == tree_view(*child),
                    cv.children.len() == child.children@.len(),
                    forall|q: int| 0 <= q < child.children@.len() ==> #[trigger] cv.children[q] == tree_view(child.children@[q]),
                    entries_view(children@, children@.len() as int) == before + entries_of(cv.children, j as int),
                decreases child.children.len() - j,
            {
                proof {
                    assert(decreases_to!(*t => t.children));
                    assert(decreases_to!(t.children => t.children@));
                    assert(decreases_to!(t.children@ => t.children@[i as int]));
                    assert(decreases_to!(*child => child.children));
                }
                let e = build_list_entry(&child.children[j]);
                match e {
                    Some(e) => {
                        push_entry(&mut children, e);
                    },
                    None => {},
                }
                j += 1;
                assert(entries_view(children@, children@.len() as int) =~= before + entries_of(cv.children, j as int));
            }
        }
        i += 1;
        assert(runs_view(runs@) =~= item_runs(tv.children, i as int));
        assert(entries_view(children@, children@.len() as int) =~= item_children(tv.children, i as int));
    }
    Some(ListEntry { runs, children })
}

// ---------------------------------------------------------------------
// Blocks
// ---------------------------------------------------------------------

/// The block a node stands for; `None` for nodes that are no block.
pub open spec fn content_item(t: TreeView) -> Option<ItemView>
    decreases t,
{
    match kind(t) {
        Kind::Heading => Some(ItemView::Heading(t.node.2, text_of(t))),
        Kind::Paragraph => Some(
            ItemView::Paragraph(children_runs(t.children, t.children.len() as int, TextStyle::Normal)),
        ),
        Kind::CodeBlock => Some(ItemView::CodeBlock(t.node.1)),
        Kind::List => Some(ItemView::List(entries_of(t.children, t.children.len() as int), t.node.3)),
        Kind::Table => Some(table_of(t)),
        Kind::BlockQuote => Some(ItemView::BlockQuote(blocks_of(t.children, t.children.len() as int))),
        Kind::ThematicBreak => Some(ItemView::Rule),
        _ => None,
    }
}

/// The blocks of the first `k` nodes that are blocks.
pub open spec fn blocks_of(ts: Seq<TreeView>, k: int) -> Seq<ItemView>
    decreases ts, k,
{
    if k <= 0 || k > ts.len() {
        Seq::empty()
    } else {
        blocks_of(ts, k - 1) + match content_item(ts[k - 1]) {
            Some(i) => seq![i],
            None => Seq::empty(),
        }
    }
}

/// The text of every cell of a row.
pub open spec fn cells_text(cells: Seq<TreeView>) -> Seq<Seq<char>> {
    Seq::new(cells.len(), |c: int| text_of(cells[c]))
}

/// A table: the first row is the header, the others the rows.
pub open spec fn table_of(t: TreeView) -> ItemView {
    if t.children.len() == 0 {
        ItemView::Table(Seq::empty(), Seq::empty())
    } else {
        ItemView::Table(
            cells_text(t.children[0].children),
            Seq::new((t.children.len() - 1) as nat, |r: int| cells_text(t.children[r + 1].children)),
        )
    }
}

fn row_texts(row: &MdTree) -> (v: Vec<String>)
    ensures
        strings_view(v@) == cells_text(tree_view(*row).children),
{
    proof {
        lemma_tree_children(*row);
    }
    let ghost rv = tree_view(*row);
    let mut v: Vec<String> = Vec::new();
    let mut i: usize = 0;
    while i < row.children.len()
        invariant
            i <= row.children.len(),
            rv == tree_view(*row),
            rv.children.len() == row.children@.len(),
            forall|j: int| 0 <= j < row.children@.len() ==> #[trigger] rv.children[j] == tree_view(row.children@[j]),
            strings_view(v@) == cells_text(rv.children).take(i as int),
        decreases row.children.len() - i,
    {
        let c = collect_text(&row.children[i]);
        assert(cells_text(rv.children)[i as int] == text_of(rv.children[i as int]));
        let ghost before = v@;
        v.push(c);
        assert(strings_view(v@) =~= strings_view(before).push(c@));
        assert(cells_text(rv.children).take(i + 1) =~= cells_text(rv.children).take(i as int).push(c@));
        i += 1;
        assert(strings_view(v@) =~= cells_text(rv.children).take(i as int));
    }
    assert(cells_text(rv.children).take(row.children.len() as int) =~= cells_text(rv.children));
    v
}

/// A table node as a table block.
pub fn parse_table(t: &MdTree) -> (item: ContentItem)
    ensures
        item_view(item) == table_of(tree_view(*t)),
{
    proof {
        lemma_tree_children(*t);
    }
    let ghost tv = tree_view(*t);
    if t.children.len() == 0 {
        let item = ContentItem::Table { headers: Vec::new(), rows: Vec::new() };
        assert(strings_view(Seq::<String>::empty()) =~= Seq::<Seq<char>>::empty());
        assert(table_rows_view(Seq::<Vec<String>>::empty()) =~= Seq::<Seq<Seq<char>>>::empty());
        assert(item_view(item) == table_of(tv));
        return item;
    }
    let headers = row_texts(&t.children[0]);
    let mut rows: Vec<Vec<String>> = Vec::new();
    let ghost target = Seq::new((tv.children.len() - 1) as nat, |r: int| cells_text(tv.children[r + 1].children));
    let mut i: usize = 1;
    while i < t.children.len()
        invariant
            1 <= i <= t.children.len(),
            tv == tree_view(*t),
            tv.children.len() == t.children@.len(),
            forall|j: int| 0 <= j < t.children@.len() ==> #[trigger] tv.children[j] == tree_view(t.children@[j]),
            target == Seq::new((tv.children.len() - 1) as nat, |r: int| cells_text(tv.children[r + 1].children)),
            table_rows_view(rows@) == target.take(i - 1),
        decreases t.children.len() - i,
    {
        let row = row_texts(&t.children[i]);
        assert(target[i - 1] == cells_text(tv.children[i as int].children));
        let ghost before = rows@;
        rows.push(row);
        assert(table_rows_view(rows@) =~= table_rows_view(before).push(strings_view(row@)));
        assert(target.take(i as int) =~= target.take(i - 1).push(target[i - 1]));
        i += 1;
        assert(table_rows_view(rows@) =~= target.take(i - 1));
    }
    assert(target.take(t.children.len() - 1) =~= target);
    let item = ContentItem::Table { headers, rows };
    assert(item_view(item) == table_of(tv));
    item
}

fn push_item(items: &mut Vec<ContentItem>, x: ContentItem)
    ensures
        items_view(final(items)@, final(items)@.len() as int) == items_view(old(items)@, old(items)@.len() as int).push(item_view(x)),
{
    let ghost before = items@;
    items.push(x);
    proof {
        lemma_items_view_push(before, x);
        assert(items@ == before.push(x));
    }
}

/// The block a node stands for; `None` for nodes that are no block.
pub fn node_to_content_item(t: &MdTree) -> (r: Option<ContentItem>)
    ensures
        opt_item_view(r) == content_item(tree_view(*t)),
    decreases t,
{
    let ghost tv = tree_view(*t);
    proof {
        lemma_tree_children(*t);
    }
    let k = node_kind(&t.node);
    match k {
        Kind::Heading => {
            let text = collect_text(t);
            Some(ContentItem::Heading { level: t.node.level, text })
        },
        Kind::Paragraph => {
            let runs = collect_inline_runs(t, TextStyle::Normal);
            Some(ContentItem::Paragraph { runs })
        },
        Kind::CodeBlock => Some(ContentItem::CodeBlock { code: copy_string(&t.node.literal) }),
        Kind::List => {
            let mut items: Vec<ListEntry> = Vec::new();
            let mut j: usize = 0;
            while j < t.children.len()
                invariant
                    j <= t.children.len(),
                    tv == tree_view(*t),
                    tv.children.len() == t.children@.len(),
                    forall|q: int| 0 <= q < t.children@.len() ==> #[trigger] tv.children[q] == tree_view(t.children@[q]),
                    entries_view(items@, items@.len() as int) == entries_of(tv.children, j as int),
                decreases t.children.len() - j,
            {
                match build_list_entry(&t.children[j]) {
                    Some(e) => {
                        push_entry(&mut items, e);
                    },
                    None => {},
                }
                j += 1;
                assert(entries_view(items@, items@.len() as int) =~= entries_of(tv.children, j as int));
            }
            Some(ContentItem::List { items, ordered: t.node.ordered })
        },
        Kind::Table => Some(parse_table(t)),
        Kind::BlockQuote => {
            let mut items: Vec<ContentItem> = Vec::new();
            let mut j: usize = 0;
            while j < t.children.len()
                invariant
                    j <= t.children.len(),
                    tv == tree_view(*t),
                    tv.children.len() == t.children@.len(),
                    forall|q: int| 0 <= q < t.children@.len() ==> #[trigger] tv.children[q] == tree_view(t.children@[q]),
                    items_view(items@, items@.len() as int) == blocks_of(tv.children, j as int),
                decreases t.children.len() - j,
            {
                proof {
                    assert(decreases_to!(*t => t.children));
                }
                match node_to_content_item(&t.children[j]) {
                    Some(it) => {
                        push_item(&mut items, it);
                    },
                    None => {},
                }
                j += 1;
                assert(items_view(items@, items@.len() as int) =~= blocks_of(tv.children, j as int));
            }
            Some(ContentItem::BlockQuote { items })
        },
        Kind::ThematicBreak => Some(ContentItem::Rule),
        _ => None,
    }
}

// ---------------------------------------------------------------------
// Sections
// ---------------------------------------------------------------------

/// Whether a node is a heading of the split level.
pub open spec fn is_split(t: TreeView, split_level: u8) -> bool {
    kind(t) == Kind::Heading && t.node.2 == split_level
}

/// The sections closed so far, the blocks of the open section and its title,
/// after the first `k` top-level nodes.
pub open spec fn section_state(ts: Seq<TreeView>, split_level: u8) -> (Seq<SectionView>, Seq<ItemView>, Option<Seq<char>>)
    decreases ts.len(),
{
    if ts.len() == 0 {
        (Seq::empty(), Seq::empty(), None)
    } else {
        let (secs, items, title) = section_state(ts.drop_last(), split_level);
        let c = ts.last();
        if is_split(c, split_level) {
            let closed = if title is Some || items.len() > 0 {
                secs.push(SectionView { title, items })
            } else {
                secs
            };
            (closed, Seq::empty(), Some(text_of(c)))
        } else {
            match content_item(c) {
                Some(i) => (secs, items.push(i), title),
                None => (secs, items, title),
            }
        }
    }
}

/// The sections with a title or some blocks.
pub open spec fn nonempty_sections(secs: Seq<SectionView>) -> Seq<SectionView>
    decreases secs.len(),
{
    if secs.len() == 0 {
        Seq::empty()
    } else {
        let rest = nonempty_sections(secs.drop_last());
        if secs.last().title is Some || secs.last().items.len() > 0 {
            rest.push(secs.last())
        } else {
            rest
        }
    }
}

/// The sections of a document: a new section starts at every heading of
/// the split level, which becomes its title; blocks before the first such
/// heading form an untitled section. Sections with neither title nor
/// blocks are dropped.
pub open spec fn sections_of(doc: TreeView, split_level: u8) -> Seq<SectionView> {
    let (secs, items, title) = section_state(doc.children, split_level);
    let all = if title is Some || items.len() > 0 {
        secs.push(SectionView { title, items })
    } else {
        secs
    };
    nonempty_sections(all)
}

/// The blocks of the top-level nodes `ts` that are not split headings, in
/// order.
pub open spec fn doc_blocks(ts: Seq<TreeView>, split_level: u8) -> Seq<ItemView>
    decreases ts.len(),
{
    if ts.len() == 0 {
        Seq::empty()
    } else {
        let rest = doc_blocks(ts.drop_last(), split_level);
        let c = ts.last();
        if is_split(c, split_level) {
            rest
        } else {
            match content_item(c) {
                Some(i) => rest.push(i),
                None => rest,
            }
        }
    }
}

/// The texts of the split headings among `ts`, in order.
pub open spec fn split_titles(ts: Seq<TreeView>, split_level: u8) -> Seq<Seq<char>>
    decreases ts.len(),
{
    if ts.len() == 0 {
        Seq::empty()
    } else {
        let rest = split_titles(ts.drop_last(), split_level);
        if is_split(ts.last(), split_level) {
            rest.push(text_of(ts.last()))
        } else {
            rest
        }
    }
}

/// The blocks of all sections, one section after the other.
pub open spec fn section_blocks(secs: Seq<SectionView>) -> Seq<ItemView>
    decreases secs.len(),
{
    if secs.len() == 0 {
        Seq::empty()
    } else {
        section_blocks(secs.drop_last()) + secs.last().items
    }
}

/// The titles of the titled sections, in order.
pub open spec fn section_titles(secs: Seq<SectionView>) -> Seq<Seq<char>>
    decreases secs.len(),
{
    if secs.len() == 0 {
        Seq::empty()
    } else {
        let rest = section_titles(secs.drop_last());
        match secs.last().title {
            Some(t) => rest.push(t),
            None => rest,
        }
    }
}

pub open spec fn opt_seq(t: Option<Seq<char>>) -> Seq<Seq<char>> {
    match t {
        Some(x) => seq![x],
        None => Seq::empty(),
    }
}

proof fn lemma_section_state(ts: Seq<TreeView>, split_level: u8)
    ensures
        section_blocks(section_state(ts, split_level).0) + section_state(ts, split_level).1 == doc_blocks(
            ts,
            split_level,
        ),
        section_titles(section_state(ts, split_level).0) + opt_seq(section_state(ts, split_level).2)
            == split_titles(ts, split_level),
    decreases ts.len(),
{
    if ts.len() > 0 {
        let p = ts.drop_last();
        lemma_section_state(p, split_level);
        let (secs, items, title) = section_state(p, split_level);
        let c = ts.last();
        if is_split(c, split_level) {
            if title is Some || items.len() > 0 {
                let closed = secs.push(SectionView { title, items });
                assert(closed.drop_last() =~= secs);
                assert(section_blocks(closed) + Seq::<ItemView>::empty() =~= section_blocks(secs) + items);
                assert(section_titles(closed) + seq![text_of(c)] =~= section_titles(secs) + opt_seq(title)
                    + seq![text_of(c)]);
            } else {
                assert(items =~= Seq::<ItemView>::empty());
                assert(section_blocks(secs) + Seq::<ItemView>::empty() =~= section_blocks(secs) + items);
                assert(opt_seq(title) =~= Seq::<Seq<char>>::empty());
                assert(section_titles(secs) + seq![text_of(c)] =~= section_titles(secs) + opt_seq(title)
                    + seq![text_of(c)]);
            }
        } else {
            match content_item(c) {
                Some(i) => {
                    assert(section_blocks(secs) + items.push(i) =~= (section_blocks(secs) + items).push(i));
                },
                None => {},
            }
        }
    }
}

proof fn lemma_nonempty_sections(secs: Seq<SectionView>)
    ensures
        section_blocks(nonempty_sections(secs)) == section_blocks(secs),
        section_titles(nonempty_sections(secs)) == section_titles(secs),
        forall|i: int|
            0 <= i < nonempty_sections(secs).len() ==> (#[trigger] nonempty_sections(secs)[i]).title is Some
                || nonempty_sections(secs)[i].items.len() > 0,
    decreases secs.len(),
{
    if secs.len() > 0 {
        let p = secs.drop_last();
        lemma_nonempty_sections(p);
        let rest = nonempty_sections(p);
        let l = secs.last();
        if l.title is Some || l.items.len() > 0 {
            let all = rest.push(l);
            assert(all.drop_last() =~= rest);
            assert forall|i: int| 0 <= i < all.len() implies (#[trigger] all[i]).title is Some
                || all[i].items.len() > 0 by {
                if i < rest.len() {
                    assert(all[i] == rest[i]);
                }
            }
        } else {
            assert(l.items =~= Seq::<ItemView>::empty());
            assert(section_blocks(secs) =~= section_blocks(p) + l.items);
        }
    }
}

/// Splitting a document into sections loses and reorders nothing: the
/// blocks of the sections, one section after the other, are the blocks of
/// the document that are not split headings, in order; the titles of the
/// sections are the texts of the split headings, in order; and no section
/// is empty.
pub proof fn sections_keep_the_document(doc: TreeView, split_level: u8)
    ensures
        section_blocks(sections_of(doc, split_level)) == doc_blocks(doc.children, split_level),
        section_titles(sections_of(doc, split_level)) == split_titles(doc.children, split_level),
        forall|i: int|
            0 <= i < sections_of(doc, split_level).len() ==> (#[trigger] sections_of(doc, split_level)[i]).title
                is Some || sections_of(doc, split_level)[i].items.len() > 0,
{
    lemma_section_state(doc.children, split_level);
    let (secs, items, title) = section_state(doc.children, split_level);
    let all = if title is Some || items.len() > 0 {
        secs.push(SectionView { title, items })
    } else {
        secs
    };
    if title is Some || items.len() > 0 {
        assert(all.drop_last() =~= secs);
    } else {
        assert(items =~= Seq::<ItemView>::empty());
        assert(section_blocks(secs) + items =~= section_blocks(secs));
        assert(section_titles(secs) + opt_seq(title) =~= section_titles(secs));
    }
    lemma_nonempty_sections(all);
}

fn push_section(sections: &mut Vec<Section>, s: Section)
    ensures
        sections_view(final(sections)@) == sections_view(old(sections)@).push(section_view(s)),
{
    sections.push(s);
    assert(sections_view(sections@) =~= sections_view(old(sections)@).push(section_view(s)));
}

/// The sections of a document tree (see `sections_of`).
pub fn sections_from_tree(doc: &MdTree, split_level: u8) -> (sections: Vec<Section>)
    ensures
        sections_view(sections@) == sections_of(tree_view(*doc), split_level),
{
    let ghost dv = tree_view(*doc);
    proof {
        lemma_tree_children(*doc);
    }
    let mut sections: Vec<Section> = Vec::new();
    let mut current_items: Vec<ContentItem> = Vec::new();
    let mut current_title: Option<String> = None;
    assert(sections_view(sections@) =~= Seq::<SectionView>::empty());
    assert(items_view(current_items@, 0) =~= Seq::<ItemView>::empty());
    let mut i: usize = 0;
    while i < doc.children.len()
        invariant
            i <= doc.children.len(),
            dv == tree_view(*doc),
            dv.children.len() == doc.children@.len(),
            forall|q: int| 0 <= q < doc.children@.len() ==> #[trigger] dv.children[q] == tree_view(doc.children@[q]),
            section_state(dv.children.take(i as int), split_level) == (
                sections_view(sections@),
                items_view(current_items@, current_items@.len() as int),
                title_view(current_title),
            ),
        decreases doc.children.len() - i,
    {
        let child = &doc.children[i];
        proof {
            let q = dv.children.take(i + 1);
            assert(q.drop_last() =~= dv.children.take(i as int));
            assert(q.last() == tree_view(*child));
        }
        if node_kind(&child.node) == Kind::Heading && child.node.level == split_level {
            if current_title.is_some() || current_items.len() > 0 {
                let title = current_title;
                let items = current_items;
                current_items = Vec::new();
                current_title = None;
                push_section(&mut sections, Section { title, items });
            }
            current_title = Some(collect_text(child));
            assert(items_view(current_items@, 0) =~= Seq::<ItemView>::empty());
        } else {
            match node_to_content_item(child) {
                Some(item) => {
                    push_item(&mut current_items, item);
                },
                None => {},
            }
        }
        i += 1;
    }
    assert(dv.children.take(doc.children.len() as int) =~= dv.children);
    if current_title.is_some() || current_items.len() > 0 {
        push_section(&mut sections, Section { title: current_title, items: current_items });
    }
    let ghost all = sections_view(sections@);
    let mut kept: Vec<Section> = Vec::new();
    let mut n: usize = 0;
    let ghost total = sections@.len();
    assert(total == sections.len());
    assert(sections_view(kept@) =~= nonempty_sections(all.take(0)));
    while sections.len() > 0
        invariant
            n + sections@.len() == total,
            total <= usize::MAX,
            all.len() == total,
            sections_view(sections@) == all.skip(n as int),
            sections_view(kept@) == nonempty_sections(all.take(n as int)),
        decreases sections.len(),
    {
        let ghost old_secs = sections@;
        assert(sections_view(old_secs)[0] == section_view(old_secs[0]));
        assert(all.skip(n as int)[0] == all[n as int]);
        let s = sections.remove(0);
        proof {
            assert(s == old_secs[0]);
            assert(sections@ =~= old_secs.subrange(1, old_secs.len() as int));
            assert(section_view(s) == all[n as int]);
            assert(all.take(n + 1).drop_last() =~= all.take(n as int));
            assert forall|j: int| 0 <= j < sections@.len() implies sections_view(sections@)[j] == all.skip(n + 1)[j] by {
                assert(sections@[j] == old_secs[j + 1]);
                assert(sections_view(old_secs)[j + 1] == all.skip(n as int)[j + 1]);
            }
            assert(sections_view(sections@) =~= all.skip(n + 1));
        }
        if s.title.is_some() || s.items.len() > 0 {
            proof {
                lemma_items_view(s.items@, s.items@.len() as int);
            }
            push_section(&mut kept, s);
        } else {
            proof {
                lemma_items_view(s.items@, s.items@.len() as int);
            }
        }
        n += 1;
    }
    assert(all.take(total as int) =~= all);
    kept
}

/// The document tree comrak parses `input` into: the tree whose traversal
/// its events are.
pub open spec fn doc_tree(input: Seq<char>) -> TreeView {
    choose|t: TreeView| ser(t) == commonmark_events(input)
}

/// Parses markdown and splits it into sections at headings of level
/// `split_level`.
pub fn parse_markdown(input: &str, split_level: u8) -> (sections: Vec<Section>)
    ensures
        sections_view(sections@) == sections_of(doc_tree(input@), split_level),
{
    let events = parse_commonmark(input);
    let ghost t0 = doc_tree(input@);
    assert(ser(t0) == events_view(events@));
    match build_tree(&events) {
        Some(doc) => {
            let sections = sections_from_tree(&doc, split_level);
            assert(tree_view(doc) == t0);
            sections
        },
        None => {
            assert(false);
            Vec::new()
        },
    }
}

} // verus!
