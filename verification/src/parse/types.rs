//! The content of a markdown section, as the renderer reads it.
use vstd::prelude::*;
use crate::piece::TextStyle;
use crate::text::strings_view;

verus! {

/// A section: an optional title (the split heading) and its content.
#[derive(Debug)]
pub struct Section {
    pub title: Option<String>,
    pub items: Vec<ContentItem>,
}

/// One block of section content.
#[derive(Debug)]
pub enum ContentItem {
    Heading { level: u8, text: String },
    Paragraph { runs: Vec<TextRun> },
    CodeBlock { code: String },
    List { items: Vec<ListEntry>, ordered: bool },
    Table { headers: Vec<String>, rows: Vec<Vec<String>> },
    Rule,
    BlockQuote { items: Vec<ContentItem> },
}

/// Text in one style.
#[derive(Debug, Clone)]
pub struct TextRun {
    pub text: String,
    pub style: TextStyle,
}

/// A list item: its inline text and its nested items.
#[derive(Debug)]
pub struct ListEntry {
    pub runs: Vec<TextRun>,
    pub children: Vec<ListEntry>,
}

/// A run as plain values.
pub type RunView = (Seq<char>, TextStyle);

pub open spec fn runs_view(runs: Seq<TextRun>) -> Seq<RunView> {
    runs.map_values(|r: TextRun| (r.text@, r.style))
}

} // verus!

verus! {

/// A block as plain values.
pub enum ItemView {
    Heading(u8, Seq<char>),
    Paragraph(Seq<RunView>),
    CodeBlock(Seq<char>),
    List(Seq<EntryView>, bool),
    Table(Seq<Seq<char>>, Seq<Seq<Seq<char>>>),
    Rule,
    BlockQuote(Seq<ItemView>),
}

/// A list entry as plain values.
pub struct EntryView {
    pub runs: Seq<RunView>,
    pub children: Seq<EntryView>,
}

/// A section as plain values.
pub struct SectionView {
    pub title: Option<Seq<char>>,
    pub items: Seq<ItemView>,
}

pub open spec fn table_rows_view(rows: Seq<Vec<String>>) -> Seq<Seq<Seq<char>>> {
    rows.map_values(|r: Vec<String>| strings_view(r@))
}

pub open spec fn entry_view(e: ListEntry) -> EntryView
    decreases e,
{
    EntryView { runs: runs_view(e.runs@), children: entries_view(e.children@, e.children@.len() as int) }
}

/// The views of the first `k` entries.
pub open spec fn entries_view(es: Seq<ListEntry>, k: int) -> Seq<EntryView>
    decreases es, k,
{
    if k <= 0 || k > es.len() {
        Seq::empty()
    } else {
        entries_view(es, k - 1).push(entry_view(es[k - 1]))
    }
}

pub open spec fn item_view(item: ContentItem) -> ItemView
    decreases item,
{
    match item {
        ContentItem::Heading { level, text } => ItemView::Heading(level, text@),
        ContentItem::Paragraph { runs } => ItemView::Paragraph(runs_view(runs@)),
        ContentItem::CodeBlock { code } => ItemView::CodeBlock(code@),
        ContentItem::List { items, ordered } => ItemView::List(entries_view(items@, items@.len() as int), ordered),
        ContentItem::Table { headers, rows } => ItemView::Table(strings_view(headers@), table_rows_view(rows@)),
        ContentItem::Rule => ItemView::Rule,
        ContentItem::BlockQuote { items } => ItemView::BlockQuote(items_view(items@, items@.len() as int)),
    }
}

/// The views of the first `k` blocks.
pub open spec fn items_view(items: Seq<ContentItem>, k: int) -> Seq<ItemView>
    decreases items, k,
{
    if k <= 0 || k > items.len() {
        Seq::empty()
    } else {
        items_view(items, k - 1).push(item_view(items[k - 1]))
    }
}

pub open spec fn title_view(t: Option<String>) -> Option<Seq<char>> {
    match t {
        Some(s) => Some(s@),
        None => None,
    }
}

pub open spec fn section_view(s: Section) -> SectionView {
    SectionView { title: title_view(s.title), items: items_view(s.items@, s.items@.len() as int) }
}

pub proof fn lemma_entries_view(es: Seq<ListEntry>, k: int)
    requires
        0 <= k <= es.len(),
    ensures
        entries_view(es, k).len() == k,
        forall|i: int| 0 <= i < k ==> #[trigger] entries_view(es, k)[i] == entry_view(es[i]),
    decreases k,
{
    if k > 0 {
        lemma_entries_view(es, k - 1);
    }
}

pub proof fn lemma_items_view(items: Seq<ContentItem>, k: int)
    requires
        0 <= k <= items.len(),
    ensures
        items_view(items, k).len() == k,
        forall|i: int| 0 <= i < k ==> #[trigger] items_view(items, k)[i] == item_view(items[i]),
    decreases k,
{
    if k > 0 {
        lemma_items_view(items, k - 1);
    }
}

} // verus!

verus! {

pub proof fn lemma_entries_view_prefix(a: Seq<ListEntry>, b: Seq<ListEntry>, k: int)
    requires
        0 <= k <= a.len(),
        k <= b.len(),
        forall|i: int| 0 <= i < k ==> a[i] == b[i],
    ensures
        entries_view(a, k) == entries_view(b, k),
    decreases k,
{
    if k > 0 {
        lemma_entries_view_prefix(a, b, k - 1);
    }
}

pub proof fn lemma_entries_view_push(es: Seq<ListEntry>, x: ListEntry)
    ensures
        entries_view(es.push(x), (es.len() + 1) as int) == entries_view(es, es.len() as int).push(entry_view(x)),
{
    lemma_entries_view_prefix(es.push(x), es, es.len() as int);
}

pub proof fn lemma_items_view_prefix(a: Seq<ContentItem>, b: Seq<ContentItem>, k: int)
    requires
        0 <= k <= a.len(),
        k <= b.len(),
        forall|i: int| 0 <= i < k ==> a[i] == b[i],
    ensures
        items_view(a, k) == items_view(b, k),
    decreases k,
{
    if k > 0 {
        lemma_items_view_prefix(a, b, k - 1);
    }
}

pub proof fn lemma_items_view_push(items: Seq<ContentItem>, x: ContentItem)
    ensures
        items_view(items.push(x), (items.len() + 1) as int) == items_view(items, items.len() as int).push(item_view(x)),
{
    lemma_items_view_prefix(items.push(x), items, items.len() as int);
}

pub open spec fn sections_view(v: Seq<Section>) -> Seq<SectionView> {
    v.map_values(|s: Section| section_view(s))
}

pub open spec fn opt_entry_view(o: Option<ListEntry>) -> Option<EntryView> {
    match o {
        Some(e) => Some(entry_view(e)),
        None => None,
    }
}

pub open spec fn opt_item_view(o: Option<ContentItem>) -> Option<ItemView> {
    match o {
        Some(i) => Some(item_view(i)),
        None => None,
    }
}


// Copies. The types are recursive, so their copies are written out.

fn clone_runs(runs: &Vec<TextRun>) -> (r: Vec<TextRun>)
    ensures
        runs_view(r@) == runs_view(runs@),
{
    let mut r: Vec<TextRun> = Vec::new();
    let mut i: usize = 0;
    while i < runs.len()
        invariant
            i <= runs.len(),
            runs_view(r@) == runs_view(runs@.take(i as int)),
        decreases runs.len() - i,
    {
        let t = TextRun { text: runs[i].text.clone(), style: runs[i].style };
        proof {
            assert(runs@.take(i + 1) =~= runs@.take(i as int).push(runs@[i as int]));
            assert(runs_view(r@.push(t)) =~= runs_view(r@).push((t.text@, t.style)));
            assert(runs_view(runs@.take(i + 1)) =~= runs_view(runs@.take(i as int)).push(
                (runs@[i as int].text@, runs@[i as int].style),
            ));
        }
        r.push(t);
        i += 1;
        assert(runs_view(r@) =~= runs_view(runs@.take(i as int)));
    }
    assert(runs@.take(runs.len() as int) =~= runs@);
    r
}

fn clone_strings(v: &Vec<String>) -> (r: Vec<String>)
    ensures
        strings_view(r@) == strings_view(v@),
{
    let mut r: Vec<String> = Vec::new();
    let mut i: usize = 0;
    while i < v.len()
        invariant
            i <= v.len(),
            strings_view(r@) == strings_view(v@.take(i as int)),
        decreases v.len() - i,
    {
        let t = v[i].clone();
        proof {
            assert(v@.take(i + 1) =~= v@.take(i as int).push(v@[i as int]));
            assert(strings_view(r@.push(t)) =~= strings_view(r@).push(t@));
            assert(strings_view(v@.take(i + 1)) =~= strings_view(v@.take(i as int)).push(v@[i as int]@));
        }
        r.push(t);
        i += 1;
        assert(strings_view(r@) =~= strings_view(v@.take(i as int)));
    }
    assert(v@.take(v.len() as int) =~= v@);
    r
}

fn clone_rows(rows: &Vec<Vec<String>>) -> (r: Vec<Vec<String>>)
    ensures
        table_rows_view(r@) == table_rows_view(rows@),
{
    let mut r: Vec<Vec<String>> = Vec::new();
    let mut i: usize = 0;
    while i < rows.len()
        invariant
            i <= rows.len(),
            table_rows_view(r@) == table_rows_view(rows@.take(i as int)),
        decreases rows.len() - i,
    {
        let t = clone_strings(&rows[i]);
        proof {
            assert(rows@.take(i + 1) =~= rows@.take(i as int).push(rows@[i as int]));
            assert(table_rows_view(r@.push(t)) =~= table_rows_view(r@).push(strings_view(t@)));
            assert(table_rows_view(rows@.take(i + 1)) =~= table_rows_view(rows@.take(i as int)).push(
                strings_view(rows@[i as int]@),
            ));
        }
        r.push(t);
        i += 1;
        assert(table_rows_view(r@) =~= table_rows_view(rows@.take(i as int)));
    }
    assert(rows@.take(rows.len() as int) =~= rows@);
    r
}

fn clone_entry(e: &ListEntry) -> (r: ListEntry)
    ensures
        entry_view(r) == entry_view(*e),
    decreases e,
{
    let mut children: Vec<ListEntry> = Vec::new();
    let mut i: usize = 0;
    proof {
        lemma_entries_view(e.children@, e.children@.len() as int);
    }
    while i < e.children.len()
        invariant
            i <= e.children.len(),
            children@.len() == i,
            entries_view(e.children@, e.children@.len() as int).len() == e.children@.len(),
            forall|k: int| 0 <= k < i ==> #[trigger] entry_view(children@[k]) == entry_view(e.children@[k]),
        decreases e.children.len() - i,
    {
        proof {
            assert(decreases_to!(*e => e.children));
        }
        let c = clone_entry(&e.children[i]);
        children.push(c);
        i += 1;
    }
    proof {
        lemma_entries_view(children@, children@.len() as int);
        lemma_entries_view(e.children@, e.children@.len() as int);
        assert(entries_view(children@, children@.len() as int) =~= entries_view(e.children@, e.children@.len() as int));
    }
    ListEntry { runs: clone_runs(&e.runs), children }
}

fn clone_item(item: &ContentItem) -> (r: ContentItem)
    ensures
        item_view(r) == item_view(*item),
    decreases item,
{
    match item {
        ContentItem::Heading { level, text } => ContentItem::Heading { level: *level, text: text.clone() },
        ContentItem::Paragraph { runs } => ContentItem::Paragraph { runs: clone_runs(runs) },
        ContentItem::CodeBlock { code } => ContentItem::CodeBlock { code: code.clone() },
        ContentItem::List { items, ordered } => {
            let mut es: Vec<ListEntry> = Vec::new();
            let mut i: usize = 0;
            while i < items.len()
                invariant
                    i <= items.len(),
                    es@.len() == i,
                    forall|k: int| 0 <= k < i ==> #[trigger] entry_view(es@[k]) == entry_view(items@[k]),
                decreases items.len() - i,
            {
                let c = clone_entry(&items[i]);
                es.push(c);
                i += 1;
            }
            proof {
                lemma_entries_view(es@, es@.len() as int);
                lemma_entries_view(items@, items@.len() as int);
                assert(entries_view(es@, es@.len() as int) =~= entries_view(items@, items@.len() as int));
            }
            ContentItem::List { items: es, ordered: *ordered }
        },
        ContentItem::Table { headers, rows } => ContentItem::Table {
            headers: clone_strings(headers),
            rows: clone_rows(rows),
        },
        ContentItem::Rule => ContentItem::Rule,
        ContentItem::BlockQuote { items } => {
            let mut its: Vec<ContentItem> = Vec::new();
            let mut i: usize = 0;
            while i < items.len()
                invariant
                    i <= items.len(),
                    *item is BlockQuote,
                    item->BlockQuote_items == *items,
                    its@.len() == i,
                    forall|k: int| 0 <= k < i ==> #[trigger] item_view(its@[k]) == item_view(items@[k]),
                decreases items.len() - i,
            {
                proof {
                    assert(decreases_to!(*item => item->BlockQuote_items));
                }
                let c = clone_item(&items[i]);
                its.push(c);
                i += 1;
            }
            proof {
                lemma_items_view(its@, its@.len() as int);
                lemma_items_view(items@, items@.len() as int);
                assert(items_view(its@, its@.len() as int) =~= items_view(items@, items@.len() as int));
            }
            ContentItem::BlockQuote { items: its }
        },
    }
}

impl Clone for ListEntry {
    fn clone(&self) -> (r: Self)
        ensures
            entry_view(r) == entry_view(*self),
    {
        clone_entry(self)
    }
}

impl Clone for ContentItem {
    fn clone(&self) -> (r: Self)
        ensures
            item_view(r) == item_view(*self),
    {
        clone_item(self)
    }
}

impl Clone for Section {
    fn clone(&self) -> (r: Self)
        ensures
            section_view(r) == section_view(*self),
    {
        let mut items: Vec<ContentItem> = Vec::new();
        let mut i: usize = 0;
        while i < self.items.len()
            invariant
                i <= self.items.len(),
                items@.len() == i,
                forall|k: int| 0 <= k < i ==> #[trigger] item_view(items@[k]) == item_view(self.items@[k]),
            decreases self.items.len() - i,
        {
            let c = clone_item(&self.items[i]);
            items.push(c);
            i += 1;
        }
        proof {
            lemma_items_view(items@, items@.len() as int);
            lemma_items_view(self.items@, self.items@.len() as int);
            assert(items_view(items@, items@.len() as int) =~= items_view(self.items@, self.items@.len() as int));
        }
        let title = match &self.title {
            Some(t) => Some(t.clone()),
            None => None,
        };
        Section { title, items }
    }
}

} // verus!
