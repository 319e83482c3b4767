//! Rendered text: styled segments, lines and pieces.
use vstd::prelude::*;
use crate::text::push_chars;
use crate::text::chars_of;

verus! {

/// The typographic style of a run of text.
#[derive(Debug, Clone, Copy, PartialEq, Eq, Structural)]
pub enum TextStyle {
    Normal,
    Bold,
    Italic,
    BoldItalic,
    Code,
}

/// A piece of text in one style.
#[derive(Debug, Clone)]
pub struct LineSegment {
    pub text: String,
    pub style: TextStyle,
}

/// One output line: its segments and its width in characters.
#[derive(Debug, Clone)]
pub struct RenderedLine {
    pub segments: Vec<LineSegment>,
    pub width: usize,
}

/// A rendered section.
#[derive(Debug, Clone)]
pub struct Piece {
    pub section_index: usize,
    pub title: Option<String>,
    pub lines: Vec<RenderedLine>,
}

/// A segment as plain values: its characters and its style.
pub type SegView = (Seq<char>, TextStyle);

pub open spec fn seg_view(s: LineSegment) -> SegView {
    (s.text@, s.style)
}

pub open spec fn segs_view(segs: Seq<LineSegment>) -> Seq<SegView> {
    segs.map_values(|s: LineSegment| seg_view(s))
}

/// Total number of characters in a sequence of segments.
pub open spec fn segs_width(v: Seq<SegView>) -> nat
    decreases v.len(),
{
    if v.len() == 0 {
        0
    } else {
        segs_width(v.drop_last()) + v.last().0.len()
    }
}

/// The characters of a sequence of segments, concatenated.
pub open spec fn segs_text(v: Seq<SegView>) -> Seq<char>
    decreases v.len(),
{
    if v.len() == 0 {
        Seq::empty()
    } else {
        segs_text(v.drop_last()) + v.last().0
    }
}

/// A line as plain values.
pub open spec fn line_view(l: RenderedLine) -> Seq<SegView> {
    segs_view(l.segments@)
}

/// The widths of a sequence of lines.
pub open spec fn line_widths(ls: Seq<RenderedLine>) -> Seq<usize> {
    ls.map_values(|l: RenderedLine| l.width)
}

pub proof fn lemma_segs_width_is_text_len(v: Seq<SegView>)
    ensures
        segs_width(v) == segs_text(v).len(),
    decreases v.len(),
{
    if v.len() > 0 {
        lemma_segs_width_is_text_len(v.drop_last());
    }
}

impl RenderedLine {
    /// A line of the given segments; its width is their total character count.
    pub fn new(segments: Vec<LineSegment>) -> (l: Self)
        requires
            segs_width(segs_view(segments@)) <= usize::MAX,
        ensures
            l.segments@ == segments@,
            l.width == segs_width(segs_view(segments@)),
    {
        let mut width: usize = 0;
        let mut i: usize = 0;
        while i < segments.len()
            invariant
                i <= segments.len(),
                segs_width(segs_view(segments@)) <= usize::MAX,
                width == segs_width(segs_view(segments@.take(i as int))),
            decreases segments.len() - i,
        {
            proof {
                lemma_segs_width_prefix_mono(segs_view(segments@), i as int + 1);
                assert(segs_view(segments@.take(i + 1)).drop_last() =~= segs_view(
                    segments@.take(i as int),
                ));
                assert(segs_view(segments@).take(i + 1) =~= segs_view(segments@.take(i + 1)));
            }
            width = width + segments[i].text.as_str().unicode_len();
            i += 1;
        }
        assert(segments@.take(segments.len() as int) =~= segments@);
        RenderedLine { segments, width }
    }

    /// A line of one segment.
    pub fn single(text: String, style: TextStyle) -> (l: Self)
        requires
            text@.len() <= usize::MAX,
        ensures
            segs_view(l.segments@) == seq![(text@, style)],
            l.width == text@.len(),
    {
        let mut segs: Vec<LineSegment> = Vec::new();
        let ghost t = text@;
        segs.push(LineSegment { text, style });
        proof {
            assert(segs_view(segs@) =~= seq![(t, style)]);
            assert(seq![(t, style)].drop_last() =~= Seq::<SegView>::empty());
            assert(segs_width(Seq::<SegView>::empty()) == 0);
            assert(segs_width(segs_view(segs@)) == t.len());
        }
        RenderedLine::new(segs)
    }

    /// The characters of all segments, concatenated.
    pub fn text(&self) -> (s: String)
        ensures
            s@ == segs_text(line_view(*self)),
    {
        let mut s = String::new();
        let mut i: usize = 0;
        while i < self.segments.len()
            invariant
                i <= self.segments.len(),
                s@ == segs_text(segs_view(self.segments@.take(i as int))),
            decreases self.segments.len() - i,
        {
            let cs = chars_of(self.segments[i].text.as_str());
            push_chars(&mut s, &cs);
            proof {
                assert(segs_view(self.segments@.take(i + 1)).drop_last() =~= segs_view(
                    self.segments@.take(i as int),
                ));
            }
            i += 1;
        }
        assert(self.segments@.take(self.segments.len() as int) =~= self.segments@);
        s
    }
}

pub proof fn lemma_segs_width_prefix_mono(v: Seq<SegView>, k: int)
    requires
        0 <= k <= v.len(),
    ensures
        segs_width(v.take(k)) <= segs_width(v),
    decreases v.len(),
{
    if k < v.len() {
        assert(v.drop_last().take(k) =~= v.take(k));
        lemma_segs_width_prefix_mono(v.drop_last(), k);
    } else {
        assert(v.take(k) =~= v);
    }
}

impl Piece {
    /// The width of every line, in order.
    pub fn widths(&self) -> (w: Vec<usize>)
        ensures
            w@ == line_widths(self.lines@),
    {
        let mut w: Vec<usize> = Vec::new();
        let mut i: usize = 0;
        while i < self.lines.len()
            invariant
                i <= self.lines.len(),
                w@ == line_widths(self.lines@.take(i as int)),
            decreases self.lines.len() - i,
        {
            w.push(self.lines[i].width);
            i += 1;
            assert(w@ =~= line_widths(self.lines@.take(i as int)));
        }
        assert(self.lines@.take(self.lines.len() as int) =~= self.lines@);
        w
    }
}

} // verus!
