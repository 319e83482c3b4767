//! Drawing the outline of a piece with box-drawing characters.
use vstd::prelude::*;
use crate::text::{repeat_char, repeated, push_char, chars_of, push_chars, strings_view};
use crate::piece::types::{Piece, RenderedLine, segs_text, line_view, line_widths};
use crate::piece::outline::{
    OutlineGroup, outline_of, widths_fit, lemma_outline_of, group_bounds, is_partition,
};

verus! {

/// `a - b`, or 0 when `b` is larger.
pub open spec fn minus_or_zero(a: nat, b: nat) -> nat {
    if a >= b { (a - b) as nat } else { 0 }
}

/// The top or bottom edge of an outline `w` columns wide.
pub open spec fn edge_chars(left: char, w: nat, right: char) -> Seq<char> {
    seq![left] + repeat_char('─', w) + seq![right]
}

/// The row that joins a group of border width `prev_w` to the next group,
/// of border width `next_w`.
///
/// ```text
/// step down (next < prev):    step up (next > prev):
///   │     ┌──────┘              │     └──────┐
///   0  next_w   prev_w          0  prev_w   next_w
/// ```
pub open spec fn step_chars(prev_w: nat, next_w: nat) -> Seq<char> {
    if next_w < prev_w {
        seq!['│'] + repeat_char(' ', next_w) + seq!['┌'] + repeat_char('─', (prev_w - next_w - 1) as nat)
            + seq!['┘']
    } else {
        seq!['│'] + repeat_char(' ', prev_w) + seq!['└'] + repeat_char('─', (next_w - prev_w - 1) as nat)
            + seq!['┐']
    }
}

/// A line of the piece inside a border of width `w`, padded with spaces.
pub open spec fn line_chars(line: RenderedLine, w: nat) -> Seq<char> {
    seq!['│'] + segs_text(line_view(line)) + repeat_char(' ', minus_or_zero(w, line.width as nat)) + seq!['│']
}

/// The rows of group `k`: a step row when its border width differs from
/// the previous group's, then one row per line.
pub open spec fn group_rows(lines: Seq<RenderedLine>, gs: Seq<OutlineGroup>, k: int) -> Seq<Seq<char>> {
    let g = gs[k];
    let step = if k > 0 && gs[k - 1].border_width != g.border_width {
        seq![step_chars(gs[k - 1].border_width as nat, g.border_width as nat)]
    } else {
        Seq::empty()
    };
    step + Seq::new(
        (g.end - g.start + 1) as nat,
        |i: int| line_chars(lines[g.start + i], g.border_width as nat),
    )
}

/// The rows of the first `k` groups.
pub open spec fn body_rows(lines: Seq<RenderedLine>, gs: Seq<OutlineGroup>, k: int) -> Seq<Seq<char>>
    decreases k,
{
    if k <= 0 {
        Seq::empty()
    } else {
        body_rows(lines, gs, k - 1) + group_rows(lines, gs, k - 1)
    }
}

/// The outline drawn around `lines` split into groups `gs`: nothing for no
/// group, else a top edge, the rows of every group, and a bottom edge.
pub open spec fn outline_rows(lines: Seq<RenderedLine>, gs: Seq<OutlineGroup>) -> Seq<Seq<char>> {
    if gs.len() == 0 {
        Seq::empty()
    } else {
        seq![edge_chars('┌', gs[0].border_width as nat, '┐')] + body_rows(lines, gs, gs.len() as int)
            + seq![edge_chars('└', gs.last().border_width as nat, '┘')]
    }
}

/// The number of lines in the first `k` groups.
pub open spec fn lines_in_groups(gs: Seq<OutlineGroup>, k: int) -> int
    decreases k,
{
    if k <= 0 {
        0
    } else {
        lines_in_groups(gs, k - 1) + (gs[k - 1].end + 1 - gs[k - 1].start)
    }
}

/// The number of places among the first `k` groups where a group's border
/// width differs from the group before it.
pub open spec fn width_changes(gs: Seq<OutlineGroup>, k: int) -> int
    decreases k,
{
    if k <= 1 {
        0
    } else {
        width_changes(gs, k - 1) + if gs[k - 1].border_width != gs[k - 2].border_width {
            1int
        } else {
            0int
        }
    }
}

proof fn lemma_body_rows_len(lines: Seq<RenderedLine>, gs: Seq<OutlineGroup>, k: int)
    requires
        0 <= k <= gs.len(),
        forall|i: int| 0 <= i < gs.len() ==> (#[trigger] gs[i]).start <= gs[i].end,
    ensures
        body_rows(lines, gs, k).len() == lines_in_groups(gs, k) + width_changes(gs, k),
    decreases k,
{
    if k > 0 {
        lemma_body_rows_len(lines, gs, k - 1);
        assert(gs[k - 1].start <= gs[k - 1].end);
    }
}

proof fn lemma_body_rows_prefix(lines: Seq<RenderedLine>, gs: Seq<OutlineGroup>, k: int, m: int, i: int)
    requires
        0 <= k <= m <= gs.len(),
        0 <= i < body_rows(lines, gs, k).len(),
    ensures
        i < body_rows(lines, gs, m).len(),
        body_rows(lines, gs, m)[i] == body_rows(lines, gs, k)[i],
    decreases m - k,
{
    if m > k {
        lemma_body_rows_prefix(lines, gs, k, m - 1, i);
    }
}

/// The outline has one row per line, a top and a bottom edge, and one step
/// row at each place where two adjacent groups differ in border width: the
/// step row built from exactly those two widths.
pub proof fn outline_steps_between_adjacent_groups(lines: Seq<RenderedLine>, gs: Seq<OutlineGroup>)
    requires
        forall|i: int| 0 <= i < gs.len() ==> (#[trigger] gs[i]).start <= gs[i].end,
    ensures
        outline_rows(lines, gs).len() == if gs.len() == 0 {
            0
        } else {
            2 + lines_in_groups(gs, gs.len() as int) + width_changes(gs, gs.len() as int)
        },
        forall|k: int|
            0 < k < gs.len() && #[trigger] gs[k].border_width != gs[k - 1].border_width ==> outline_rows(
                lines,
                gs,
            ).contains(step_chars(gs[k - 1].border_width as nat, gs[k].border_width as nat)),
{
    let n = gs.len() as int;
    lemma_body_rows_len(lines, gs, n);
    assert forall|k: int|
        0 < k < gs.len() && #[trigger] gs[k].border_width != gs[k - 1].border_width implies outline_rows(
            lines,
            gs,
        ).contains(step_chars(gs[k - 1].border_width as nat, gs[k].border_width as nat)) by {
        let i = body_rows(lines, gs, k).len() as int;
        assert(body_rows(lines, gs, k + 1) == body_rows(lines, gs, k) + group_rows(lines, gs, k));
        assert(body_rows(lines, gs, k + 1)[i] == step_chars(gs[k - 1].border_width as nat, gs[k].border_width as nat));
        lemma_body_rows_prefix(lines, gs, k + 1, n, i);
        assert(outline_rows(lines, gs)[1 + i] == body_rows(lines, gs, n)[i]);
    }
}

/// A step row between widths `prev_w` and `next_w` is as wide as the
/// wider group plus its two walls: a wall, spaces over the narrower group,
/// a corner turning towards the other width, dashes up to the wider width,
/// and a closing corner.
pub proof fn step_row_shape(prev_w: nat, next_w: nat)
    requires
        prev_w != next_w,
    ensures
        ({
            let r = step_chars(prev_w, next_w);
            let lo = if next_w < prev_w { next_w } else { prev_w };
            let hi = if next_w < prev_w { prev_w } else { next_w };
            &&& r.len() == hi + 2
            &&& r[0] == '│'
            &&& forall|i: int| 1 <= i <= lo ==> r[i] == ' '
            &&& r[lo + 1int] == if next_w < prev_w { '┌' } else { '└' }
            &&& forall|i: int| lo + 2 <= i <= hi ==> r[i] == '─'
            &&& r[hi + 1int] == if next_w < prev_w { '┘' } else { '┐' }
        }),
{
    let r = step_chars(prev_w, next_w);
    let lo = if next_w < prev_w { next_w } else { prev_w };
    let hi = if next_w < prev_w { prev_w } else { next_w };
    let a = seq!['│'] + repeat_char(' ', lo);
    let b = a + seq![if next_w < prev_w { '┌' } else { '└' }];
    let c = b + repeat_char('─', (hi - lo - 1) as nat);
    assert(r =~= c + seq![if next_w < prev_w { '┘' } else { '┐' }]);
    assert forall|i: int| 1 <= i <= lo implies r[i] == ' ' by {
        assert(r[i] == a[i]);
    }
    assert forall|i: int| lo + 2 <= i <= hi implies r[i] == '─' by {
        assert(r[i] == c[i]);
    }
    assert(r[lo + 1int] == b[lo + 1int]);
}

fn edge_row(left: char, w: usize, right: char) -> (s: String)
    ensures
        s@ == edge_chars(left, w as nat, right),
{
    let mut s = String::new();
    push_char(&mut s, left);
    let bar = chars_of(repeated('─', w).as_str());
    push_chars(&mut s, &bar);
    push_char(&mut s, right);
    s
}

/// The row joining a group of border width `prev_w` to one of `next_w`.
fn step_row(prev_w: usize, next_w: usize) -> (s: String)
    requires
        prev_w != next_w,
    ensures
        s@ == step_chars(prev_w as nat, next_w as nat),
{
    let mut s = String::new();
    push_char(&mut s, '│');
    if next_w < prev_w {
        let gap = prev_w - next_w - 1;
        push_chars(&mut s, &chars_of(repeated(' ', next_w).as_str()));
        push_char(&mut s, '┌');
        push_chars(&mut s, &chars_of(repeated('─', gap).as_str()));
        push_char(&mut s, '┘');
    } else {
        let gap = next_w - prev_w - 1;
        push_chars(&mut s, &chars_of(repeated(' ', prev_w).as_str()));
        push_char(&mut s, '└');
        push_chars(&mut s, &chars_of(repeated('─', gap).as_str()));
        push_char(&mut s, '┐');
    }
    s
}

fn line_row(line: &RenderedLine, w: usize) -> (s: String)
    ensures
        s@ == line_chars(*line, w as nat),
{
    let mut s = String::new();
    push_char(&mut s, '│');
    let text = line.text();
    push_chars(&mut s, &chars_of(text.as_str()));
    let pad = w.saturating_sub(line.width);
    push_chars(&mut s, &chars_of(repeated(' ', pad).as_str()));
    push_char(&mut s, '│');
    s
}

/// The outline of a piece as text rows: each group of lines padded to its
/// border width inside `│` walls, step rows where the width changes, and
/// top and bottom edges. A piece without lines has no outline.
pub fn render_outline(piece: &Piece) -> (out: Vec<String>)
    requires
        widths_fit(line_widths(piece.lines@)),
    ensures
        strings_view(out@) == outline_rows(
            piece.lines@,
            outline_of(line_widths(piece.lines@), piece.lines.len() as int),
        ),
{
    let groups = piece.outline_groups();
    let ghost lines = piece.lines@;
    let ghost gs = groups@;
    proof {
        lemma_outline_of(line_widths(piece.lines@), piece.lines.len() as int);
    }
    if groups.len() == 0 {
        return Vec::new();
    }
    let mut out: Vec<String> = Vec::new();
    out.push(edge_row('┌', groups[0].border_width, '┐'));
    let ghost top = seq![edge_chars('┌', gs[0].border_width as nat, '┐')];
    assert(is_partition(group_bounds(gs), lines.len() as int));
    assert forall|k: int| 0 <= k < gs.len() implies (#[trigger] gs[k]).start <= gs[k].end by {
        assert(group_bounds(gs)[k] == (gs[k].start as int, gs[k].end as int));
        assert(group_bounds(gs)[k].0 <= group_bounds(gs)[k].1);
    }
    assert(strings_view(out@) =~= top + body_rows(lines, gs, 0));
    let mut gi: usize = 0;
    while gi < groups.len()
        invariant
            0 <= gi <= groups.len(),
            gs == groups@,
            gs.len() > 0,
            lines == piece.lines@,
            top == seq![edge_chars('┌', gs[0].border_width as nat, '┐')],
            forall|k: int| 0 <= k < gs.len() ==> (#[trigger] gs[k]).end < lines.len(),
            forall|k: int| 0 <= k < gs.len() ==> (#[trigger] gs[k]).start <= gs[k].end,
            strings_view(out@) == top + body_rows(lines, gs, gi as int),
        decreases groups.len() - gi,
    {
        let group = groups[gi];
        assert(group_bounds(gs)[gi as int] == (gs[gi as int].start as int, gs[gi as int].end as int));
        let ghost before = strings_view(out@);
        let ghost step: Seq<Seq<char>> = if gi > 0 && gs[gi - 1].border_width != group.border_width {
            seq![step_chars(gs[gi - 1].border_width as nat, group.border_width as nat)]
        } else {
            Seq::empty()
        };
        if gi > 0 {
            let prev_w = groups[gi - 1].border_width;
            if prev_w != group.border_width {
                out.push(step_row(prev_w, group.border_width));
            }
        }
        assert(strings_view(out@) =~= before + step);
        let ghost rows = Seq::new(
            (group.end - group.start + 1) as nat,
            |i: int| line_chars(lines[group.start + i], group.border_width as nat),
        );
        let mut li: usize = group.start;
        while li <= group.end
            invariant
                group.start <= li <= group.end + 1,
                group.end < lines.len(),
                lines == piece.lines@,
                lines.len() == piece.lines.len(),
                rows == Seq::new(
                    (group.end - group.start + 1) as nat,
                    |i: int| line_chars(lines[group.start + i], group.border_width as nat),
                ),
                strings_view(out@) == before + step + rows.take(li - group.start),
            decreases group.end + 1 - li,
        {
            let row = line_row(&piece.lines[li], group.border_width);
            assert(row@ == rows[li - group.start]);
            let ghost prev = strings_view(out@);
            out.push(row);
            assert(strings_view(out@) =~= prev.push(row@));
            li += 1;
            assert(strings_view(out@) =~= before + step + rows.take(li - group.start));
        }
        assert(rows.take(li - group.start) =~= rows);
        assert(group_rows(lines, gs, gi as int) =~= step + rows);
        gi += 1;
        assert(strings_view(out@) =~= top + body_rows(lines, gs, gi as int));
    }
    out.push(edge_row('└', groups[groups.len() - 1].border_width, '┘'));
    assert(strings_view(out@) =~= outline_rows(lines, gs));
    out
}

} // verus!
