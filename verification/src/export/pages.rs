//! Laying the board out on pages: how many pages, and for each page the
//! visible part of every placed piece, its outline as a polygon on the
//! character grid and the text of its visible lines.
use vstd::prelude::*;
use crate::board::{Board, PlacedPiece};
use crate::piece::types::{Piece, segs_text, line_view, line_widths};
use crate::piece::outline::{OutlineGroup, outline_of, widths_fit, compute_outline_groups, lemma_outline_of};

verus! {

/// The number of pages for `total_rows` board rows: at least one.
pub open spec fn page_count_of(total_rows: nat, rows_per_page: nat) -> nat {
    if total_rows == 0 {
        1
    } else {
        ((total_rows + rows_per_page - 1) / rows_per_page as int) as nat
    }
}

/// The number of pages needed for `total_rows` rows, `rows_per_page` each.
pub fn page_count(total_rows: usize, rows_per_page: usize) -> (n: usize)
    requires
        rows_per_page > 0,
        total_rows + rows_per_page <= usize::MAX,
    ensures
        n == page_count_of(total_rows as nat, rows_per_page as nat),
{
    if total_rows == 0 {
        1
    } else {
        (total_rows + rows_per_page - 1) / rows_per_page
    }
}

/// The pages hold all rows and no page is left empty: with `n` pages,
/// `n * rows_per_page` rows are enough and `n - 1` pages are too few (one
/// page for no rows).
pub proof fn pages_hold_the_board(total_rows: nat, rows_per_page: nat)
    requires
        rows_per_page > 0,
    ensures
        total_rows <= page_count_of(total_rows, rows_per_page) * rows_per_page,
        total_rows > 0 ==> (page_count_of(total_rows, rows_per_page) - 1) * rows_per_page < total_rows,
        total_rows == 0 ==> page_count_of(total_rows, rows_per_page) == 1,
{
    if total_rows > 0 {
        let x = total_rows + rows_per_page - 1;
        let n = x / rows_per_page as int;
        let r = x % rows_per_page as int;
        vstd::arithmetic::div_mod::lemma_fundamental_div_mod(x, rows_per_page as int);
        assert(x == rows_per_page * n + r);
        assert(0 <= r < rows_per_page) by {
            vstd::arithmetic::div_mod::lemma_mod_pos_bound(x, rows_per_page as int);
        }
        assert(n >= 1) by (nonlinear_arith)
            requires
                x == rows_per_page * n + r,
                0 <= r < rows_per_page,
                x >= rows_per_page,
        ;
        assert(total_rows <= n * rows_per_page) by (nonlinear_arith)
            requires
                x == rows_per_page * n + r,
                r < rows_per_page,
                x == total_rows + rows_per_page - 1,
        ;
        assert((n - 1) * rows_per_page < total_rows) by (nonlinear_arith)
            requires
                x == rows_per_page * n + r,
                r >= 0,
                x == total_rows + rows_per_page - 1,
        ;
    }
}

/// The rows of an outline group that are visible, counted from the first
/// visible line of the piece: `top..bottom`.
#[derive(Debug, Clone, Copy)]
pub struct RowSpan {
    pub border_width: usize,
    pub top: usize,
    pub bottom: usize,
}

pub open spec fn max_int(a: int, b: int) -> int {
    if a >= b { a } else { b }
}

pub open spec fn min_int(a: int, b: int) -> int {
    if a <= b { a } else { b }
}

/// The visible part of group `g` when lines `first..last` are visible.
pub open spec fn clip_one(g: OutlineGroup, first: int, last: int) -> Seq<RowSpan> {
    let s = max_int(g.start as int, first);
    let e = min_int(g.end + 1, last);
    if s < e {
        seq![RowSpan { border_width: g.border_width, top: (s - first) as usize, bottom: (e - first) as usize }]
    } else {
        Seq::empty()
    }
}

/// The visible parts of the groups, in order, groups with no visible line
/// left out.
pub open spec fn clip_of(gs: Seq<OutlineGroup>, first: int, last: int) -> Seq<RowSpan>
    decreases gs.len(),
{
    if gs.len() == 0 {
        Seq::empty()
    } else {
        clip_of(gs.drop_last(), first, last) + clip_one(gs.last(), first, last)
    }
}

/// The corners down the right side of the first `k` spans: a corner where
/// the width changes, and one at the bottom of every span.
pub open spec fn right_side(cs: Seq<RowSpan>, k: int) -> Seq<(usize, usize)>
    decreases k,
{
    if k <= 0 {
        Seq::empty()
    } else {
        let c = cs[k - 1];
        let step = if k > 1 && cs[k - 2].border_width != c.border_width {
            seq![(c.border_width, cs[k - 2].bottom)]
        } else {
            Seq::empty()
        };
        right_side(cs, k - 1) + step + seq![(c.border_width, c.bottom)]
    }
}

/// The outline polygon of the visible spans as `(column, row)` corners,
/// columns counted from the left edge of the piece: top-left, top-right,
/// down the right side, bottom-left.
pub open spec fn path_of(cs: Seq<RowSpan>) -> Seq<(usize, usize)> {
    if cs.len() == 0 {
        Seq::empty()
    } else {
        seq![(0usize, cs[0].top), (cs[0].border_width, cs[0].top)] + right_side(cs, cs.len() as int)
            + seq![(0usize, cs.last().bottom)]
    }
}

/// The non-empty texts of lines `first..k`, each with its row counted
/// from `first`.
pub open spec fn text_rows(lines: Seq<crate::piece::types::RenderedLine>, first: int, k: int) -> Seq<(usize, Seq<char>)>
    decreases k - first,
{
    if k <= first {
        Seq::empty()
    } else {
        let t = segs_text(line_view(lines[k - 1]));
        text_rows(lines, first, k - 1) + if t.len() > 0 {
            seq![((k - 1 - first) as usize, t)]
        } else {
            Seq::empty()
        }
    }
}

/// The visible part of a placed piece on a page.
pub struct PageBox {
    pub piece_index: usize,
    /// The board column of the piece's left edge.
    pub column: usize,
    /// The page row of the first visible line.
    pub top_row: usize,
    /// The outline polygon, see `path_of`.
    pub outline: Vec<(usize, usize)>,
    /// The visible non-empty lines, with their rows counted from `top_row`.
    pub texts: Vec<(usize, String)>,
}

/// A page box as plain values.
pub struct BoxView {
    pub piece_index: usize,
    pub column: usize,
    pub top_row: usize,
    pub outline: Seq<(usize, usize)>,
    pub texts: Seq<(usize, Seq<char>)>,
}

pub open spec fn box_view(b: PageBox) -> BoxView {
    BoxView {
        piece_index: b.piece_index,
        column: b.column,
        top_row: b.top_row,
        outline: b.outline@,
        texts: b.texts@.map_values(|t: (usize, String)| (t.0, t.1@)),
    }
}

pub open spec fn boxes_view(bs: Seq<PageBox>) -> Seq<BoxView> {
    bs.map_values(|b: PageBox| box_view(b))
}

/// The box of placed piece `pl` (drawn as `piece`) on the page of board
/// rows `page_start..page_end`, if any of it is visible there.
pub open spec fn box_for(pl: PlacedPiece, piece: Piece, page_start: int, page_end: int) -> Option<BoxView> {
    let gs = outline_of(line_widths(piece.lines@), piece.lines.len() as int);
    let ps = pl.anchor.y as int;
    let pe = ps + pl.shape.row_widths@.len();
    if gs.len() == 0 || pe <= page_start || ps >= page_end {
        None
    } else {
        let first = if page_start >= ps { page_start - ps } else { 0 };
        let last = min_int(pe, page_end) - ps;
        let clipped = clip_of(gs, first, last);
        if clipped.len() == 0 {
            None
        } else {
            Some(
                BoxView {
                    piece_index: pl.piece_index,
                    column: pl.anchor.x,
                    top_row: (if ps >= page_start { ps - page_start } else { 0 }) as usize,
                    outline: path_of(clipped),
                    texts: text_rows(piece.lines@, first, last),
                },
            )
        }
    }
}

/// The boxes of the first `k` placed pieces on a page, oldest first.
pub open spec fn boxes_for(placed: Seq<PlacedPiece>, pieces: Seq<Piece>, page_start: int, page_end: int, k: int) -> Seq<BoxView>
    decreases k,
{
    if k <= 0 {
        Seq::empty()
    } else {
        let pl = placed[k - 1];
        boxes_for(placed, pieces, page_start, page_end, k - 1) + match box_for(
            pl,
            pieces[pl.piece_index as int],
            page_start,
            page_end,
        ) {
            Some(b) => seq![b],
            None => Seq::empty(),
        }
    }
}

/// Every placed piece names one of `pieces`, is no taller than its
/// piece, and that piece's outline can be computed.
pub open spec fn placed_match(placed: Seq<PlacedPiece>, pieces: Seq<Piece>) -> bool {
    forall|i: int|
        0 <= i < placed.len() ==> {
            &&& (#[trigger] placed[i]).piece_index < pieces.len()
            &&& placed[i].shape.row_widths@.len() <= pieces[placed[i].piece_index as int].lines.len()
            &&& widths_fit(line_widths(pieces[placed[i].piece_index as int].lines@))
        }
}

/// Two corners share a column or a row.
pub open spec fn aligned(a: (usize, usize), b: (usize, usize)) -> bool {
    a.0 == b.0 || a.1 == b.1
}

pub open spec fn aligned_at(p: Seq<(usize, usize)>, j: int) -> bool {
    aligned(p[j], p[j + 1])
}

/// Every corner shares a column or a row with the next one.
pub open spec fn chain(p: Seq<(usize, usize)>) -> bool {
    forall|j: int| 0 <= j < p.len() - 1 ==> #[trigger] aligned_at(p, j)
}

/// A closed polygon with only horizontal and vertical edges, the last
/// corner joining back to the first.
pub open spec fn rectilinear(p: Seq<(usize, usize)>) -> bool {
    &&& chain(p)
    &&& p.len() > 0 ==> aligned(p.last(), p[0])
}

proof fn lemma_chain_concat(a: Seq<(usize, usize)>, b: Seq<(usize, usize)>)
    requires
        chain(a),
        chain(b),
        a.len() > 0 && b.len() > 0 ==> aligned(a.last(), b[0]),
    ensures
        chain(a + b),
{
    let c = a + b;
    assert forall|j: int| 0 <= j < c.len() - 1 implies #[trigger] aligned_at(c, j) by {
        if j < a.len() - 1 {
            assert(aligned_at(a, j));
            assert(c[j] == a[j] && c[j + 1] == a[j + 1]);
        } else if j == a.len() - 1 {
            assert(c[j] == a.last() && c[j + 1] == b[0]);
        } else {
            assert(aligned_at(b, j - a.len()));
            assert(c[j] == b[j - a.len()] && c[j + 1] == b[j + 1 - a.len()]);
        }
    }
}

proof fn lemma_right_side_chain(cs: Seq<RowSpan>, k: int)
    requires
        0 <= k <= cs.len(),
    ensures
        chain(right_side(cs, k)),
        k > 0 ==> right_side(cs, k).len() > 0 && right_side(cs, k)[0] == (cs[0].border_width, cs[0].bottom)
            && right_side(cs, k).last() == (cs[k - 1].border_width, cs[k - 1].bottom),
    decreases k,
{
    if k > 0 {
        lemma_right_side_chain(cs, k - 1);
        let rest = right_side(cs, k - 1);
        let c = cs[k - 1];
        let step = if k > 1 && cs[k - 2].border_width != c.border_width {
            seq![(c.border_width, cs[k - 2].bottom)]
        } else {
            Seq::empty()
        };
        let last = seq![(c.border_width, c.bottom)];
        assert(chain(step));
        assert(chain(last));
        lemma_chain_concat(step, last);
        if step.len() > 0 {
            assert(aligned(step.last(), last[0]));
        }
        let tail = step + last;
        assert(tail.len() > 0 && tail.last() == (c.border_width, c.bottom));
        if rest.len() > 0 {
            assert(aligned(rest.last(), tail[0]));
        }
        lemma_chain_concat(rest, tail);
        assert(right_side(cs, k) == rest + tail);
        if k == 1 {
            assert(rest.len() == 0);
            assert(step.len() == 0);
        }
    }
}

/// The outline of visible spans only turns at right angles: every two
/// consecutive corners, and the last and the first, share a column or a
/// row. In particular, where the border width changes between two spans,
/// a corner at the new width stands on the row where they meet.
pub proof fn outline_is_rectilinear(cs: Seq<RowSpan>)
    ensures
        rectilinear(path_of(cs)),
        forall|k: int|
            0 < k < cs.len() && #[trigger] cs[k].border_width != cs[k - 1].border_width ==> path_of(cs).contains(
                (cs[k].border_width, cs[k - 1].bottom),
            ),
{
    if cs.len() > 0 {
        let n = cs.len() as int;
        lemma_right_side_chain(cs, n);
        let head = seq![(0usize, cs[0].top), (cs[0].border_width, cs[0].top)];
        let rs = right_side(cs, n);
        let foot = seq![(0usize, cs.last().bottom)];
        assert(aligned_at(head, 0));
        assert(chain(head));
        assert(chain(foot));
        lemma_chain_concat(head, rs);
        assert((head + rs).last() == rs.last());
        lemma_chain_concat(head + rs, foot);
        assert(path_of(cs) == head + rs + foot);
        assert(path_of(cs).last() == foot[0]);
        assert(path_of(cs)[0] == head[0]);
        assert forall|k: int|
            0 < k < cs.len() && #[trigger] cs[k].border_width != cs[k - 1].border_width implies path_of(cs).contains(
                (cs[k].border_width, cs[k - 1].bottom),
            ) by {
            lemma_right_side_corner(cs, k, n);
            let i = choose|i: int| 0 <= i < rs.len() && rs[i] == (cs[k].border_width, cs[k - 1].bottom);
            assert(path_of(cs)[2 + i] == rs[i]);
        }
    }
}

proof fn lemma_right_side_corner(cs: Seq<RowSpan>, k: int, m: int)
    requires
        0 < k < m <= cs.len(),
        cs[k].border_width != cs[k - 1].border_width,
    ensures
        exists|i: int| 0 <= i < right_side(cs, m).len() && right_side(cs, m)[i] == (cs[k].border_width, cs[k - 1].bottom),
    decreases m,
{
    let rest = right_side(cs, m - 1);
    if m - 1 > k {
        lemma_right_side_corner(cs, k, m - 1);
        let i = choose|i: int| 0 <= i < rest.len() && rest[i] == (cs[k].border_width, cs[k - 1].bottom);
        assert(right_side(cs, m)[i] == rest[i]);
    } else {
        assert(right_side(cs, m)[rest.len() as int] == (cs[k].border_width, cs[k - 1].bottom));
    }
}

/// Every page box's outline turns at right angles only.
pub proof fn page_outlines_are_rectilinear(
    placed: Seq<PlacedPiece>,
    pieces: Seq<Piece>,
    page_start: int,
    page_end: int,
    k: int,
)
    ensures
        forall|j: int|
            0 <= j < boxes_for(placed, pieces, page_start, page_end, k).len() ==> rectilinear(
                (#[trigger] boxes_for(placed, pieces, page_start, page_end, k)[j]).outline,
            ),
    decreases k,
{
    if k > 0 {
        page_outlines_are_rectilinear(placed, pieces, page_start, page_end, k - 1);
        let pl = placed[k - 1];
        let piece = pieces[pl.piece_index as int];
        let rest = boxes_for(placed, pieces, page_start, page_end, k - 1);
        let all = boxes_for(placed, pieces, page_start, page_end, k);
        match box_for(pl, piece, page_start, page_end) {
            Some(b) => {
                let gs = outline_of(line_widths(piece.lines@), piece.lines.len() as int);
                let ps = pl.anchor.y as int;
                let pe = ps + pl.shape.row_widths@.len();
                let first = if page_start >= ps { page_start - ps } else { 0 };
                let last = min_int(pe, page_end) - ps;
                outline_is_rectilinear(clip_of(gs, first, last));
                assert(all == rest.push(b));
            },
            None => {
                assert(all == rest);
            },
        }
        assert forall|j: int| 0 <= j < all.len() implies rectilinear(#[trigger] all[j].outline) by {
            if j < rest.len() {
                assert(all[j] == rest[j]);
            }
        }
    }
}

/// Every text row and every corner of the box lies within its page:
/// counted from the top of the page, rows stay below `rows_per_page`.
pub open spec fn box_on_page(b: BoxView, rows_per_page: int) -> bool {
    &&& forall|j: int| 0 <= j < b.texts.len() ==> b.top_row + (#[trigger] b.texts[j]).0 < rows_per_page
    &&& forall|j: int| 0 <= j < b.outline.len() ==> b.top_row + (#[trigger] b.outline[j]).1 <= rows_per_page
}

proof fn lemma_text_rows_below(lines: Seq<crate::piece::types::RenderedLine>, first: int, k: int)
    requires
        first <= k,
        k - first <= usize::MAX,
    ensures
        forall|j: int| 0 <= j < text_rows(lines, first, k).len() ==> (#[trigger] text_rows(lines, first, k)[j]).0 < k - first,
    decreases k - first,
{
    if k > first {
        lemma_text_rows_below(lines, first, k - 1);
        let rest = text_rows(lines, first, k - 1);
        let t = segs_text(line_view(lines[k - 1]));
        let all = text_rows(lines, first, k);
        assert forall|j: int| 0 <= j < all.len() implies (#[trigger] all[j]).0 < k - first by {
            if j < rest.len() {
                assert(all[j] == rest[j]);
            }
        }
    }
}

proof fn lemma_clip_within(gs: Seq<OutlineGroup>, first: int, last: int)
    requires
        0 <= first <= last,
        last - first <= usize::MAX,
    ensures
        forall|j: int|
            0 <= j < clip_of(gs, first, last).len() ==> (#[trigger] clip_of(gs, first, last)[j]).top
                < clip_of(gs, first, last)[j].bottom <= last - first,
    decreases gs.len(),
{
    if gs.len() > 0 {
        lemma_clip_within(gs.drop_last(), first, last);
        let rest = clip_of(gs.drop_last(), first, last);
        let one = clip_one(gs.last(), first, last);
        let all = clip_of(gs, first, last);
        assert forall|j: int| 0 <= j < all.len() implies (#[trigger] all[j]).top < all[j].bottom <= last - first by {
            if j < rest.len() {
                assert(all[j] == rest[j]);
            } else {
                assert(all[j] == one[j - rest.len()]);
            }
        }
    }
}

proof fn lemma_right_side_within(cs: Seq<RowSpan>, k: int, bound: int)
    requires
        0 <= k <= cs.len(),
        forall|j: int| 0 <= j < cs.len() ==> (#[trigger] cs[j]).bottom <= bound,
    ensures
        forall|j: int| 0 <= j < right_side(cs, k).len() ==> (#[trigger] right_side(cs, k)[j]).1 <= bound,
    decreases k,
{
    if k > 0 {
        lemma_right_side_within(cs, k - 1, bound);
        let rest = right_side(cs, k - 1);
        let all = right_side(cs, k);
        let c = cs[k - 1];
        let step = if k > 1 && cs[k - 2].border_width != c.border_width {
            seq![(c.border_width, cs[k - 2].bottom)]
        } else {
            Seq::empty()
        };
        assert(all == rest + step + seq![(c.border_width, c.bottom)]);
        assert forall|j: int| 0 <= j < all.len() implies (#[trigger] all[j]).1 <= bound by {
            if j < rest.len() {
                assert(all[j] == rest[j]);
            } else if j < rest.len() + step.len() {
                assert(all[j] == step[j - rest.len()]);
            }
        }
    }
}

proof fn lemma_box_on_page(pl: PlacedPiece, piece: Piece, page_start: int, page_end: int)
    requires
        0 <= page_start <= page_end,
        page_end - page_start <= usize::MAX,
    ensures
        box_for(pl, piece, page_start, page_end) matches Some(b) ==> box_on_page(b, page_end - page_start),
{
    let gs = outline_of(line_widths(piece.lines@), piece.lines.len() as int);
    let ps = pl.anchor.y as int;
    let pe = ps + pl.shape.row_widths@.len();
    if !(gs.len() == 0 || pe <= page_start || ps >= page_end) {
        let first = if page_start >= ps { page_start - ps } else { 0 };
        let last = min_int(pe, page_end) - ps;
        let clipped = clip_of(gs, first, last);
        if clipped.len() > 0 {
            let top: int = if ps >= page_start { ps - page_start } else { 0 };
            assert(top + (last - first) <= page_end - page_start);
            lemma_text_rows_below(piece.lines@, first, last);
            lemma_clip_within(gs, first, last);
            lemma_right_side_within(clipped, clipped.len() as int, last - first);
            let b = box_for(pl, piece, page_start, page_end)->Some_0;
            assert forall|j: int| 0 <= j < b.outline.len() implies b.top_row + (#[trigger] b.outline[j]).1
                <= page_end - page_start by {
                let rs = right_side(clipped, clipped.len() as int);
                assert(b.outline == seq![(0usize, clipped[0].top), (clipped[0].border_width, clipped[0].top)]
                    + rs + seq![(0usize, clipped.last().bottom)]);
                if 2 <= j < 2 + rs.len() {
                    assert(b.outline[j] == rs[j - 2]);
                }
            }
        }
    }
}

/// Nothing of a page box lies past the bottom of its page: every text row
/// and every outline corner, counted from the top of the page, is within
/// the page's rows.
pub proof fn boxes_stay_on_their_page(
    placed: Seq<PlacedPiece>,
    pieces: Seq<Piece>,
    page_start: int,
    rows_per_page: int,
    k: int,
)
    requires
        0 <= page_start,
        0 <= rows_per_page <= usize::MAX,
    ensures
        forall|j: int|
            0 <= j < boxes_for(placed, pieces, page_start, page_start + rows_per_page, k).len() ==> box_on_page(
                #[trigger] boxes_for(placed, pieces, page_start, page_start + rows_per_page, k)[j],
                rows_per_page,
            ),
    decreases k,
{
    if k > 0 {
        boxes_stay_on_their_page(placed, pieces, page_start, rows_per_page, k - 1);
        let pl = placed[k - 1];
        lemma_box_on_page(pl, pieces[pl.piece_index as int], page_start, page_start + rows_per_page);
        let rest = boxes_for(placed, pieces, page_start, page_start + rows_per_page, k - 1);
        let all = boxes_for(placed, pieces, page_start, page_start + rows_per_page, k);
        assert forall|j: int| 0 <= j < all.len() implies box_on_page(#[trigger] all[j], rows_per_page) by {
            if j < rest.len() {
                assert(all[j] == rest[j]);
            }
        }
    }
}

/// Whether every placed piece names one of `pieces`, is no taller than
/// it, and that piece's outline can be computed.
pub fn pieces_match(board: &Board, pieces: &Vec<Piece>) -> (b: bool)
    ensures
        b == placed_match(board.placed_list(), pieces@),
{
    let all = board.placed_pieces();
    let mut k: usize = 0;
    while k < all.len()
        invariant
            k <= all.len(),
            all@ == board.placed_list(),
            forall|i: int|
                0 <= i < k ==> {
                    &&& (#[trigger] all@[i]).piece_index < pieces.len()
                    &&& all@[i].shape.row_widths@.len() <= pieces@[all@[i].piece_index as int].lines.len()
                    &&& widths_fit(line_widths(pieces@[all@[i].piece_index as int].lines@))
                },
        decreases all.len() - k,
    {
        let pl = &all[k];
        if pl.piece_index >= pieces.len() {
            return false;
        }
        let piece = &pieces[pl.piece_index];
        if pl.shape.row_widths.len() > piece.lines.len() || !piece.outline_fits() {
            return false;
        }
        k += 1;
    }
    true
}

fn clip_groups(groups: &Vec<OutlineGroup>, first_vis: usize, last_vis: usize) -> (cs: Vec<RowSpan>)
    requires
        first_vis <= last_vis,
    ensures
        cs@ == clip_of(groups@, first_vis as int, last_vis as int),
{
    let mut cs: Vec<RowSpan> = Vec::new();
    let mut i: usize = 0;
    while i < groups.len()
        invariant
            i <= groups.len(),
            first_vis <= last_vis,
            cs@ == clip_of(groups@.take(i as int), first_vis as int, last_vis as int),
        decreases groups.len() - i,
    {
        let g = groups[i];
        proof {
            assert(groups@.take(i + 1).drop_last() =~= groups@.take(i as int));
        }
        let g_start = if g.start >= first_vis { g.start } else { first_vis };
        let g_end = if g.end < last_vis { g.end + 1 } else { last_vis };
        if g_start < g_end {
            cs.push(RowSpan { border_width: g.border_width, top: g_start - first_vis, bottom: g_end - first_vis });
        }
        i += 1;
        assert(cs@ =~= clip_of(groups@.take(i as int), first_vis as int, last_vis as int));
    }
    assert(groups@.take(groups.len() as int) =~= groups@);
    cs
}

fn outline_path(cs: &Vec<RowSpan>) -> (path: Vec<(usize, usize)>)
    ensures
        path@ == path_of(cs@),
{
    let mut path: Vec<(usize, usize)> = Vec::new();
    if cs.len() == 0 {
        return path;
    }
    path.push((0, cs[0].top));
    path.push((cs[0].border_width, cs[0].top));
    let ghost head = seq![(0usize, cs@[0].top), (cs@[0].border_width, cs@[0].top)];
    assert(path@ =~= head + right_side(cs@, 0));
    let mut i: usize = 0;
    while i < cs.len()
        invariant
            i <= cs.len(),
            cs.len() > 0,
            head == seq![(0usize, cs@[0].top), (cs@[0].border_width, cs@[0].top)],
            path@ == head + right_side(cs@, i as int),
        decreases cs.len() - i,
    {
        if i > 0 && cs[i - 1].border_width != cs[i].border_width {
            path.push((cs[i].border_width, cs[i - 1].bottom));
        }
        path.push((cs[i].border_width, cs[i].bottom));
        i += 1;
        assert(path@ =~= head + right_side(cs@, i as int));
    }
    path.push((0, cs[cs.len() - 1].bottom));
    assert(path@ =~= path_of(cs@));
    path
}

fn visible_texts(piece: &Piece, first_vis: usize, last_vis: usize) -> (ts: Vec<(usize, String)>)
    requires
        first_vis <= last_vis <= piece.lines.len(),
    ensures
        ts@.map_values(|t: (usize, String)| (t.0, t.1@)) == text_rows(piece.lines@, first_vis as int, last_vis as int),
{
    let mut ts: Vec<(usize, String)> = Vec::new();
    let mut i: usize = first_vis;
    assert(ts@.map_values(|t: (usize, String)| (t.0, t.1@)) =~= text_rows(piece.lines@, first_vis as int, i as int));
    while i < last_vis
        invariant
            first_vis <= i <= last_vis,
            last_vis <= piece.lines.len(),
            ts@.map_values(|t: (usize, String)| (t.0, t.1@)) == text_rows(piece.lines@, first_vis as int, i as int),
        decreases last_vis - i,
    {
        let text = piece.lines[i].text();
        let ghost before = ts@;
        if text.as_str().unicode_len() > 0 {
            ts.push((i - first_vis, text));
        }
        i += 1;
        assert(ts@.map_values(|t: (usize, String)| (t.0, t.1@)) =~= text_rows(
            piece.lines@,
            first_vis as int,
            i as int,
        ));
    }
    ts
}

/// The boxes of all placed pieces visible on the page of board rows
/// `page_start..page_start + rows_per_page`, oldest placed first.
pub fn page_boxes(board: &Board, pieces: &Vec<Piece>, page_start: usize, rows_per_page: usize) -> (boxes: Vec<PageBox>)
    requires
        board.wf(),
        page_start + rows_per_page <= usize::MAX,
        placed_match(board.placed_list(), pieces@),
    ensures
        boxes_view(boxes@) == boxes_for(
            board.placed_list(),
            pieces@,
            page_start as int,
            page_start + rows_per_page,
            board.placed_list().len() as int,
        ),
{
    let page_end = page_start + rows_per_page;
    let ghost placed = board.placed_list();
    let all = board.placed_pieces();
    let mut boxes: Vec<PageBox> = Vec::new();
    let mut k: usize = 0;
    proof {
        board.lemma_placed_fit();
    }
    while k < all.len()
        invariant
            k <= all.len(),
            placed == board.placed_list(),
            placed == all@,
            page_end == page_start + rows_per_page,
            placed_match(placed, pieces@),
            forall|i: int| 0 <= i < placed.len() ==> (#[trigger] placed[i]).anchor.y + placed[i].shape.row_widths@.len() <= usize::MAX,
            boxes_view(boxes@) == boxes_for(placed, pieces@, page_start as int, page_end as int, k as int),
        decreases all.len() - k,
    {
        let pl = &all[k];
        assert(placed[k as int] == *pl);
        let piece = &pieces[pl.piece_index];
        let ghost target = box_for(*pl, *piece, page_start as int, page_end as int);
        let ghost before = boxes_view(boxes@);
        let groups = compute_outline_groups(piece);
        proof {
            lemma_outline_of(line_widths(piece.lines@), piece.lines.len() as int);
        }
        let piece_start = pl.anchor.y;
        let piece_end = piece_start + pl.shape.height();
        if groups.len() > 0 && !(piece_end <= page_start || piece_start >= page_end) {
            let first_vis = if page_start >= piece_start { page_start - piece_start } else { 0 };
            let last_vis = (if piece_end <= page_end { piece_end } else { page_end }) - piece_start;
            let clipped = clip_groups(&groups, first_vis, last_vis);
            if clipped.len() > 0 {
                let top_row = if piece_start >= page_start { piece_start - page_start } else { 0 };
                let outline = outline_path(&clipped);
                let texts = visible_texts(piece, first_vis, last_vis);
                let b = PageBox { piece_index: pl.piece_index, column: pl.anchor.x, top_row, outline, texts };
                assert(target == Some(box_view(b)));
                boxes.push(b);
                assert(boxes_view(boxes@) =~= before.push(box_view(b)));
            } else {
                assert(target is None);
            }
        } else {
            assert(target is None);
        }
        k += 1;
        assert(boxes_view(boxes@) =~= boxes_for(placed, pieces@, page_start as int, page_end as int, k as int));
    }
    boxes
}

} // verus!
