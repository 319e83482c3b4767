//! The silhouette of a piece on the board.
use vstd::prelude::*;
use super::types::{Piece, line_widths};
use super::outline::{
    OutlineGroup, compute_outline_groups, outline_of, widths_fit, lemma_outline_of, group_bounds,
    border,
};

verus! {

/// The silhouette of a piece on the board: one width per row, all rows
/// sharing the left edge.
#[derive(Debug, Clone)]
pub struct PieceShape {
    pub row_widths: Vec<usize>,
    pub placeable: bool,
}

/// The row widths of an outline: every line gets its group's border width.
pub open spec fn shape_rows(gs: Seq<OutlineGroup>, n: int) -> Seq<usize> {
    Seq::new(
        n as nat,
        |li: int|
            {
                let k = choose|k: int|
                    0 <= k < gs.len() && (#[trigger] gs[k]).start <= li <= gs[k].end;
                gs[k].border_width
            },
    )
}

pub open spec fn seq_max(s: Seq<usize>) -> nat
    decreases s.len(),
{
    if s.len() == 0 {
        0
    } else {
        let m = seq_max(s.drop_last());
        if s.last() as nat > m {
            s.last() as nat
        } else {
            m
        }
    }
}

pub open spec fn in_some_group(gs: Seq<OutlineGroup>, li: int) -> bool {
    exists|k: int| 0 <= k < gs.len() && (#[trigger] gs[k]).start <= li <= gs[k].end
}

proof fn lemma_groups_ordered(gs: Seq<OutlineGroup>, n: int)
    requires
        n >= 0,
        crate::piece::outline::is_partition(group_bounds(gs), n),
    ensures
        forall|a: int, b: int|
            0 <= a < b < gs.len() ==> (#[trigger] gs[a]).end < (#[trigger] gs[b]).start,
        forall|li: int|
            0 <= li < n ==> #[trigger] in_some_group(gs, li),
        forall|k: int| 0 <= k < gs.len() ==> (#[trigger] gs[k]).end < n,
        forall|k: int| 0 <= k < gs.len() ==> (#[trigger] gs[k]).start <= gs[k].end,
        forall|k: int| 0 < k < gs.len() ==> (#[trigger] gs[k]).start == gs[k - 1].end + 1,
        gs.len() > 0 ==> gs[0].start == 0,
    decreases gs.len(),
{
    let gb = group_bounds(gs);
    assert forall|k: int| 0 <= k < gs.len() implies (#[trigger] gs[k]).start <= gs[k].end by {
        assert(gb[k] == (gs[k].start as int, gs[k].end as int));
        assert(gb[k].0 <= gb[k].1);
    }
    assert forall|k: int| 0 < k < gs.len() implies (#[trigger] gs[k]).start == gs[k - 1].end + 1 by {
        assert(gb[k] == (gs[k].start as int, gs[k].end as int));
        assert(gb[k - 1] == (gs[k - 1].start as int, gs[k - 1].end as int));
        assert(gb[k].0 == gb[k - 1].1 + 1);
    }
    if gs.len() > 0 {
        assert(gb[0] == (gs[0].start as int, gs[0].end as int));
        let rest = gs.drop_last();
        let last = gs.last();
        assert(gb[gs.len() - 1] == (last.start as int, last.end as int));
        if gs.len() > 1 {
            assert(group_bounds(rest) =~= gb.drop_last());
            let gr = group_bounds(rest);
            assert(gr.last() == gb[gs.len() - 2]);
            assert(gb[gs.len() - 1].0 == gb[gs.len() - 2].1 + 1);
            assert forall|k: int| 0 <= k < gr.len() implies #[trigger] gr[k].0 <= gr[k].1 by {
                assert(gr[k] == gb[k]);
            }
            assert forall|k: int| 0 < k < gr.len() implies #[trigger] gr[k].0 == gr[k - 1].1 + 1 by {
                assert(gr[k] == gb[k]);
                assert(gr[k - 1] == gb[k - 1]);
            }
            assert(gr[0] == gb[0]);
            assert(gb[gs.len() - 2].0 <= gb[gs.len() - 2].1);
            assert(gr.len() > 0 && gr[0].0 == 0 && gr.last().1 == last.start - 1);
            assert(last.start > 0);
            assert(last.end == n - 1);
            lemma_groups_ordered(rest, last.start as int);
            assert forall|a: int, b: int|
                0 <= a < b < gs.len() implies (#[trigger] gs[a]).end < (#[trigger] gs[b]).start by {
                assert(gs[a] == rest[a]);
                if b < gs.len() - 1 {
                    assert(gs[b] == rest[b]);
                } else {
                    assert(rest[a].end < last.start);
                }
            }
            assert forall|li: int|
                0 <= li < n implies #[trigger] in_some_group(gs, li) by {
                if li < last.start {
                    assert(in_some_group(rest, li));
                    let k = choose|k: int| 0 <= k < rest.len() && (#[trigger] rest[k]).start <= li <= rest[k].end;
                    assert(gs[k] == rest[k]);
                } else {
                    assert(gs[gs.len() - 1].start <= li <= gs[gs.len() - 1].end);
                }
            }
            assert forall|k: int| 0 <= k < gs.len() implies (#[trigger] gs[k]).end < n by {
                if k < gs.len() - 1 {
                    assert(gs[k] == rest[k]);
                }
            }
        } else {
            assert(gb[0] == (gs[0].start as int, gs[0].end as int));
            assert forall|li: int|
                0 <= li < n implies #[trigger] in_some_group(gs, li) by {
                assert(gs[0].start <= li <= gs[0].end);
            }
        }
    }
}

impl PieceShape {
    /// The shape of a piece: row `i` has the border width of the outline
    /// group holding line `i`; a piece with no lines cannot be placed.
    pub fn from_piece(piece: &Piece) -> (shape: Self)
        requires
            widths_fit(line_widths(piece.lines@)),
        ensures
            shape.row_widths@ == shape_rows(
                outline_of(line_widths(piece.lines@), piece.lines.len() as int),
                piece.lines.len() as int,
            ),
            shape.placeable == (piece.lines.len() > 0),
            forall|i: int| 0 <= i < shape.row_widths.len() ==> shape.row_widths[i] >= 1,
    {
        let groups = compute_outline_groups(piece);
        let ghost w = line_widths(piece.lines@);
        let ghost n = piece.lines.len() as int;
        proof {
            lemma_outline_of(w, n);
            lemma_groups_ordered(groups@, n);
        }
        if groups.len() == 0 {
            proof {
                if n > 0 {
                    assert(in_some_group(groups@, 0));
                    let k = choose|k: int| 0 <= k < groups@.len() && (#[trigger] groups@[k]).start <= 0 <= groups@[k].end;
                }
                assert(shape_rows(groups@, n) =~= Seq::<usize>::empty());
            }
            return PieceShape { row_widths: Vec::new(), placeable: false };
        }
        let num_lines = groups[groups.len() - 1].end + 1;
        proof {
            let last = groups@.len() - 1;
            assert(group_bounds(groups@).last() == (groups@[last].start as int, groups@[last].end as int));
        }
        let mut row_widths: Vec<usize> = Vec::new();
        let mut g: usize = 0;
        while g < groups.len()
            invariant
                g <= groups.len(),
                groups.len() > 0,
                num_lines == n,
                n == piece.lines.len(),
                forall|a: int, b: int|
                    0 <= a < b < groups.len() ==> (#[trigger] groups@[a]).end < (#[trigger] groups@[b]).start,
                forall|k: int| 0 <= k < groups.len() ==> (#[trigger] groups@[k]).end < n,
                forall|k: int| 0 <= k < groups.len() ==> (#[trigger] groups@[k]).start <= groups@[k].end,
                forall|k: int| 0 < k < groups.len() ==> (#[trigger] groups@[k]).start == groups@[k - 1].end + 1,
                groups@[0].start == 0,
                forall|k: int| 0 <= k < groups.len() ==> (#[trigger] groups@[k]).border_width >= 1,
                g == 0 ==> row_widths.len() == 0,
                g > 0 ==> row_widths.len() == groups@[g - 1].end + 1,
                forall|k: int, li: int|
                    0 <= k < g && groups@[k].start <= li <= groups@[k].end ==> #[trigger] row_widths@[li]
                        == (#[trigger] groups@[k]).border_width,
            decreases groups.len() - g,
        {
            let grp = groups[g];
            proof {
                if g > 0 {
                    assert(grp.start == groups@[g - 1].end + 1);
                }
            }
            let mut li = grp.start;
            while li <= grp.end
                invariant
                    grp == groups@[g as int],
                    grp.start <= li <= grp.end + 1,
                    grp.end < n,
                    n == piece.lines.len(),
                    row_widths.len() == li,
                    forall|a: int, b: int|
                        0 <= a < b < groups.len() ==> (#[trigger] groups@[a]).end < (#[trigger] groups@[b]).start,
                    forall|k: int, x: int|
                        0 <= k < g && groups@[k].start <= x <= groups@[k].end ==> #[trigger] row_widths@[x]
                            == (#[trigger] groups@[k]).border_width,
                    forall|x: int| grp.start <= x < li ==> #[trigger] row_widths@[x] == grp.border_width,
                    g < groups.len(),
                decreases grp.end + 1 - li,
            {
                row_widths.push(grp.border_width);
                li += 1;
            }
            g += 1;
        }
        let ghost rows = shape_rows(groups@, n);
        proof {
            assert forall|li: int| 0 <= li < n implies row_widths@[li] == rows[li] && row_widths@[li] >= 1 by {
                assert(in_some_group(groups@, li));
                let k = choose|k: int| 0 <= k < groups@.len() && (#[trigger] groups@[k]).start <= li <= groups@[k].end;
                assert(row_widths@[li] == groups@[k].border_width);
                let k2 = choose|k: int| 0 <= k < groups@.len() && (#[trigger] groups@[k]).start <= li <= groups@[k].end;
                if k2 < k {
                    assert(groups@[k2].end < groups@[k].start);
                } else if k < k2 {
                    assert(groups@[k].end < groups@[k2].start);
                }
            }
            assert(row_widths@ =~= rows);
        }
        let mut placeable = true;
        let mut i: usize = 0;
        while i < row_widths.len()
            invariant
                i <= row_widths.len(),
                placeable == (forall|x: int| 0 <= x < i ==> row_widths@[x] > 0),
            decreases row_widths.len() - i,
        {
            if row_widths[i] == 0 {
                placeable = false;
            }
            i += 1;
        }
        PieceShape { row_widths, placeable }
    }

    pub fn height(&self) -> (h: usize)
        ensures
            h == self.row_widths.len(),
    {
        self.row_widths.len()
    }

    /// The widest row, or 0 for an empty shape.
    pub fn max_width(&self) -> (m: usize)
        ensures
            m == seq_max(self.row_widths@),
    {
        let mut m: usize = 0;
        let mut i: usize = 0;
        while i < self.row_widths.len()
            invariant
                i <= self.row_widths.len(),
                m == seq_max(self.row_widths@.take(i as int)),
            decreases self.row_widths.len() - i,
        {
            assert(self.row_widths@.take(i + 1).drop_last() =~= self.row_widths@.take(i as int));
            if self.row_widths[i] > m {
                m = self.row_widths[i];
            }
            i += 1;
        }
        assert(self.row_widths@.take(self.row_widths.len() as int) =~= self.row_widths@);
        m
    }
}

} // verus!
