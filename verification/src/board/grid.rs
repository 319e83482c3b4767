//! The packing board: a grid of cells, each empty or owned by a piece.
use vstd::prelude::*;
use crate::piece::PieceShape;
use super::placement::{Anchor, PlacedPiece, covers, anchor_fits};

verus! {

/// Usable columns of a US Letter landscape page at 6 pt.
pub const BOARD_WIDTH: usize = 131;

/// The packing board. Each cell is `None` (empty) or `Some(piece_index)`.
#[derive(Debug, Clone)]
pub struct Board {
    cells: Vec<Vec<Option<usize>>>,
    placed: Vec<PlacedPiece>,
    width: usize,
}

/// The rows of an empty board region of `n` cells.
pub open spec fn empty_row(n: nat) -> Seq<Option<usize>> {
    Seq::new(n, |_i: int| None::<usize>)
}

impl Board {
    /// The cells, row by row.
    pub closed spec fn grid(self) -> Seq<Seq<Option<usize>>> {
        self.cells@.map_values(|r: Vec<Option<usize>>| r@)
    }

    /// The board width in cells.
    pub closed spec fn spec_width(self) -> usize {
        self.width
    }

    /// The placed pieces, oldest first.
    pub closed spec fn placed_list(self) -> Seq<PlacedPiece> {
        self.placed@
    }

    /// On a well-formed board every placed piece lies within the rows.
    pub proof fn lemma_placed_fit(self)
        requires
            self.wf(),
        ensures
            self.rows() <= usize::MAX,
            forall|i: int|
                0 <= i < self.placed_list().len() ==> (#[trigger] self.placed_list()[i]).anchor.y
                    + self.placed_list()[i].shape.row_widths@.len() <= self.rows(),
    {
        assert forall|i: int| 0 <= i < self.placed_list().len() implies (#[trigger] self.placed_list()[i]).anchor.y
            + self.placed_list()[i].shape.row_widths@.len() <= self.rows() by {
            assert(Self::fits(self.placed@[i], self.cells@.len() as int, self.width as int));
        }
    }

    /// The number of rows.
    pub open spec fn rows(self) -> nat {
        self.grid().len()
    }

    /// The content of cell `(x, y)`; `None` outside the grid.
    pub open spec fn cell(self, x: int, y: int) -> Option<usize> {
        if 0 <= y < self.grid().len() && 0 <= x < self.grid()[y].len() {
            self.grid()[y][x]
        } else {
            None
        }
    }

    /// Every row is `width` cells wide and every placed piece lies within the grid.
    pub closed spec fn wf(self) -> bool {
        &&& self.cells@.len() <= usize::MAX
        &&& forall|y: int| 0 <= y < self.cells@.len() ==> (#[trigger] self.cells@[y]).len() == self.width
        &&& forall|i: int|
            0 <= i < self.placed@.len() ==> Self::fits(
                #[trigger] self.placed@[i],
                self.cells@.len() as int,
                self.width as int,
            )
    }

    pub open spec fn fits(p: PlacedPiece, rows: int, width: int) -> bool {
        &&& p.anchor.y + p.shape.row_widths@.len() <= rows
        &&& forall|r: int|
            0 <= r < p.shape.row_widths@.len() ==> p.anchor.x + #[trigger] p.shape.row_widths@[r]
                <= width
    }

    /// A shape with rows `rows` fits at `a`: inside the width, and over
    /// empty cells only.
    pub open spec fn spec_can_place(self, rows: Seq<usize>, a: Anchor) -> bool {
        forall|r: int|
            0 <= r < rows.len() ==> {
                &&& a.x + #[trigger] rows[r] <= self.spec_width()
                &&& self.row_free(a.y + r, a.x as int, a.x + rows[r])
            }
    }

    /// Cells `x0..x1` of row `y` are empty.
    pub open spec fn row_free(self, y: int, x0: int, x1: int) -> bool {
        forall|x: int| x0 <= x < x1 ==> (#[trigger] self.cell(x, y)) is None
    }

    /// `new` is `old` after placing piece `idx` with shape `shape` at `a`.
    pub open spec fn placed_from(new: Board, old: Board, idx: usize, shape: PieceShape, a: Anchor) -> bool {
        let rows = shape.row_widths@;
        &&& new.spec_width() == old.spec_width()
        &&& new.placed_list() == old.placed_list().push(PlacedPiece { piece_index: idx, anchor: a, shape })
        &&& new.rows() == if old.rows() >= a.y + rows.len() { old.rows() } else { (a.y + rows.len()) as nat }
        &&& forall|x: int, y: int|
            #[trigger] new.cell(x, y) == if covers(rows, a, x, y) { Some(idx) } else { old.cell(x, y) }
    }

    /// `new` is `old` after taking back its last placed piece, returned as `r`.
    pub open spec fn undone_from(new: Board, old: Board, r: Option<PlacedPiece>) -> bool {
        &&& new.spec_width() == old.spec_width()
        &&& new.rows() == old.rows()
        &&& if old.placed_list().len() == 0 {
            &&& r is None
            &&& new.placed_list() == old.placed_list()
            &&& forall|x: int, y: int| #[trigger] new.cell(x, y) == old.cell(x, y)
        } else {
            let last = old.placed_list().last();
            &&& r == Some(last)
            &&& new.placed_list() == old.placed_list().drop_last()
            &&& forall|x: int, y: int|
                #[trigger] new.cell(x, y) == if covers(last.shape.row_widths@, last.anchor, x, y) {
                    None
                } else {
                    old.cell(x, y)
                }
        }
    }

    /// Whether cell `(x, y)` lies under placed piece `p`.
    pub open spec fn under(p: PlacedPiece, x: int, y: int) -> bool {
        covers(p.shape.row_widths@, p.anchor, x, y)
    }

    /// The cells hold exactly the placed pieces: every placed piece lies
    /// inside the grid and the width, every cell under it holds its index,
    /// no two placed pieces overlap, and every non-empty cell lies under a
    /// placed piece.
    pub open spec fn footprints_match(self) -> bool {
        let ps = self.placed_list();
        &&& forall|i: int|
            0 <= i < ps.len() ==> Self::fits(#[trigger] ps[i], self.rows() as int, self.spec_width() as int)
        &&& forall|i: int, x: int, y: int|
            0 <= i < ps.len() && #[trigger] Self::under(ps[i], x, y) ==> self.cell(x, y) == Some(ps[i].piece_index)
        &&& forall|i: int, j: int, x: int, y: int|
            0 <= i < j < ps.len() && #[trigger] Self::under(ps[i], x, y) ==> !#[trigger] Self::under(ps[j], x, y)
        &&& forall|x: int, y: int|
            #[trigger] self.cell(x, y) is Some ==> exists|i: int| 0 <= i < ps.len() && #[trigger] Self::under(ps[i], x, y)
    }

    /// `v` is one past the lowest row that holds a piece (0 when none does).
    pub open spec fn is_bottom(self, v: int) -> bool {
        &&& 0 <= v <= self.rows()
        &&& v > 0 ==> self.row_used(v - 1)
        &&& forall|y: int| v <= y ==> !self.row_used(y)
    }

    /// Whether row `y` holds any piece.
    pub open spec fn row_used(self, y: int) -> bool {
        exists|x: int| (#[trigger] self.cell(x, y)) is Some
    }

    /// An empty board, `BOARD_WIDTH` columns wide.
    pub fn new() -> (b: Self)
        ensures
            b.wf(),
            b.footprints_match(),
            b.rows() == 0,
            b.placed_list().len() == 0,
            b.spec_width() == BOARD_WIDTH,
    {
        let b = Board { cells: Vec::new(), placed: Vec::new(), width: BOARD_WIDTH };
        assert(b.grid() =~= Seq::<Seq<Option<usize>>>::empty());
        b
    }

    /// The board width in cells.
    pub fn width(&self) -> (w: usize)
        ensures
            w == self.spec_width(),
    {
        self.width
    }

    /// The placed pieces, oldest first.
    pub fn placed_pieces(&self) -> (v: &Vec<PlacedPiece>)
        ensures
            v@ == self.placed_list(),
    {
        &self.placed
    }

    /// The number of rows.
    pub fn height(&self) -> (h: usize)
        ensures
            h == self.rows(),
    {
        self.cells.len()
    }

    /// Whether `shape` fits at `anchor`: every row inside the board width
    /// and over empty cells (rows below the grid are empty).
    pub fn can_place(&self, shape: &PieceShape, anchor: Anchor) -> (b: bool)
        requires
            self.wf(),
        ensures
            b == self.spec_can_place(shape.row_widths@, anchor),
    {
        let rows = &shape.row_widths;
        let mut r: usize = 0;
        while r < rows.len()
            invariant
                self.wf(),
                rows@ == shape.row_widths@,
                r <= rows.len(),
                forall|k: int|
                    0 <= k < r ==> {
                        &&& anchor.x + #[trigger] rows@[k] <= self.width
                        &&& self.row_free(anchor.y + k, anchor.x as int, anchor.x + rows@[k])
                    },
            decreases rows.len() - r,
        {
            let w = rows[r];
            if w > self.width || anchor.x > self.width - w {
                assert(!self.spec_can_place(shape.row_widths@, anchor)) by {
                    if self.spec_can_place(shape.row_widths@, anchor) {
                        assert(anchor.x + shape.row_widths@[r as int] <= self.spec_width());
                    }
                }
                return false;
            }
            let x_end = anchor.x + w;
            if anchor.y < self.cells.len() && r < self.cells.len() - anchor.y {
                let y = anchor.y + r;
                let mut x = anchor.x;
                while x < x_end
                    invariant
                        self.wf(),
                        y < self.cells.len(),
                        r < rows.len(),
                        rows@ == shape.row_widths@,
                        w == rows@[r as int],
                        y == anchor.y + r,
                        x_end == anchor.x + w,
                        x_end <= self.width,
                        anchor.x <= x <= x_end,
                        forall|xx: int| anchor.x <= xx < x ==> self.cell(xx, y as int) is None,
                    decreases x_end - x,
                {
                    assert(self.cells@[y as int].len() == self.width);
                    assert(self.grid()[y as int] == self.cells@[y as int]@);
                    if self.cells[y][x].is_some() {
                        assert(self.cell(x as int, y as int) is Some);
                        assert(!self.spec_can_place(shape.row_widths@, anchor)) by {
                            if self.spec_can_place(shape.row_widths@, anchor) {
                                assert(self.row_free(anchor.y + r, anchor.x as int, anchor.x + shape.row_widths@[r as int]));
                                assert(self.cell(x as int, anchor.y + r) is None);
                            }
                        }
                        return false;
                    }
                    x += 1;
                }
            } else {
                assert(self.grid().len() == self.cells@.len());
                assert(forall|xx: int| #[trigger] self.cell(xx, anchor.y + r) is None);
            }
            r += 1;
        }
        true
    }

    /// Places piece `piece_index` with `shape` at `anchor`, growing the grid
    /// downwards as needed. Placing where the shape does not fit is an
    /// error, so the placement is required to fit.
    pub fn place(&mut self, piece_index: usize, shape: PieceShape, anchor: Anchor)
        requires
            old(self).wf(),
            anchor_fits(shape.row_widths@, anchor),
            old(self).spec_can_place(shape.row_widths@, anchor),
        ensures
            final(self).wf(),
            Board::placed_from(*final(self), *old(self), piece_index, shape, anchor),
            old(self).footprints_match() ==> final(self).footprints_match(),
    {
        let ghost old_board = *self;
        let needed = anchor.y + shape.height();
        self.ensure_height(needed);
        let ghost mid = *self;
        let mut r: usize = 0;
        while r < shape.row_widths.len()
            invariant
                self.wf(),
                self.width == old_board.width,
                self.placed@ == old_board.placed@,
                self.rows() == mid.rows(),
                mid.rows() >= anchor.y + shape.row_widths@.len(),
                anchor_fits(shape.row_widths@, anchor),
                old_board.spec_can_place(shape.row_widths@, anchor),
                r <= shape.row_widths.len(),
                forall|x: int, y: int|
                    #[trigger] mid.cell(x, y) == old_board.cell(x, y),
                forall|x: int, y: int|
                    #[trigger] self.cell(x, y) == if covers(shape.row_widths@, anchor, x, y) && y < anchor.y + r {
                        Some(piece_index)
                    } else {
                        mid.cell(x, y)
                    },
            decreases shape.row_widths.len() - r,
        {
            let w = shape.row_widths[r];
            let y = anchor.y + r;
            let x_end = anchor.x + w;
            assert(x_end <= self.width);
            let mut x = anchor.x;
            while x < x_end
                invariant
                    self.wf(),
                    self.width == old_board.width,
                    self.placed@ == old_board.placed@,
                    self.rows() == mid.rows(),
                    y < mid.rows(),
                    y == anchor.y + r,
                    r < shape.row_widths.len(),
                    w == shape.row_widths@[r as int],
                    x_end == anchor.x + w,
                    x_end <= self.width,
                    anchor.x <= x <= x_end,
                    forall|xx: int, yy: int|
                        #[trigger] self.cell(xx, yy) == if (covers(shape.row_widths@, anchor, xx, yy) && yy < anchor.y + r)
                            || (yy == y && anchor.x <= xx < x) {
                            Some(piece_index)
                        } else {
                            mid.cell(xx, yy)
                        },
                decreases x_end - x,
            {
                self.set_cell(x, y, Some(piece_index));
                x += 1;
            }
            r += 1;
        }
        let ghost before_push = *self;
        self.placed.push(PlacedPiece { piece_index, anchor, shape });
        proof {
            let s = *self;
            assert(s.grid() == before_push.grid());
            assert forall|x: int, y: int| #[trigger] s.cell(x, y) == if covers(shape.row_widths@, anchor, x, y) {
                Some(piece_index)
            } else {
                old_board.cell(x, y)
            } by {
                assert(mid.cell(x, y) == old_board.cell(x, y));
                assert(s.cell(x, y) == before_push.cell(x, y));
            }
            assert forall|i: int| 0 <= i < s.placed@.len() implies Self::fits(
                #[trigger] s.placed@[i],
                s.cells@.len() as int,
                s.width as int,
            ) by {
                if i < old_board.placed@.len() {
                    assert(s.placed@[i] == old_board.placed@[i]);
                }
            }
            assert(s.placed_list() =~= old_board.placed_list().push(PlacedPiece { piece_index, anchor, shape }));
            assert(Board::placed_from(s, old_board, piece_index, shape, anchor));
            if old_board.footprints_match() {
                place_keeps_footprints(old_board, s, piece_index, shape, anchor);
            }
        }
    }

    /// Sets one cell inside the grid.
    fn set_cell(&mut self, x: usize, y: usize, v: Option<usize>)
        requires
            old(self).wf(),
            y < old(self).rows(),
            x < old(self).width,
        ensures
            final(self).wf(),
            final(self).spec_width() == old(self).spec_width(),
            final(self).placed_list() == old(self).placed_list(),
            final(self).rows() == old(self).rows(),
            final(self).cells@.len() == old(self).cells@.len(),
            forall|xx: int, yy: int|
                #[trigger] final(self).cell(xx, yy) == if xx == x && yy == y {
                    v
                } else {
                    old(self).cell(xx, yy)
                },
    {
        let ghost o = *self;
        assert(self.cells@[y as int].len() == self.width);
        let mut row: Vec<Option<usize>> = Vec::new();
        std::mem::swap(&mut row, &mut self.cells[y]);
        row.set(x, v);
        std::mem::swap(&mut row, &mut self.cells[y]);
        proof {
            let s = *self;
            assert(s.cells@ == o.cells@.update(y as int, s.cells@[y as int]));
            assert(s.cells@[y as int]@ == o.cells@[y as int]@.update(x as int, v));
            assert forall|xx: int, yy: int|
                #[trigger] s.cell(xx, yy) == if xx == x && yy == y { v } else { o.cell(xx, yy) } by {
                if 0 <= yy < s.cells@.len() {
                    assert(s.grid()[yy] == s.cells@[yy]@);
                    assert(o.grid()[yy] == o.cells@[yy]@);
                }
            }
            assert forall|yy: int| 0 <= yy < s.cells@.len() implies (#[trigger] s.cells@[yy]).len() == s.width by {
                if yy != y {
                    assert(s.cells@[yy] == o.cells@[yy]);
                }
            }
            assert forall|i: int| 0 <= i < s.placed@.len() implies Self::fits(
                #[trigger] s.placed@[i],
                s.cells@.len() as int,
                s.width as int,
            ) by {
                assert(s.placed@[i] == o.placed@[i]);
            }
        }
    }

    /// Takes back the most recently placed piece and empties its cells.
    pub fn undo(&mut self) -> (r: Option<PlacedPiece>)
        requires
            old(self).wf(),
        ensures
            final(self).wf(),
            Board::undone_from(*final(self), *old(self), r),
            old(self).footprints_match() ==> final(self).footprints_match(),
    {
        let ghost old_board = *self;
        let placed = match self.placed.pop() {
            Some(p) => p,
            None => {
                proof {
                    if old_board.footprints_match() {
                        undo_keeps_footprints(old_board, *self, None);
                    }
                }
                return None;
            },
        };
        proof {
            assert(placed == old_board.placed@.last());
            assert(Self::fits(old_board.placed@[old_board.placed@.len() - 1], old_board.cells@.len() as int, old_board.width as int));
            let s = *self;
            assert forall|i: int| 0 <= i < s.placed@.len() implies Self::fits(
                #[trigger] s.placed@[i],
                s.cells@.len() as int,
                s.width as int,
            ) by {
                assert(s.placed@[i] == old_board.placed@[i]);
            }
        }
        let ghost mid = *self;
        let rows = &placed.shape.row_widths;
        let anchor = placed.anchor;
        let mut r: usize = 0;
        while r < rows.len()
            invariant
                self.wf(),
                self.width == old_board.width,
                self.placed@ == mid.placed@,
                self.rows() == old_board.rows(),
                self.cells@.len() == old_board.cells@.len(),
                Self::fits(placed, old_board.cells@.len() as int, old_board.width as int),
                old_board.rows() == old_board.cells@.len(),
                rows == placed.shape.row_widths,
                anchor == placed.anchor,
                r <= rows.len(),
                forall|x: int, y: int|
                    #[trigger] self.cell(x, y) == if covers(rows@, anchor, x, y) && y < anchor.y + r {
                        None
                    } else {
                        old_board.cell(x, y)
                    },
            decreases rows.len() - r,
        {
            assert(rows@.len() == placed.shape.row_widths@.len());
            let w = rows[r];
            let y = anchor.y + r;
            let x_end = anchor.x + w;
            let mut x = anchor.x;
            while x < x_end
                invariant
                    self.wf(),
                    self.width == old_board.width,
                    self.placed@ == mid.placed@,
                    self.rows() == old_board.rows(),
                    self.cells@.len() == old_board.cells@.len(),
                    Self::fits(placed, old_board.cells@.len() as int, old_board.width as int),
                    old_board.rows() == old_board.cells@.len(),
                    rows == placed.shape.row_widths,
                    anchor == placed.anchor,
                    r < rows.len(),
                    y == anchor.y + r,
                    w == rows@[r as int],
                    x_end == anchor.x + w,
                    anchor.x <= x <= x_end,
                    forall|xx: int, yy: int|
                        #[trigger] self.cell(xx, yy) == if (covers(rows@, anchor, xx, yy) && yy < anchor.y + r)
                            || (yy == y && anchor.x <= xx < x) {
                            None
                        } else {
                            old_board.cell(xx, yy)
                        },
                decreases x_end - x,
            {
                self.set_cell(x, y, None);
                x += 1;
            }
            r += 1;
        }
        proof {
            let s = *self;
            assert(s.placed_list() =~= old_board.placed_list().drop_last());
            assert(Board::undone_from(s, old_board, Some(placed)));
            if old_board.footprints_match() {
                undo_keeps_footprints(old_board, s, Some(placed));
            }
        }
        Some(placed)
    }

    /// The content of cell `(x, y)`, `None` outside the grid.
    pub fn get(&self, x: usize, y: usize) -> (c: Option<usize>)
        ensures
            c == self.cell(x as int, y as int),
    {
        if y < self.cells.len() && x < self.cells[y].len() {
            assert(self.grid()[y as int] == self.cells@[y as int]@);
            self.cells[y][x]
        } else {
            None
        }
    }

    /// One past the lowest row that holds a piece; 0 for an empty board.
    pub fn bottom(&self) -> (b: usize)
        ensures
            self.is_bottom(b as int),
    {
        let mut y: usize = self.cells.len();
        assert(self.grid().len() == self.cells@.len());
        while y > 0
            invariant
                y <= self.cells.len(),
                self.grid().len() == self.cells@.len(),
                forall|yy: int| y <= yy ==> !self.row_used(yy),
            decreases y,
        {
            let yr = y - 1;
            let row = &self.cells[yr];
            assert(self.grid()[yr as int] == row@);
            let mut x: usize = 0;
            while x < row.len()
                invariant
                    x <= row.len(),
                    yr < self.cells.len(),
                    yr + 1 == y,
                    forall|yy: int| y <= yy ==> !self.row_used(yy),
                    self.grid().len() == self.cells@.len(),
                    row == self.cells@[yr as int],
                    self.grid()[yr as int] == row@,
                    forall|xx: int| 0 <= xx < x ==> (#[trigger] self.cell(xx, yr as int)) is None,
                decreases row.len() - x,
            {
                if row[x].is_some() {
                    assert(self.cell(x as int, yr as int) is Some);
                    return y;
                }
                x += 1;
            }
            assert forall|xx: int| !((#[trigger] self.cell(xx, yr as int)) is Some) by {}
            y -= 1;
        }
        0
    }

    /// Appends empty rows until the grid has at least `h` rows.
    fn ensure_height(&mut self, h: usize)
        requires
            old(self).wf(),
        ensures
            final(self).wf(),
            final(self).spec_width() == old(self).spec_width(),
            final(self).placed_list() == old(self).placed_list(),
            final(self).rows() == if old(self).rows() >= h { old(self).rows() } else { h as nat },
            forall|x: int, y: int| #[trigger] final(self).cell(x, y) == old(self).cell(x, y),
    {
        let ghost o = *self;
        while self.cells.len() < h
            invariant
                self.wf(),
                self.width == o.width,
                self.placed@ == o.placed@,
                o.cells@.len() <= self.cells@.len(),
                self.cells@.len() <= if o.rows() >= h { o.rows() } else { h as nat },
                self.grid().len() == self.cells@.len(),
                o.grid().len() == o.cells@.len(),
                forall|x: int, y: int| #[trigger] self.cell(x, y) == o.cell(x, y),
            decreases h - self.cells.len(),
        {
            let ghost before = *self;
            let mut row: Vec<Option<usize>> = Vec::new();
            let mut i: usize = 0;
            while i < self.width
                invariant
                    i <= self.width,
                    row@ == empty_row(i as nat),
                decreases self.width - i,
            {
                row.push(None);
                i += 1;
                assert(row@ =~= empty_row(i as nat));
            }
            self.cells.push(row);
            proof {
                let s = *self;
                assert(s.grid() =~= before.grid().push(empty_row(s.width as nat)));
                assert forall|x: int, y: int| #[trigger] s.cell(x, y) == o.cell(x, y) by {
                    assert(before.cell(x, y) == o.cell(x, y));
                }
                assert forall|yy: int| 0 <= yy < s.cells@.len() implies (#[trigger] s.cells@[yy]).len() == s.width by {
                    if yy < before.cells@.len() {
                        assert(s.cells@[yy] == before.cells@[yy]);
                    }
                }
                assert forall|i: int| 0 <= i < s.placed@.len() implies Self::fits(
                    #[trigger] s.placed@[i],
                    s.cells@.len() as int,
                    s.width as int,
                ) by {
                    assert(Self::fits(before.placed@[i], before.cells@.len() as int, before.width as int));
                }
            }
        }
    }
}


/// A cell under a shape that may be placed at `a` is empty.
proof fn lemma_free_under(b: Board, rows: Seq<usize>, a: Anchor, x: int, y: int)
    requires
        b.spec_can_place(rows, a),
        covers(rows, a, x, y),
    ensures
        b.cell(x, y) is None,
{
    let r = y - a.y;
    assert(a.x + rows[r] <= b.spec_width());
    assert(b.row_free(a.y + r, a.x as int, a.x + rows[r]));
}

/// Placing a piece where it fits keeps the cells matching the placed
/// pieces.
pub proof fn place_keeps_footprints(b0: Board, b1: Board, idx: usize, shape: PieceShape, a: Anchor)
    requires
        b0.footprints_match(),
        b0.spec_can_place(shape.row_widths@, a),
        Board::placed_from(b1, b0, idx, shape, a),
    ensures
        b1.footprints_match(),
{
    let ps0 = b0.placed_list();
    let ps1 = b1.placed_list();
    let np = PlacedPiece { piece_index: idx, anchor: a, shape };
    let n = ps0.len() as int;
    assert(ps1 == ps0.push(np));
    assert forall|i: int| 0 <= i < ps1.len() implies Board::fits(#[trigger] ps1[i], b1.rows() as int, b1.spec_width() as int) by {
        if i < n {
            assert(ps1[i] == ps0[i]);
            assert(Board::fits(ps0[i], b0.rows() as int, b0.spec_width() as int));
        } else {
            assert(ps1[i] == np);
            assert forall|r: int| 0 <= r < np.shape.row_widths@.len() implies np.anchor.x + #[trigger] np.shape.row_widths@[r]
                <= b1.spec_width() by {
                assert(a.x + shape.row_widths@[r] <= b0.spec_width());
            }
        }
    }
    assert forall|i: int, x: int, y: int| 0 <= i < ps1.len() && #[trigger] Board::under(ps1[i], x, y) implies b1.cell(x, y)
        == Some(ps1[i].piece_index) by {
        if i < n {
            assert(ps1[i] == ps0[i]);
            assert(b0.cell(x, y) == Some(ps0[i].piece_index));
            if covers(shape.row_widths@, a, x, y) {
                lemma_free_under(b0, shape.row_widths@, a, x, y);
            }
        }
    }
    assert forall|i: int, j: int, x: int, y: int| 0 <= i < j < ps1.len() && #[trigger] Board::under(ps1[i], x, y) implies !#[trigger] Board::under(
        ps1[j],
        x,
        y,
    ) by {
        assert(ps1[i] == ps0[i]);
        if j < n {
            assert(ps1[j] == ps0[j]);
        } else {
            assert(ps1[j] == np);
            assert(b0.cell(x, y) == Some(ps0[i].piece_index));
            if covers(shape.row_widths@, a, x, y) {
                lemma_free_under(b0, shape.row_widths@, a, x, y);
            }
        }
    }
    assert forall|x: int, y: int| #[trigger] b1.cell(x, y) is Some implies exists|i: int|
        0 <= i < ps1.len() && #[trigger] Board::under(ps1[i], x, y) by {
        if covers(shape.row_widths@, a, x, y) {
            assert(ps1[n] == np);
            assert(Board::under(ps1[n], x, y));
        } else {
            assert(b0.cell(x, y) is Some);
            let i = choose|i: int| 0 <= i < ps0.len() && #[trigger] Board::under(ps0[i], x, y);
            assert(ps1[i] == ps0[i]);
            assert(Board::under(ps1[i], x, y));
        }
    }
}

/// Taking back the last placed piece keeps the cells matching the placed
/// pieces.
pub proof fn undo_keeps_footprints(b0: Board, b1: Board, r: Option<PlacedPiece>)
    requires
        b0.footprints_match(),
        Board::undone_from(b1, b0, r),
    ensures
        b1.footprints_match(),
{
    let ps0 = b0.placed_list();
    let ps1 = b1.placed_list();
    if ps0.len() == 0 {
        assert(ps1 == ps0);
        assert forall|x: int, y: int| #[trigger] b1.cell(x, y) is Some implies exists|i: int|
            0 <= i < ps1.len() && #[trigger] Board::under(ps1[i], x, y) by {
            assert(b0.cell(x, y) is Some);
        }
    } else {
        let n = ps0.len() - 1;
        let last = ps0.last();
        assert(ps1 == ps0.drop_last());
        assert forall|i: int| 0 <= i < ps1.len() implies Board::fits(#[trigger] ps1[i], b1.rows() as int, b1.spec_width() as int) by {
            assert(ps1[i] == ps0[i]);
            assert(Board::fits(ps0[i], b0.rows() as int, b0.spec_width() as int));
        }
        assert forall|i: int, x: int, y: int| 0 <= i < ps1.len() && #[trigger] Board::under(ps1[i], x, y) implies b1.cell(x, y)
            == Some(ps1[i].piece_index) by {
            assert(ps1[i] == ps0[i]);
            assert(Board::under(ps0[i], x, y));
            assert(ps0[n] == last);
            assert(!Board::under(ps0[n], x, y));
            assert(b0.cell(x, y) == Some(ps0[i].piece_index));
        }
        assert forall|i: int, j: int, x: int, y: int| 0 <= i < j < ps1.len() && #[trigger] Board::under(ps1[i], x, y) implies !#[trigger] Board::under(
            ps1[j],
            x,
            y,
        ) by {
            assert(ps1[i] == ps0[i]);
            assert(ps1[j] == ps0[j]);
            assert(Board::under(ps0[i], x, y));
        }
        assert forall|x: int, y: int| #[trigger] b1.cell(x, y) is Some implies exists|i: int|
            0 <= i < ps1.len() && #[trigger] Board::under(ps1[i], x, y) by {
            assert(!covers(last.shape.row_widths@, last.anchor, x, y));
            assert(b0.cell(x, y) is Some);
            let i = choose|i: int| 0 <= i < ps0.len() && #[trigger] Board::under(ps0[i], x, y);
            assert(ps0[n] == last);
            assert(i != n);
            assert(ps1[i] == ps0[i]);
            assert(Board::under(ps1[i], x, y));
        }
    }
}

} // verus!

verus! {

/// Taking back a piece right after placing it gives back the board as it
/// was: the same placed pieces and the same content in every cell (the
/// grid keeps any rows the placement added, all empty). The piece taken
/// back is the one that was placed.
pub proof fn place_then_undo_restores(
    b0: Board,
    b1: Board,
    b2: Board,
    idx: usize,
    shape: PieceShape,
    a: Anchor,
    r: Option<PlacedPiece>,
)
    requires
        b0.spec_can_place(shape.row_widths@, a),
        Board::placed_from(b1, b0, idx, shape, a),
        Board::undone_from(b2, b1, r),
    ensures
        r == Some(PlacedPiece { piece_index: idx, anchor: a, shape }),
        b2.placed_list() == b0.placed_list(),
        b2.spec_width() == b0.spec_width(),
        forall|x: int, y: int| #[trigger] b2.cell(x, y) == b0.cell(x, y),
{
    assert(b1.placed_list().last() == PlacedPiece { piece_index: idx, anchor: a, shape });
    assert(b1.placed_list().drop_last() =~= b0.placed_list());
    assert forall|x: int, y: int| #[trigger] b2.cell(x, y) == b0.cell(x, y) by {
        assert(b1.cell(x, y) == b1.cell(x, y));
        if covers(shape.row_widths@, a, x, y) {
            let rr = y - a.y;
            assert(shape.row_widths@[rr] == shape.row_widths@[rr]);
            assert(b0.row_free(a.y + rr, a.x as int, a.x + shape.row_widths@[rr]));
        }
    }
}

} // verus!
