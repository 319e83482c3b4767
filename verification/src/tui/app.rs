//! The interactive placement session: a state machine driven by key presses.
use vstd::prelude::*;
use crate::board::{Anchor, Board};
use crate::board::placement::anchor_fits;
use crate::piece::{Piece, PieceShape};
use crate::piece::types::line_widths;
use crate::piece::outline::{outline_of, widths_fit};
use crate::piece::shape::shape_rows;

verus! {

/// A key press, as far as the session tells keys apart.
#[derive(Debug, Clone, Copy, PartialEq, Eq)]
pub enum Key {
    Up,
    Down,
    Left,
    Right,
    Enter,
    Char(char),
    Other,
}

/// What was done with a piece, in order, so that it can be taken back.
#[derive(Debug, Clone, Copy, PartialEq, Eq, Structural)]
pub enum Action {
    Placed(usize),
    Skipped(usize),
}

/// The state of a placement session.
pub struct App {
    pub board: Board,
    pub pieces: Vec<Piece>,
    pub shapes: Vec<PieceShape>,
    pub cursor: Anchor,
    pub current: usize,
    pub actions: Vec<Action>,
    pub scroll_y: usize,
    pub done: bool,
    pub confirm_quit: bool,
}

pub open spec fn action_index(a: Action) -> usize {
    match a {
        Action::Placed(i) => i,
        Action::Skipped(i) => i,
    }
}

/// The pieces placed by a sequence of actions, in order.
pub open spec fn placed_indices(acts: Seq<Action>) -> Seq<usize>
    decreases acts.len(),
{
    if acts.len() == 0 {
        Seq::empty()
    } else {
        let rest = placed_indices(acts.drop_last());
        match acts.last() {
            Action::Placed(i) => rest.push(i),
            Action::Skipped(_) => rest,
        }
    }
}

/// Every piece's lines are narrow enough for its outline to be computed.
pub open spec fn pieces_fit(pieces: Seq<Piece>) -> bool {
    forall|i: int| 0 <= i < pieces.len() ==> widths_fit(line_widths(#[trigger] pieces[i].lines@))
}

/// The shape of a piece, as plain values.
pub open spec fn shape_of(p: Piece) -> Seq<usize> {
    shape_rows(outline_of(line_widths(p.lines@), p.lines.len() as int), p.lines.len() as int)
}

pub open spec fn same_session(new: App, old: App) -> bool {
    &&& new.pieces == old.pieces
    &&& new.shapes == old.shapes
    &&& new.scroll_y == old.scroll_y
}

impl App {
    /// The session invariant: one shape per piece, one action per piece
    /// handled so far, and the board holding exactly the placed ones, with
    /// its cells matching them. `new` establishes it and every key keeps it
    /// (see `handle_key`).
    pub open spec fn wf(self) -> bool {
        &&& self.board.wf()
        &&& self.board.footprints_match()
        &&& self.shapes.len() == self.pieces.len()
        &&& self.current == self.actions.len()
        &&& self.current <= self.pieces.len()
        &&& forall|i: int| 0 <= i < self.actions.len() ==> action_index(#[trigger] self.actions@[i]) == i
        &&& self.board.placed_list().map_values(|p: crate::board::PlacedPiece| p.piece_index)
            == placed_indices(self.actions@)
    }

    /// The current piece fits where the cursor points.
    pub open spec fn spec_valid_placement(self) -> bool {
        &&& self.current < self.shapes.len()
        &&& self.shapes[self.current as int].placeable
        &&& self.board.spec_can_place(self.shapes[self.current as int].row_widths@, self.cursor)
    }

    /// The rows of the current shape at the cursor are numbered inside
    /// `usize`.
    pub open spec fn cursor_fits(self) -> bool {
        self.current < self.shapes.len() ==> self.cursor.y + self.shapes[self.current as int].row_widths@.len()
            <= usize::MAX
    }

    /// `new` is `mid` moved on to the next piece: the cursor goes to the
    /// left edge below everything placed, or the session ends after the
    /// last piece.
    pub open spec fn advanced(new: App, mid: App) -> bool {
        &&& same_session(new, mid)
        &&& new.board == mid.board
        &&& new.actions == mid.actions
        &&& new.confirm_quit == mid.confirm_quit
        &&& new.current == mid.current + 1
        &&& if new.current < mid.pieces.len() {
            &&& new.cursor.x == 0
            &&& new.board.is_bottom(new.cursor.y as int)
            &&& new.done == mid.done
        } else {
            &&& new.cursor == mid.cursor
            &&& new.done
        }
    }

    /// `new` is `old` after Enter: the current piece is placed at the
    /// cursor when it fits there, else nothing changes.
    pub open spec fn placed_step(new: App, old: App) -> bool {
        if old.spec_valid_placement() {
            let cur = old.current;
            let last = new.board.placed_list().last();
            &&& Board::placed_from(new.board, old.board, cur, last.shape, old.cursor)
            &&& last.shape.row_widths@ == old.shapes[cur as int].row_widths@
            &&& new.actions@ == old.actions@.push(Action::Placed(cur))
            &&& same_session(new, old)
            &&& new.confirm_quit == old.confirm_quit
            &&& new.current == cur + 1
            &&& if new.current < old.pieces.len() {
                &&& new.cursor.x == 0
                &&& new.board.is_bottom(new.cursor.y as int)
                &&& new.done == old.done
            } else {
                &&& new.cursor == old.cursor
                &&& new.done
            }
        } else {
            new == old
        }
    }

    /// `new` is `old` after skipping the current piece (nothing happens once
    /// every piece has been handled).
    pub open spec fn skipped_step(new: App, old: App) -> bool {
        if old.current < old.pieces.len() {
            let cur = old.current;
            &&& new.board == old.board
            &&& new.actions@ == old.actions@.push(Action::Skipped(cur))
            &&& same_session(new, old)
            &&& new.confirm_quit == old.confirm_quit
            &&& new.current == cur + 1
            &&& if new.current < old.pieces.len() {
                &&& new.cursor.x == 0
                &&& new.board.is_bottom(new.cursor.y as int)
                &&& new.done == old.done
            } else {
                &&& new.cursor == old.cursor
                &&& new.done
            }
        } else {
            new == old
        }
    }

    /// `new` is `old` after taking back the last action: a placed piece
    /// leaves the board, that piece becomes current again, and the cursor
    /// goes to the left edge below everything still placed.
    pub open spec fn undone_step(new: App, old: App) -> bool {
        if old.actions.len() == 0 {
            new == old
        } else {
            let last = old.actions@.last();
            &&& new.actions@ == old.actions@.drop_last()
            &&& same_session(new, old)
            &&& new.confirm_quit == old.confirm_quit
            &&& new.current == action_index(last)
            &&& !new.done
            &&& new.cursor.x == 0
            &&& new.board.is_bottom(new.cursor.y as int)
            &&& match last {
                Action::Placed(_) => exists|r: Option<crate::board::PlacedPiece>|
                    Board::undone_from(new.board, old.board, r),
                Action::Skipped(_) => new.board == old.board,
            }
        }
    }

    /// `new` is `old` after a key press.
    pub open spec fn key_step(new: App, old: App, key: Key) -> bool {
        if old.confirm_quit {
            if key == Key::Char('y') || key == Key::Char('Y') || key == Key::Enter {
                new == App { done: true, ..old }
            } else {
                new == App { confirm_quit: false, ..old }
            }
        } else {
            match key {
                Key::Up => if old.cursor.y > 0 {
                    new == App { cursor: Anchor { x: old.cursor.x, y: (old.cursor.y - 1) as usize }, ..old }
                } else {
                    new == old
                },
                Key::Down => new == App { cursor: Anchor { x: old.cursor.x, y: (old.cursor.y + 1) as usize }, ..old },
                Key::Left => if old.cursor.x > 0 {
                    new == App { cursor: Anchor { x: (old.cursor.x - 1) as usize, y: old.cursor.y }, ..old }
                } else {
                    new == old
                },
                Key::Right => new == App { cursor: Anchor { x: (old.cursor.x + 1) as usize, y: old.cursor.y }, ..old },
                Key::Enter => App::placed_step(new, old),
                Key::Char(c) => if c == 'u' || c == 'U' {
                    App::undone_step(new, old)
                } else if c == 's' || c == 'S' {
                    App::skipped_step(new, old)
                } else if c == 'q' || c == 'Q' {
                    if old.current >= old.pieces.len() {
                        new == App { done: true, ..old }
                    } else {
                        new == App { confirm_quit: true, ..old }
                    }
                } else {
                    new == old
                },
                Key::Other => new == old,
            }
        }
    }

    /// A session over `pieces`, with an empty board and the cursor at the
    /// top-left corner.
    pub fn new(pieces: Vec<Piece>) -> (app: Self)
        requires
            pieces_fit(pieces@),
        ensures
            app.wf(),
            app.pieces == pieces,
            app.shapes.len() == pieces.len(),
            forall|i: int| 0 <= i < pieces.len() ==> (#[trigger] app.shapes[i]).row_widths@ == shape_of(pieces[i]),
            forall|i: int| 0 <= i < pieces.len() ==> (#[trigger] app.shapes[i]).placeable == (pieces[i].lines.len() > 0),
            app.board.rows() == 0,
            app.board.placed_list().len() == 0,
            app.board.spec_width() == crate::board::grid::BOARD_WIDTH,
            app.cursor == (Anchor { x: 0, y: 0 }),
            app.current == 0,
            app.actions.len() == 0,
            app.scroll_y == 0,
            !app.done,
            !app.confirm_quit,
    {
        let mut shapes: Vec<PieceShape> = Vec::new();
        let mut i: usize = 0;
        while i < pieces.len()
            invariant
                i <= pieces.len(),
                pieces_fit(pieces@),
                shapes.len() == i,
                forall|k: int| 0 <= k < i ==> (#[trigger] shapes[k]).row_widths@ == shape_of(pieces[k]),
                forall|k: int| 0 <= k < i ==> (#[trigger] shapes[k]).placeable == (pieces[k].lines.len() > 0),
            decreases pieces.len() - i,
        {
            assert(widths_fit(line_widths(pieces@[i as int].lines@)));
            shapes.push(PieceShape::from_piece(&pieces[i]));
            i += 1;
        }
        let app = App {
            board: Board::new(),
            pieces,
            shapes,
            cursor: Anchor { x: 0, y: 0 },
            current: 0,
            actions: Vec::new(),
            scroll_y: 0,
            done: false,
            confirm_quit: false,
        };
        assert(app.board.placed_list().map_values(|p: crate::board::PlacedPiece| p.piece_index) =~= Seq::<usize>::empty());
        app
    }

    /// The shape of the current piece, if any piece is left.
    pub fn current_shape(&self) -> (s: Option<&PieceShape>)
        ensures
            s == if self.current < self.shapes.len() {
                Some(&self.shapes[self.current as int])
            } else {
                None
            },
    {
        if self.current < self.shapes.len() {
            Some(&self.shapes[self.current])
        } else {
            None
        }
    }

    /// Whether the rows of the current shape at the cursor are numbered
    /// inside `usize`.
    pub fn cursor_in_range(&self) -> (b: bool)
        ensures
            b == self.cursor_fits(),
    {
        if self.current >= self.shapes.len() {
            return true;
        }
        self.cursor.y.checked_add(self.shapes[self.current].row_widths.len()).is_some()
    }

    /// Whether the current piece can be placed at the cursor.
    pub fn is_valid_placement(&self) -> (b: bool)
        requires
            self.wf(),
        ensures
            b == self.spec_valid_placement(),
    {
        match self.current_shape() {
            Some(s) => s.placeable && self.board.can_place(s, self.cursor),
            None => false,
        }
    }

    /// Scrolls so that the current piece at the cursor is in view within
    /// `visible_rows` rows.
    pub fn update_scroll(&mut self, visible_rows: usize)
        requires
            old(self).cursor_fits(),
            old(self).scroll_y + visible_rows <= usize::MAX,
        ensures
            ({
                let h = if old(self).current < old(self).shapes.len() {
                    old(self).shapes[old(self).current as int].row_widths@.len()
                } else {
                    0
                };
                let bottom = old(self).cursor.y + h;
                final(self).scroll_y == if bottom > old(self).scroll_y + visible_rows {
                    if bottom >= visible_rows { (bottom - visible_rows) as usize } else { 0 }
                } else if old(self).cursor.y < old(self).scroll_y {
                    old(self).cursor.y
                } else {
                    old(self).scroll_y
                }
            }),
            *final(self) == (App { scroll_y: final(self).scroll_y, ..*old(self) }),
    {
        let h = match self.current_shape() {
            Some(s) => s.height(),
            None => 0,
        };
        let cursor_bottom = self.cursor.y + h;
        if cursor_bottom > self.scroll_y + visible_rows {
            self.scroll_y = if cursor_bottom >= visible_rows { cursor_bottom - visible_rows } else { 0 };
        } else if self.cursor.y < self.scroll_y {
            self.scroll_y = self.cursor.y;
        }
    }

    /// Applies one key press.
    pub fn handle_key(&mut self, key: Key)
        requires
            old(self).wf(),
            !old(self).confirm_quit && key == Key::Down ==> old(self).cursor.y < usize::MAX,
            !old(self).confirm_quit && key == Key::Right ==> old(self).cursor.x < usize::MAX,
            !old(self).confirm_quit && key == Key::Enter ==> old(self).cursor_fits(),
        ensures
            final(self).wf(),
            App::key_step(*final(self), *old(self), key),
    {
        if self.confirm_quit {
            match key {
                Key::Char('y') | Key::Char('Y') | Key::Enter => {
                    self.done = true;
                },
                _ => {
                    self.confirm_quit = false;
                },
            }
            return;
        }
        match key {
            Key::Up => {
                if self.cursor.y > 0 {
                    self.cursor.y = self.cursor.y - 1;
                }
            },
            Key::Down => {
                self.cursor.y = self.cursor.y + 1;
            },
            Key::Left => {
                if self.cursor.x > 0 {
                    self.cursor.x = self.cursor.x - 1;
                }
            },
            Key::Right => {
                self.cursor.x = self.cursor.x + 1;
            },
            Key::Enter => self.place_current(),
            Key::Char('u') | Key::Char('U') => self.undo(),
            Key::Char('s') | Key::Char('S') => self.skip_current(),
            Key::Char('q') | Key::Char('Q') => {
                if self.current >= self.pieces.len() {
                    self.done = true;
                } else {
                    self.confirm_quit = true;
                }
            },
            _ => {},
        }
    }

    fn place_current(&mut self)
        requires
            old(self).wf(),
            old(self).cursor_fits(),
        ensures
            final(self).wf(),
            App::placed_step(*final(self), *old(self)),
    {
        if !self.is_valid_placement() {
            return;
        }
        let ghost old_app = *self;
        let idx = self.current;
        let shape = copy_shape(&self.shapes[idx]);
        assert(anchor_fits(shape.row_widths@, self.cursor)) by {
            assert forall|r: int| 0 <= r < shape.row_widths@.len() implies self.cursor.x
                + #[trigger] shape.row_widths@[r] <= usize::MAX by {
                assert(self.cursor.x + shape.row_widths@[r] <= self.board.spec_width());
            }
        }
        self.board.place(idx, shape, self.cursor);
        self.actions.push(Action::Placed(idx));
        proof {
            let s = *self;
            let f = |p: crate::board::PlacedPiece| p.piece_index;
            assert(s.board.placed_list().map_values(f) =~= old_app.board.placed_list().map_values(f).push(idx));
            assert(s.actions@.drop_last() =~= old_app.actions@);
            assert forall|i: int| 0 <= i < s.actions.len() implies action_index(#[trigger] s.actions@[i]) == i by {
                if i < old_app.actions.len() {
                    assert(s.actions@[i] == old_app.actions@[i]);
                }
            }
        }
        self.advance();
    }

    fn skip_current(&mut self)
        requires
            old(self).wf(),
        ensures
            final(self).wf(),
            App::skipped_step(*final(self), *old(self)),
    {
        if self.current >= self.pieces.len() {
            return;
        }
        let ghost old_app = *self;
        self.actions.push(Action::Skipped(self.current));
        proof {
            let s = *self;
            assert(s.actions@.drop_last() =~= old_app.actions@);
            assert forall|i: int| 0 <= i < s.actions.len() implies action_index(#[trigger] s.actions@[i]) == i by {
                if i < old_app.actions.len() {
                    assert(s.actions@[i] == old_app.actions@[i]);
                }
            }
        }
        self.advance();
    }

    fn undo(&mut self)
        requires
            old(self).wf(),
        ensures
            final(self).wf(),
            App::undone_step(*final(self), *old(self)),
    {
        if self.actions.len() == 0 {
            return;
        }
        let ghost old_app = *self;
        match self.actions.pop() {
            Some(action) => {
                proof {
                    assert(action == old_app.actions@.last());
                    assert(self.actions@ == old_app.actions@.drop_last());
                }
                match action {
                    Action::Placed(idx) => {
                        let ghost f = |p: crate::board::PlacedPiece| p.piece_index;
                        proof {
                            assert(placed_indices(old_app.actions@) == placed_indices(self.actions@).push(idx));
                        }
                        let r = self.board.undo();
                        let ghost board_after = self.board;
                        proof {
                            assert(exists|rr: Option<crate::board::PlacedPiece>| Board::undone_from(board_after, old_app.board, rr));
                            assert(self.board.placed_list() == old_app.board.placed_list().drop_last());
                            assert(self.board.placed_list().map_values(f) =~= old_app.board.placed_list().map_values(f).drop_last());
                        }
                        self.current = idx;
                        self.done = false;
                    },
                    Action::Skipped(idx) => {
                        proof {
                            assert(placed_indices(old_app.actions@) == placed_indices(self.actions@));
                        }
                        self.current = idx;
                        self.done = false;
                    },
                }
                let b = self.board.bottom();
                self.cursor = Anchor { x: 0, y: b };
                proof {
                    let s = *self;
                    assert forall|i: int| 0 <= i < s.actions.len() implies action_index(#[trigger] s.actions@[i]) == i by {
                        assert(s.actions@[i] == old_app.actions@[i]);
                    }
                    assert(action_index(old_app.actions@[old_app.actions.len() - 1]) == old_app.actions.len() - 1);
                    assert(s.board.placed_list().map_values(|p: crate::board::PlacedPiece| p.piece_index)
                        == placed_indices(s.actions@));
                    assert(s.actions@ == old_app.actions@.drop_last());
                    assert(same_session(s, old_app));
                    assert(s.current == action_index(old_app.actions@.last()));
                    assert(s.board.is_bottom(s.cursor.y as int));
                    match old_app.actions@.last() {
                        Action::Placed(_) => {
                            assert(exists|rr: Option<crate::board::PlacedPiece>| Board::undone_from(s.board, old_app.board, rr));
                        },
                        Action::Skipped(_) => {
                            assert(s.board == old_app.board);
                        },
                    }
                }
            },
            None => {},
        }
    }

    fn advance(&mut self)
        requires
            old(self).board.wf(),
            old(self).current < old(self).pieces.len(),
        ensures
            App::advanced(*final(self), *old(self)),
            final(self).board == old(self).board,
    {
        self.current = self.current + 1;
        if self.current < self.pieces.len() {
            let b = self.board.bottom();
            self.cursor = Anchor { x: 0, y: b };
        } else {
            self.done = true;
        }
    }
}

/// A copy of a shape.
fn copy_shape(s: &PieceShape) -> (c: PieceShape)
    ensures
        c.row_widths@ == s.row_widths@,
        c.placeable == s.placeable,
{
    let mut rows: Vec<usize> = Vec::new();
    let mut i: usize = 0;
    while i < s.row_widths.len()
        invariant
            i <= s.row_widths.len(),
            rows@ == s.row_widths@.take(i as int),
        decreases s.row_widths.len() - i,
    {
        rows.push(s.row_widths[i]);
        i += 1;
        assert(rows@ =~= s.row_widths@.take(i as int));
    }
    assert(s.row_widths@.take(s.row_widths.len() as int) =~= s.row_widths@);
    PieceShape { row_widths: rows, placeable: s.placeable }
}

} // verus!

verus! {

/// Pressing Enter where the current piece fits and then `u` gives back the
/// board as it was (same placed pieces, same content in every cell), the
/// same actions, and the same current piece.
pub proof fn place_then_undo_restores_session(a0: App, a1: App, a2: App)
    requires
        a0.wf(),
        !a0.confirm_quit,
        a0.spec_valid_placement(),
        App::key_step(a1, a0, Key::Enter),
        App::key_step(a2, a1, Key::Char('u')),
    ensures
        a2.current == a0.current,
        a2.actions@ == a0.actions@,
        a2.board.placed_list() == a0.board.placed_list(),
        forall|x: int, y: int| #[trigger] a2.board.cell(x, y) == a0.board.cell(x, y),
        !a2.done,
        !a2.confirm_quit,
{
    let cur = a0.current;
    let shape = a1.board.placed_list().last().shape;
    assert(a1.actions@.last() == Action::Placed(cur));
    assert(a1.actions@.drop_last() =~= a0.actions@);
    let r = choose|r: Option<crate::board::PlacedPiece>| Board::undone_from(a2.board, a1.board, r);
    assert(shape.row_widths@ == a0.shapes[cur as int].row_widths@);
    assert(a0.board.spec_can_place(shape.row_widths@, a0.cursor));
    crate::board::grid::place_then_undo_restores(a0.board, a1.board, a2.board, cur, shape, a0.cursor, r);
}

/// Skipping the current piece and then pressing `u` gives back the same
/// board, actions and current piece.
pub proof fn skip_then_undo_restores_session(a0: App, a1: App, a2: App)
    requires
        a0.wf(),
        !a0.confirm_quit,
        a0.current < a0.pieces.len(),
        App::key_step(a1, a0, Key::Char('s')),
        App::key_step(a2, a1, Key::Char('u')),
    ensures
        a2.current == a0.current,
        a2.actions@ == a0.actions@,
        a2.board == a0.board,
        !a2.done,
{
    assert(a1.actions@.last() == Action::Skipped(a0.current));
    assert(a1.actions@.drop_last() =~= a0.actions@);
}

} // verus!
