//! What the session screen shows: board rows interleaved with page-break
//! rows, what every visible cell holds, the page-break rows themselves,
//! and the labels of the piece list.
use vstd::prelude::*;
use vstd::arithmetic::div_mod::{lemma_fundamental_div_mod, lemma_fundamental_div_mod_converse};
use crate::text::{decimal, push_decimal, push_char, push_chars, chars_of, lemma_usize_decimal_len};
use crate::board::placement::covers;
use crate::parse::types::title_view;
use super::app::{Action, App};

verus! {

/// A row of the display: a board row, or the break line in front of a page
/// (with that page's number, counting from 1).
#[derive(Debug, Clone, Copy, PartialEq, Eq, Structural)]
pub enum DisplayRow {
    Board(usize),
    PageBreak(usize),
}

/// The display row of board row `y` when a break line follows every
/// `p` board rows (no breaks for `p == 0`): row `y` lies on page `y / p`,
/// and one break line stands before each page after the first.
pub open spec fn display_index(y: int, p: int) -> int {
    if p == 0 {
        y
    } else {
        y + y / p
    }
}

/// What display row `d` shows when a break line follows every `p` board
/// rows.
pub open spec fn row_at(d: int, p: int) -> DisplayRow {
    if p == 0 {
        DisplayRow::Board(d as usize)
    } else if d % (p + 1) == p {
        DisplayRow::PageBreak((d / (p + 1) + 2) as usize)
    } else {
        DisplayRow::Board((d / (p + 1) * p + d % (p + 1)) as usize)
    }
}

/// The display row at which board row `board_y` appears.
pub fn board_to_display(board_y: usize, page_rows: usize) -> (d: usize)
    requires
        display_index(board_y as int, page_rows as int) <= usize::MAX,
    ensures
        d == display_index(board_y as int, page_rows as int),
{
    if page_rows == 0 {
        return board_y;
    }
    let breaks = board_y / page_rows;
    board_y + breaks
}

/// The board row or page break shown at display row `display_y`.
pub fn display_to_board(display_y: usize, page_rows: usize) -> (r: DisplayRow)
    requires
        page_rows < usize::MAX,
    ensures
        r == row_at(display_y as int, page_rows as int),
{
    if page_rows == 0 {
        return DisplayRow::Board(display_y);
    }
    let stride = page_rows + 1;
    let cycle = display_y % stride;
    let full_pages = display_y / stride;
    proof {
        lemma_fundamental_div_mod(display_y as int, stride as int);
        assert(full_pages * page_rows + cycle <= display_y) by (nonlinear_arith)
            requires
                display_y == stride * full_pages + cycle,
                stride == page_rows + 1,
                cycle >= 0,
                full_pages >= 0,
        ;
        assert(full_pages * 2 <= display_y) by (nonlinear_arith)
            requires
                display_y == stride * full_pages + cycle,
                stride >= 2,
                cycle >= 0,
                full_pages >= 0,
        ;
    }
    if cycle == page_rows {
        DisplayRow::PageBreak(full_pages + 2)
    } else {
        DisplayRow::Board(full_pages * page_rows + cycle)
    }
}

/// Every board row is shown at a display row that shows it back.
pub proof fn display_round_trip(y: usize, p: usize)
    requires
        p < usize::MAX,
    ensures
        row_at(display_index(y as int, p as int), p as int) == DisplayRow::Board(y),
{
    if p > 0 {
        let q = (y as int) / (p as int);
        let r = (y as int) % (p as int);
        lemma_fundamental_div_mod(y as int, p as int);
        let d = display_index(y as int, p as int);
        assert(d == q * (p + 1) + r) by (nonlinear_arith)
            requires
                d == y + q,
                y == p * q + r,
        ;
        lemma_fundamental_div_mod_converse(d, p + 1, q, r);
        assert(q * p + r == y) by (nonlinear_arith)
            requires
                y == p * q + r,
        ;
    }
}

/// What a cell of the board view shows.
#[derive(Debug, Clone, Copy, PartialEq, Eq, Structural)]
pub enum CellView {
    /// Covered by the current piece at the cursor.
    UnderCursor,
    /// Holds the given placed piece.
    Piece(usize),
    Empty,
}

/// Whether cell `(x, y)` lies under the current piece at the cursor.
pub open spec fn in_ghost(app: App, x: int, y: int) -> bool {
    &&& app.current < app.shapes.len()
    &&& covers(app.shapes[app.current as int].row_widths@, app.cursor, x, y)
}

/// What cell `(x, y)` shows: the current piece at the cursor drawn over
/// the board.
pub open spec fn cell_view(app: App, x: int, y: int) -> CellView {
    if in_ghost(app, x, y) {
        CellView::UnderCursor
    } else {
        match app.board.cell(x, y) {
            Some(i) => CellView::Piece(i),
            None => CellView::Empty,
        }
    }
}

/// What cell `(x, y)` of the board view shows.
pub fn cell_at(app: &App, x: usize, y: usize) -> (c: CellView)
    ensures
        c == cell_view(*app, x as int, y as int),
{
    let in_shape = match app.current_shape() {
        Some(shape) => {
            if y >= app.cursor.y && y - app.cursor.y < shape.height() {
                let row_w = shape.row_widths[y - app.cursor.y];
                x >= app.cursor.x && x - app.cursor.x < row_w
            } else {
                false
            }
        },
        None => false,
    };
    if in_shape {
        CellView::UnderCursor
    } else {
        match app.board.get(x, y) {
            Some(i) => CellView::Piece(i),
            None => CellView::Empty,
        }
    }
}

/// The label in the middle of a page-break row.
pub open spec fn page_label(page: nat) -> Seq<char> {
    seq![' ', 'p', 'g', ' '] + decimal(page) + seq![' ']
}

pub open spec fn min_nat(a: nat, b: nat) -> nat {
    if a <= b { a } else { b }
}

/// A page-break row: `min(visible_cols, board_width)` dashes with the page
/// label centred in it (cut off on the right when it does not fit).
pub open spec fn break_row_chars(page: nat, visible_cols: nat, board_width: nat) -> Seq<char> {
    let total = min_nat(visible_cols, board_width);
    let label = page_label(page);
    let start = (if total >= label.len() { total - label.len() } else { 0int }) / 2;
    Seq::new(total, |c: int| if start <= c < start + label.len() { label[c - start] } else { '┄' })
}

/// The characters of the break row in front of page `page`.
pub fn page_break_row(page: usize, visible_cols: usize, board_width: usize) -> (row: Vec<char>)
    ensures
        row@ == break_row_chars(page as nat, visible_cols as nat, board_width as nat),
{
    let mut label_s = String::new();
    push_char(&mut label_s, ' ');
    push_char(&mut label_s, 'p');
    push_char(&mut label_s, 'g');
    push_char(&mut label_s, ' ');
    push_decimal(&mut label_s, page);
    push_char(&mut label_s, ' ');
    let label = chars_of(label_s.as_str());
    proof {
        lemma_usize_decimal_len(page);
    }
    assert(label@ =~= page_label(page as nat));
    let total = if visible_cols <= board_width { visible_cols } else { board_width };
    let start = total.saturating_sub(label.len()) / 2;
    let ghost target = break_row_chars(page as nat, visible_cols as nat, board_width as nat);
    let mut row: Vec<char> = Vec::new();
    let mut col: usize = 0;
    while col < total
        invariant
            col <= total,
            total == min_nat(visible_cols as nat, board_width as nat),
            label@ == page_label(page as nat),
            label@.len() <= 26,
            start == (if total >= label@.len() { total - label@.len() } else { 0int }) / 2,
            target == break_row_chars(page as nat, visible_cols as nat, board_width as nat),
            row@ == target.take(col as int),
        decreases total - col,
    {
        let ch = if col >= start && col - start < label.len() { label[col - start] } else { '┄' };
        row.push(ch);
        col += 1;
        assert(row@ =~= target.take(col as int));
    }
    assert(target.take(total as int) =~= target);
    row
}

/// Where a piece stands in the session, as the piece list marks it.
#[derive(Debug, Clone, Copy, PartialEq, Eq, Structural)]
pub enum PieceStatus {
    Placed,
    Skipped,
    Current,
    Waiting,
}

/// The status of piece `i` after `actions`, with `current` the piece under
/// the cursor.
pub open spec fn status_of(actions: Seq<Action>, current: int, i: usize) -> PieceStatus {
    if exists|k: int| 0 <= k < actions.len() && actions[k] == Action::Placed(i) {
        PieceStatus::Placed
    } else if exists|k: int| 0 <= k < actions.len() && actions[k] == Action::Skipped(i) {
        PieceStatus::Skipped
    } else if i == current {
        PieceStatus::Current
    } else {
        PieceStatus::Waiting
    }
}

/// The status of piece `i` in the session.
pub fn piece_status(app: &App, i: usize) -> (s: PieceStatus)
    ensures
        s == status_of(app.actions@, app.current as int, i),
{
    let mut k: usize = 0;
    while k < app.actions.len()
        invariant
            k <= app.actions.len(),
            forall|j: int| 0 <= j < k ==> app.actions@[j] != Action::Placed(i),
        decreases app.actions.len() - k,
    {
        if app.actions[k] == Action::Placed(i) {
            return PieceStatus::Placed;
        }
        k += 1;
    }
    let mut k: usize = 0;
    while k < app.actions.len()
        invariant
            k <= app.actions.len(),
            forall|j: int| 0 <= j < app.actions.len() ==> app.actions@[j] != Action::Placed(i),
            forall|j: int| 0 <= j < k ==> app.actions@[j] != Action::Skipped(i),
        decreases app.actions.len() - k,
    {
        if app.actions[k] == Action::Skipped(i) {
            return PieceStatus::Skipped;
        }
        k += 1;
    }
    if i == app.current {
        PieceStatus::Current
    } else {
        PieceStatus::Waiting
    }
}

/// The mark in front of a piece of the given status.
pub open spec fn status_mark(s: PieceStatus) -> char {
    match s {
        PieceStatus::Placed => '✓',
        PieceStatus::Skipped => '–',
        PieceStatus::Current => '►',
        PieceStatus::Waiting => ' ',
    }
}

/// The text shown for a piece without a title.
pub open spec fn untitled() -> Seq<char> {
    seq!['(', 'u', 'n', 't', 'i', 't', 'l', 'e', 'd', ')']
}

/// The entry of piece `i` in the piece list: its mark, its number from 1
/// and its title.
pub open spec fn label_chars(s: PieceStatus, i: nat, title: Option<Seq<char>>) -> Seq<char> {
    seq![status_mark(s), ' '] + decimal(i + 1) + seq!['.', ' '] + match title {
        Some(t) => t,
        None => untitled(),
    }
}

/// The entry of piece `i` in the piece list.
pub fn piece_label(app: &App, i: usize) -> (s: String)
    requires
        i < app.pieces.len(),
    ensures
        s@ == label_chars(status_of(app.actions@, app.current as int, i), i as nat, title_view(
            app.pieces@[i as int].title,
        )),
{
    let status = piece_status(app, i);
    let mark = match status {
        PieceStatus::Placed => '✓',
        PieceStatus::Skipped => '–',
        PieceStatus::Current => '►',
        PieceStatus::Waiting => ' ',
    };
    let mut s = String::new();
    push_char(&mut s, mark);
    push_char(&mut s, ' ');
    push_decimal(&mut s, i + 1);
    push_char(&mut s, '.');
    push_char(&mut s, ' ');
    match &app.pieces[i].title {
        Some(t) => {
            push_chars(&mut s, &chars_of(t.as_str()));
        },
        None => {
            let u: Vec<char> = vec!['(', 'u', 'n', 't', 'i', 't', 'l', 'e', 'd', ')'];
            assert(u@ =~= untitled());
            push_chars(&mut s, &u);
        },
    }
    s
}

} // verus!
