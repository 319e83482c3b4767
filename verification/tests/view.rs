use pack::parse::{self, ParseConfig};
use pack::tui::view::{
    board_to_display, cell_at, display_to_board, page_break_row, piece_label, piece_status,
};
use pack::tui::{App, CellView, DisplayRow, Key, PieceStatus};

#[test]
fn without_pages_rows_map_to_themselves() {
    assert_eq!(board_to_display(7, 0), 7);
    assert_eq!(display_to_board(7, 0), DisplayRow::Board(7));
}

#[test]
fn board_rows_shift_down_past_page_breaks() {
    assert_eq!(board_to_display(0, 81), 0);
    assert_eq!(board_to_display(80, 81), 80);
    assert_eq!(board_to_display(81, 81), 82);
    assert_eq!(board_to_display(82, 81), 83);
    assert_eq!(board_to_display(162, 81), 164);
    assert_eq!(board_to_display(200, 81), 202);
    assert_eq!(board_to_display(3, 3), 4);
}

#[test]
fn display_rows_show_board_rows_and_breaks() {
    assert_eq!(display_to_board(0, 81), DisplayRow::Board(0));
    assert_eq!(display_to_board(80, 81), DisplayRow::Board(80));
    assert_eq!(display_to_board(81, 81), DisplayRow::PageBreak(2));
    assert_eq!(display_to_board(82, 81), DisplayRow::Board(81));
    assert_eq!(display_to_board(163, 81), DisplayRow::PageBreak(3));
    assert_eq!(display_to_board(164, 81), DisplayRow::Board(162));
    assert_eq!(display_to_board(2, 1), DisplayRow::Board(1));
    assert_eq!(display_to_board(1, 1), DisplayRow::PageBreak(2));
}

#[test]
fn board_rows_come_back_from_their_display_rows() {
    for y in [0usize, 1, 5, 80, 81, 82, 100, 161, 162, 163, 1000] {
        assert_eq!(display_to_board(board_to_display(y, 81), 81), DisplayRow::Board(y));
    }
    for y in 0usize..20 {
        assert_eq!(display_to_board(board_to_display(y, 3), 3), DisplayRow::Board(y));
        assert_eq!(display_to_board(board_to_display(y, 1), 1), DisplayRow::Board(y));
    }
}

#[test]
fn page_break_rows_centre_the_label() {
    let row: String = page_break_row(2, 20, 131).into_iter().collect();
    assert_eq!(row, "┄┄┄┄┄┄┄ pg 2 ┄┄┄┄┄┄┄");
    let narrow: String = page_break_row(12, 131, 9).into_iter().collect();
    assert_eq!(narrow, "┄ pg 12 ┄");
    let cut: String = page_break_row(3, 3, 131).into_iter().collect();
    assert_eq!(cut, " pg");
    assert!(page_break_row(3, 0, 131).is_empty());
}

fn app() -> App {
    App::new(parse::extract_pieces("## A\n\nxx\n\n## B\n\nyyy\n\nplain\n", &ParseConfig::default()))
}

#[test]
fn cells_show_the_cursor_piece_over_the_board() {
    let mut a = app();
    assert_eq!(cell_at(&a, 0, 0), CellView::UnderCursor);
    assert_eq!(cell_at(&a, 1, 1), CellView::UnderCursor);
    assert_eq!(cell_at(&a, 2, 0), CellView::Empty);
    assert_eq!(cell_at(&a, 0, 2), CellView::Empty);
    a.handle_key(Key::Enter);
    assert_eq!(cell_at(&a, 0, 0), CellView::Piece(0));
    assert_eq!(cell_at(&a, 1, 1), CellView::Piece(0));
    // The next piece ("B", "yyy", "plain": one group five wide) waits
    // below, at rows 2..5.
    assert_eq!(cell_at(&a, 4, 2), CellView::UnderCursor);
    assert_eq!(cell_at(&a, 4, 4), CellView::UnderCursor);
    assert_eq!(cell_at(&a, 5, 2), CellView::Empty);
    assert_eq!(cell_at(&a, 0, 5), CellView::Empty);
    a.handle_key(Key::Up);
    a.handle_key(Key::Up);
    assert_eq!(cell_at(&a, 0, 0), CellView::UnderCursor);
    a.handle_key(Key::Char('s'));
    a.handle_key(Key::Char('s'));
    assert!(a.done);
    assert_eq!(cell_at(&a, 0, 0), CellView::Piece(0));
}

#[test]
fn the_piece_list_marks_every_piece() {
    let mut a = app();
    assert_eq!(piece_status(&a, 0), PieceStatus::Current);
    assert_eq!(piece_status(&a, 1), PieceStatus::Waiting);
    assert_eq!(piece_label(&a, 0), "► 1. A");
    assert_eq!(piece_label(&a, 1), "  2. B");
    a.handle_key(Key::Enter);
    a.handle_key(Key::Char('s'));
    assert_eq!(piece_status(&a, 0), PieceStatus::Placed);
    assert_eq!(piece_status(&a, 1), PieceStatus::Skipped);
    assert_eq!(piece_label(&a, 0), "✓ 1. A");
    assert_eq!(piece_label(&a, 1), "– 2. B");
}

#[test]
fn untitled_pieces_are_labelled() {
    let a = App::new(parse::extract_pieces("just text\n", &ParseConfig::default()));
    assert_eq!(piece_label(&a, 0), "► 1. (untitled)");
}
