use pack::parse::{self, ParseConfig};
use pack::piece::Piece;
use pack::tui::{Action, App, Key};

fn pieces() -> Vec<Piece> {
    // Piece 0: "A" / "xx" -> one group of width 2; piece 1: "B" / "yyy" -> width 3.
    parse::extract_pieces("## A\n\nxx\n\n## B\n\nyyy\n", &ParseConfig::default())
}

fn cursor(app: &App) -> (usize, usize) {
    (app.cursor.x, app.cursor.y)
}

#[test]
fn a_new_session_starts_at_the_first_piece() {
    let app = App::new(pieces());
    assert_eq!(app.current, 0);
    assert_eq!(cursor(&app), (0, 0));
    assert!(app.actions.is_empty());
    assert!(!app.done);
    assert!(!app.confirm_quit);
    assert_eq!(app.shapes.len(), 2);
    assert_eq!(app.shapes[0].row_widths, vec![2, 2]);
    assert_eq!(app.shapes[1].row_widths, vec![3, 3]);
    assert_eq!(app.current_shape().map(|s| s.height()), Some(2));
    assert!(app.is_valid_placement());
}

#[test]
fn arrows_move_the_cursor_but_not_past_the_top_left() {
    let mut app = App::new(pieces());
    app.handle_key(Key::Up);
    app.handle_key(Key::Left);
    assert_eq!(cursor(&app), (0, 0));
    app.handle_key(Key::Right);
    app.handle_key(Key::Right);
    app.handle_key(Key::Down);
    assert_eq!(cursor(&app), (2, 1));
    app.handle_key(Key::Left);
    app.handle_key(Key::Up);
    assert_eq!(cursor(&app), (1, 0));
    app.handle_key(Key::Other);
    app.handle_key(Key::Char('x'));
    assert_eq!(cursor(&app), (1, 0));
}

#[test]
fn enter_places_and_moves_on_below_the_placed_pieces() {
    let mut app = App::new(pieces());
    app.handle_key(Key::Right);
    app.handle_key(Key::Enter);
    assert_eq!(app.actions, vec![Action::Placed(0)]);
    assert_eq!(app.current, 1);
    assert_eq!(cursor(&app), (0, 2));
    assert_eq!(app.board.get(1, 0), Some(0));
    assert_eq!(app.board.get(2, 1), Some(0));
    assert_eq!(app.board.get(0, 0), None);
    app.handle_key(Key::Enter);
    assert_eq!(app.actions, vec![Action::Placed(0), Action::Placed(1)]);
    assert_eq!(app.current, 2);
    assert!(app.done);
    assert_eq!(app.board.get(2, 3), Some(1));
    assert!(app.current_shape().is_none());
    assert!(!app.is_valid_placement());
}

#[test]
fn enter_over_a_placed_piece_does_nothing() {
    let mut app = App::new(pieces());
    app.handle_key(Key::Enter);
    app.handle_key(Key::Up);
    app.handle_key(Key::Up);
    assert_eq!(cursor(&app), (0, 0));
    assert!(!app.is_valid_placement());
    app.handle_key(Key::Enter);
    assert_eq!(app.current, 1);
    assert_eq!(app.actions.len(), 1);
}

#[test]
fn enter_past_the_right_edge_does_nothing() {
    let mut app = App::new(pieces());
    for _ in 0..130 {
        app.handle_key(Key::Right);
    }
    assert_eq!(cursor(&app), (130, 0));
    assert!(!app.is_valid_placement());
    app.handle_key(Key::Enter);
    assert_eq!(app.current, 0);
    app.handle_key(Key::Left);
    assert!(app.is_valid_placement());
    app.handle_key(Key::Enter);
    assert_eq!(app.current, 1);
}

#[test]
fn place_then_undo_restores_the_session() {
    let mut app = App::new(pieces());
    app.handle_key(Key::Char('s'));
    assert_eq!(app.current, 1);
    let board_before: Vec<Option<usize>> = (0..10).map(|x| app.board.get(x, 0)).collect();
    app.handle_key(Key::Right);
    app.handle_key(Key::Enter);
    assert!(app.done);
    app.handle_key(Key::Char('u'));
    assert!(!app.done);
    assert_eq!(app.current, 1);
    assert_eq!(app.actions, vec![Action::Skipped(0)]);
    let board_after: Vec<Option<usize>> = (0..10).map(|x| app.board.get(x, 0)).collect();
    assert_eq!(board_before, board_after);
    assert_eq!(cursor(&app), (0, 0));
}

#[test]
fn skip_then_undo_restores_the_session() {
    let mut app = App::new(pieces());
    app.handle_key(Key::Enter);
    app.handle_key(Key::Char('S'));
    assert!(app.done);
    assert_eq!(app.actions, vec![Action::Placed(0), Action::Skipped(1)]);
    app.handle_key(Key::Char('U'));
    assert_eq!(app.current, 1);
    assert!(!app.done);
    assert_eq!(app.actions, vec![Action::Placed(0)]);
    assert_eq!(cursor(&app), (0, 2));
}

#[test]
fn undo_with_nothing_done_does_nothing() {
    let mut app = App::new(pieces());
    app.handle_key(Key::Right);
    app.handle_key(Key::Char('u'));
    assert_eq!(cursor(&app), (1, 0));
    assert_eq!(app.current, 0);
}

#[test]
fn quitting_early_asks_first() {
    let mut app = App::new(pieces());
    app.handle_key(Key::Char('q'));
    assert!(app.confirm_quit);
    assert!(!app.done);
    app.handle_key(Key::Down);
    assert!(!app.confirm_quit);
    assert_eq!(cursor(&app), (0, 0));
    app.handle_key(Key::Char('Q'));
    app.handle_key(Key::Char('Y'));
    assert!(app.done);
}

#[test]
fn enter_confirms_quitting() {
    let mut app = App::new(pieces());
    app.handle_key(Key::Char('q'));
    app.handle_key(Key::Enter);
    assert!(app.done);
    assert_eq!(app.current, 0);
}

#[test]
fn quitting_after_the_last_piece_needs_no_confirmation() {
    let mut app = App::new(pieces());
    app.handle_key(Key::Char('s'));
    app.handle_key(Key::Char('s'));
    assert!(app.done);
    app.handle_key(Key::Char('u'));
    assert!(!app.done);
    app.handle_key(Key::Char('s'));
    app.handle_key(Key::Char('q'));
    assert!(app.done);
    assert!(!app.confirm_quit);
}

#[test]
fn scrolling_follows_the_cursor() {
    let mut app = App::new(pieces());
    app.update_scroll(10);
    assert_eq!(app.scroll_y, 0);
    for _ in 0..12 {
        app.handle_key(Key::Down);
    }
    // The piece at rows 12..14 must show in 10 rows: scroll to 4.
    app.update_scroll(10);
    assert_eq!(app.scroll_y, 4);
    for _ in 0..10 {
        app.handle_key(Key::Up);
    }
    app.update_scroll(10);
    assert_eq!(app.scroll_y, 2);
}
