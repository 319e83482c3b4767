use pack::board::{Anchor, Board};
use pack::piece::PieceShape;

fn shape(rows: &[usize]) -> PieceShape {
    PieceShape { row_widths: rows.to_vec(), placeable: true }
}

#[test]
fn new_board_is_empty() {
    let b = Board::new();
    assert_eq!(b.height(), 0);
    assert_eq!(b.bottom(), 0);
    assert_eq!(b.width(), 131);
    assert!(b.placed_pieces().is_empty());
    assert_eq!(b.get(0, 0), None);
}

#[test]
fn place_fills_exactly_the_covered_cells() {
    let mut b = Board::new();
    let s = shape(&[3, 1]);
    let a = Anchor { x: 2, y: 1 };
    assert!(b.can_place(&s, a));
    b.place(7, s, a);
    assert_eq!(b.height(), 3);
    assert_eq!(b.get(2, 1), Some(7));
    assert_eq!(b.get(4, 1), Some(7));
    assert_eq!(b.get(5, 1), None);
    assert_eq!(b.get(1, 1), None);
    assert_eq!(b.get(2, 2), Some(7));
    assert_eq!(b.get(3, 2), None);
    assert_eq!(b.get(2, 0), None);
    assert_eq!(b.bottom(), 3);
    assert_eq!(b.placed_pieces().len(), 1);
    assert_eq!(b.placed_pieces()[0].piece_index, 7);
    assert_eq!(b.placed_pieces()[0].anchor.x, 2);
    assert_eq!(b.placed_pieces()[0].anchor.y, 1);
}

#[test]
fn can_place_refuses_the_right_edge_and_overlaps() {
    let mut b = Board::new();
    assert!(b.can_place(&shape(&[2]), Anchor { x: 129, y: 0 }));
    assert!(!b.can_place(&shape(&[2]), Anchor { x: 130, y: 0 }));
    b.place(0, shape(&[4, 4]), Anchor { x: 0, y: 0 });
    assert!(!b.can_place(&shape(&[1]), Anchor { x: 3, y: 1 }));
    assert!(b.can_place(&shape(&[1]), Anchor { x: 4, y: 1 }));
    assert!(b.can_place(&shape(&[5, 5]), Anchor { x: 0, y: 2 }));
    assert!(!b.can_place(&shape(&[5, 5]), Anchor { x: 0, y: 1 }));
    // Rows below the grid are free.
    assert!(b.can_place(&shape(&[131]), Anchor { x: 0, y: 40 }));
}

#[test]
fn undo_takes_back_the_last_piece() {
    let mut b = Board::new();
    b.place(0, shape(&[2]), Anchor { x: 0, y: 0 });
    b.place(1, shape(&[3, 3]), Anchor { x: 0, y: 1 });
    let r = b.undo().expect("a piece to take back");
    assert_eq!(r.piece_index, 1);
    assert_eq!(r.anchor.y, 1);
    assert_eq!(b.get(0, 1), None);
    assert_eq!(b.get(2, 2), None);
    assert_eq!(b.get(1, 0), Some(0));
    assert_eq!(b.height(), 3);
    assert_eq!(b.bottom(), 1);
    assert_eq!(b.placed_pieces().len(), 1);
}

#[test]
fn undo_on_an_empty_board_does_nothing() {
    let mut b = Board::new();
    assert!(b.undo().is_none());
    assert_eq!(b.height(), 0);
}

#[test]
fn place_then_undo_leaves_every_cell_as_it_was() {
    let mut b = Board::new();
    b.place(3, shape(&[5, 2, 2]), Anchor { x: 10, y: 2 });
    let before: Vec<Option<usize>> = (0..6).flat_map(|y| (0..20).map(move |x| (x, y))).map(|(x, y)| b.get(x, y)).collect();
    b.place(4, shape(&[1, 6]), Anchor { x: 12, y: 3 });
    assert_eq!(b.get(12, 3), Some(4));
    b.undo();
    let after: Vec<Option<usize>> = (0..6).flat_map(|y| (0..20).map(move |x| (x, y))).map(|(x, y)| b.get(x, y)).collect();
    assert_eq!(before, after);
    assert_eq!(b.placed_pieces().len(), 1);
}

#[test]
fn bottom_is_one_past_the_lowest_used_row() {
    let mut b = Board::new();
    b.place(0, shape(&[1]), Anchor { x: 0, y: 5 });
    assert_eq!(b.bottom(), 6);
    b.place(1, shape(&[1]), Anchor { x: 3, y: 2 });
    assert_eq!(b.bottom(), 6);
    b.undo();
    b.undo();
    assert_eq!(b.bottom(), 0);
    assert_eq!(b.height(), 6);
}
