use pack::board::{Anchor, Board};
use pack::export::{page_boxes, page_count};
use pack::parse::{self, ParseConfig};
use pack::piece::PieceShape;

#[test]
fn at_least_one_page() {
    assert_eq!(page_count(0, 81), 1);
    assert_eq!(page_count(1, 81), 1);
    assert_eq!(page_count(81, 81), 1);
    assert_eq!(page_count(82, 81), 2);
    assert_eq!(page_count(163, 81), 3);
}

fn setup() -> (Board, Vec<pack::piece::Piece>) {
    let pieces = parse::extract_pieces("## A\n\nxx\n\n## Wide\n\nw\n", &ParseConfig::default());
    let mut board = Board::new();
    let s0 = PieceShape::from_piece(&pieces[0]);
    board.place(0, s0, Anchor { x: 1, y: 0 });
    let s1 = PieceShape::from_piece(&pieces[1]);
    board.place(1, s1, Anchor { x: 10, y: 3 });
    (board, pieces)
}

#[test]
fn a_page_holds_the_pieces_it_shows() {
    let (board, pieces) = setup();
    let boxes = page_boxes(&board, &pieces, 0, 81);
    assert_eq!(boxes.len(), 2);
    assert_eq!(boxes[0].piece_index, 0);
    assert_eq!(boxes[0].column, 1);
    assert_eq!(boxes[0].top_row, 0);
    assert_eq!(boxes[0].outline, vec![(0, 0), (2, 0), (2, 2), (0, 2)]);
    assert_eq!(boxes[0].texts, vec![(0, "A".to_string()), (1, "xx".to_string())]);
    // "Wide" over "w": the narrow tail gets its own group.
    assert_eq!(boxes[1].top_row, 3);
    assert_eq!(boxes[1].outline, vec![(0, 0), (4, 0), (4, 1), (1, 1), (1, 2), (0, 2)]);
    assert_eq!(boxes[1].texts, vec![(0, "Wide".to_string()), (1, "w".to_string())]);
}

#[test]
fn pieces_are_cut_at_page_edges() {
    let (board, pieces) = setup();
    let first = page_boxes(&board, &pieces, 0, 1);
    assert_eq!(first.len(), 1);
    assert_eq!(first[0].outline, vec![(0, 0), (2, 0), (2, 1), (0, 1)]);
    assert_eq!(first[0].texts, vec![(0, "A".to_string())]);
    let second = page_boxes(&board, &pieces, 1, 1);
    assert_eq!(second.len(), 1);
    assert_eq!(second[0].top_row, 0);
    assert_eq!(second[0].outline, vec![(0, 0), (2, 0), (2, 1), (0, 1)]);
    assert_eq!(second[0].texts, vec![(0, "xx".to_string())]);
    let empty = page_boxes(&board, &pieces, 2, 1);
    assert!(empty.is_empty());
    let last = page_boxes(&board, &pieces, 4, 2);
    assert_eq!(last.len(), 1);
    assert_eq!(last[0].piece_index, 1);
    assert_eq!(last[0].outline, vec![(0, 0), (1, 0), (1, 1), (0, 1)]);
    assert_eq!(last[0].texts, vec![(0, "w".to_string())]);
}
