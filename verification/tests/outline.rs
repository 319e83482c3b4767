use pack::extract::render_outline;
use pack::piece::{compute_outline_groups, Piece, PieceShape, RenderedLine, TextStyle};

fn piece(lines: &[&str]) -> Piece {
    Piece {
        section_index: 0,
        title: None,
        lines: lines.iter().map(|l| RenderedLine::single(l.to_string(), TextStyle::Normal)).collect(),
    }
}

fn bounds(p: &Piece) -> Vec<(usize, usize, usize)> {
    compute_outline_groups(p).iter().map(|g| (g.start, g.end, g.border_width)).collect()
}

#[test]
fn no_lines_no_groups() {
    let p = piece(&[]);
    assert!(compute_outline_groups(&p).is_empty());
    assert!(p.outline_groups().is_empty());
    assert!(render_outline(&p).is_empty());
}

#[test]
fn equal_widths_make_one_group() {
    let p = piece(&["abc", "def", "ghi"]);
    assert_eq!(bounds(&p), vec![(0, 2, 3)]);
}

#[test]
fn a_narrow_tail_gets_its_own_group() {
    // One group costs 5 * 3 = 15; splitting off the last line costs
    // 5 * 2 + (2 + 2) = 14.
    let p = piece(&["aaaaa", "bbbbb", "cc"]);
    assert_eq!(bounds(&p), vec![(0, 1, 5), (2, 2, 2)]);
}

#[test]
fn a_small_dent_is_not_worth_a_step() {
    // One group: 4 * 3 = 12; three groups: 4 + (3 + 3) + (4 + 4) = 18.
    let p = piece(&["aaaa", "bbb", "cccc"]);
    assert_eq!(bounds(&p), vec![(0, 2, 4)]);
}

#[test]
fn empty_lines_get_border_width_one() {
    let p = piece(&[""]);
    assert_eq!(bounds(&p), vec![(0, 0, 1)]);
    assert_eq!(render_outline(&p), vec!["┌─┐", "│ │", "└─┘"]);
}

#[test]
fn widths_follow_the_lines() {
    let p = piece(&["ab", "", "abcd"]);
    assert_eq!(p.widths(), vec![2, 0, 4]);
}

#[test]
fn outline_steps_down() {
    let p = piece(&["aaaaa", "bbbbb", "cc"]);
    assert_eq!(
        render_outline(&p),
        vec!["┌─────┐", "│aaaaa│", "│bbbbb│", "│  ┌──┘", "│cc│", "└──┘"]
    );
}

#[test]
fn outline_steps_up() {
    // One group costs 8 * 3 = 24; the two narrow lines together and the
    // wide one apart cost 2 * 2 + (8 + 8) = 20.
    let p = piece(&["aa", "bb", "cccccccc"]);
    let groups = bounds(&p);
    assert_eq!(groups, vec![(0, 1, 2), (2, 2, 8)]);
    assert_eq!(
        render_outline(&p),
        vec!["┌──┐", "│aa│", "│bb│", "│  └─────┐", "│cccccccc│", "└────────┘"]
    );
}

#[test]
fn shorter_lines_are_padded_to_the_border() {
    let p = piece(&["abc", "a", "abc"]);
    assert_eq!(bounds(&p), vec![(0, 2, 3)]);
    assert_eq!(render_outline(&p), vec!["┌───┐", "│abc│", "│a  │", "│abc│", "└───┘"]);
}

#[test]
fn shape_gives_every_line_its_group_width() {
    let p = piece(&["aaaaa", "bbbbb", "cc"]);
    let s = PieceShape::from_piece(&p);
    assert_eq!(s.row_widths, vec![5, 5, 2]);
    assert!(s.placeable);
    assert_eq!(s.height(), 3);
    assert_eq!(s.max_width(), 5);
}

#[test]
fn shape_of_an_empty_piece_cannot_be_placed() {
    let s = PieceShape::from_piece(&piece(&[]));
    assert!(s.row_widths.is_empty());
    assert!(!s.placeable);
    assert_eq!(s.height(), 0);
    assert_eq!(s.max_width(), 0);
}

#[test]
fn rendered_line_width_counts_characters() {
    let l = RenderedLine::single("héllo".to_string(), TextStyle::Bold);
    assert_eq!(l.width, 5);
    assert_eq!(l.text(), "héllo");
    let l2 = RenderedLine::new(vec![
        pack::piece::LineSegment { text: "• ".to_string(), style: TextStyle::Normal },
        pack::piece::LineSegment { text: "ab".to_string(), style: TextStyle::Code },
    ]);
    assert_eq!(l2.width, 4);
    assert_eq!(l2.text(), "• ab");
}

#[test]
fn widths_up_to_the_bound_can_be_outlined() {
    // (n + 1) * max width may reach usize::MAX.
    let half = usize::MAX / 2;
    let p = Piece {
        section_index: 0,
        title: None,
        lines: vec![
            pack::piece::RenderedLine { segments: vec![], width: half },
        ],
    };
    assert!(p.outline_fits());
    assert_eq!(bounds(&p), vec![(0, 0, half)]);
    let q = Piece {
        section_index: 0,
        title: None,
        lines: vec![pack::piece::RenderedLine { segments: vec![], width: half + 1 }],
    };
    assert!(!q.outline_fits());
}
