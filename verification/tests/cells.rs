use dragon_chess::board::is_valid_move;
use dragon_chess::board::ChessBoard;
use dragon_chess::cell_set::cell_less;
use dragon_chess::cell_set::CellSet;

fn set_of(cells: &[(isize, isize)]) -> CellSet {
    CellSet::from_vec(&cells.to_vec())
}

fn board(width: isize, height: isize, safe: &[(isize, isize)]) -> ChessBoard {
    ChessBoard::new(width, height, set_of(safe)).unwrap()
}

#[test]
fn cell_order_is_row_major() {
    assert!(cell_less((0, 5), (1, 0)));
    assert!(cell_less((1, 0), (1, 1)));
    assert!(!cell_less((1, 1), (1, 1)));
    assert!(!cell_less((2, 0), (1, 9)));
    assert!(cell_less((-1, 3), (0, -7)));
}

#[test]
fn new_set_is_empty() {
    let s = CellSet::new();
    assert!(s.is_empty());
    assert_eq!(s.len(), 0);
    assert!(!s.contains((0, 0)));
    assert_eq!(s.cells(), &Vec::<(isize, isize)>::new());
}

#[test]
fn from_vec_sorts_and_drops_repeats() {
    let s = set_of(&[(2, 1), (0, 3), (2, 1), (0, 0), (1, 7), (0, 3)]);
    assert_eq!(s.cells(), &vec![(0, 0), (0, 3), (1, 7), (2, 1)]);
    assert_eq!(s.len(), 4);
    assert!(!s.is_empty());
}

#[test]
fn equal_sets_have_equal_representations() {
    let a = set_of(&[(3, 3), (1, 2), (0, 9)]);
    let b = set_of(&[(0, 9), (3, 3), (1, 2), (3, 3)]);
    assert!(a.same_as(&b));
    assert_eq!(a, b);
    let c = set_of(&[(0, 9), (3, 3)]);
    assert!(!a.same_as(&c));
    assert_ne!(a, c);
    let d = set_of(&[(0, 9), (3, 3), (1, 3)]);
    assert!(!a.same_as(&d));
}

#[test]
fn insert_says_whether_the_cell_was_new() {
    let mut s = CellSet::new();
    assert!(s.insert((1, 1)));
    assert!(s.insert((0, 4)));
    assert!(!s.insert((1, 1)));
    assert!(s.insert((1, 0)));
    assert_eq!(s.cells(), &vec![(0, 4), (1, 0), (1, 1)]);
    assert!(s.contains((0, 4)));
    assert!(s.contains((1, 0)));
    assert!(!s.contains((0, 0)));
    assert!(!s.contains((4, 0)));
}

#[test]
fn remove_says_whether_the_cell_was_there() {
    let mut s = set_of(&[(0, 0), (0, 1), (5, 5)]);
    assert!(s.remove((0, 1)));
    assert!(!s.remove((0, 1)));
    assert!(!s.remove((9, 9)));
    assert_eq!(s.cells(), &vec![(0, 0), (5, 5)]);
    assert!(s.remove((0, 0)));
    assert!(s.remove((5, 5)));
    assert!(s.is_empty());
}

#[test]
fn clone_holds_the_same_cells() {
    let s = set_of(&[(1, 2), (3, 4)]);
    let mut t = s.clone();
    assert_eq!(s, t);
    t.insert((0, 0));
    assert_eq!(s.len(), 2);
    assert_eq!(t.len(), 3);
}

#[test]
fn into_vec_lists_in_increasing_order() {
    let s = set_of(&[(4, 0), (-1, 2), (4, -3)]);
    assert_eq!(s.into_vec(), vec![(-1, 2), (4, -3), (4, 0)]);
}

#[test]
fn union_difference_intersection() {
    let a = set_of(&[(0, 0), (0, 1), (2, 2)]);
    let b = set_of(&[(0, 1), (1, 1), (2, 2), (3, 0)]);
    let mut u = a.clone();
    u.union_with(&b);
    assert_eq!(u, set_of(&[(0, 0), (0, 1), (1, 1), (2, 2), (3, 0)]));
    assert_eq!(a.difference(&b), set_of(&[(0, 0)]));
    assert_eq!(b.difference(&a), set_of(&[(1, 1), (3, 0)]));
    assert_eq!(a.intersection(&b), set_of(&[(0, 1), (2, 2)]));
    assert_eq!(a.difference(&a), CellSet::new());
    assert_eq!(a.intersection(&CellSet::new()), CellSet::new());
}

#[test]
fn is_valid_move_at_the_edges() {
    assert!(is_valid_move(&(0, 0), 5, 4));
    assert!(is_valid_move(&(3, 4), 5, 4));
    assert!(!is_valid_move(&(4, 4), 5, 4));
    assert!(!is_valid_move(&(3, 5), 5, 4));
    assert!(!is_valid_move(&(-1, 0), 5, 4));
    assert!(!is_valid_move(&(0, -1), 5, 4));
    assert!(!is_valid_move(&(0, 0), 0, 0));
}

#[test]
fn board_keeps_what_it_was_made_of() {
    let b = board(6, 4, &[(1, 1), (3, 5)]);
    assert_eq!(b.width(), 6);
    assert_eq!(b.height(), 4);
    assert_eq!(b.safe(), &set_of(&[(1, 1), (3, 5)]));
    assert!(b.is_safe((1, 1)));
    assert!(!b.is_safe((1, 2)));
    assert!(b.is_valid_point((3, 5)));
    assert!(!b.is_valid_point((4, 5)));
    assert!(!b.is_valid_point((3, 6)));
    assert!(!b.is_valid_point((-1, 0)));
}

#[test]
fn board_refuses_a_negative_size() {
    assert!(ChessBoard::new(-1, 3, CellSet::new()).is_none());
    assert!(ChessBoard::new(3, -1, CellSet::new()).is_none());
    assert!(ChessBoard::new(0, 0, CellSet::new()).is_some());
}

#[test]
fn board_refuses_a_safe_cell_outside() {
    assert!(ChessBoard::new(3, 3, set_of(&[(0, 3)])).is_none());
    assert!(ChessBoard::new(3, 3, set_of(&[(1, 1), (3, 0)])).is_none());
    assert!(ChessBoard::new(3, 3, set_of(&[(-1, 0)])).is_none());
    assert!(ChessBoard::new(0, 0, set_of(&[(0, 0)])).is_none());
    assert!(ChessBoard::new(3, 3, set_of(&[(2, 2), (0, 0)])).is_some());
}

#[test]
fn jumps_from_the_middle_of_five_by_five() {
    let b = board(5, 5, &[]);
    assert_eq!(
        b.jumps_from((2, 2)),
        vec![(4, 3), (4, 1), (3, 4), (3, 0), (1, 4), (1, 0), (0, 3), (0, 1)]
    );
}

#[test]
fn jumps_from_a_corner() {
    let b = board(5, 5, &[]);
    assert_eq!(b.jumps_from((0, 0)), vec![(2, 1), (1, 2)]);
    assert_eq!(b.jumps_from((4, 4)), vec![(3, 2), (2, 3)]);
    assert_eq!(b.jumps_from((0, 4)), vec![(2, 3), (1, 2)]);
}

#[test]
fn jumps_on_boards_too_small_to_jump() {
    assert_eq!(board(1, 1, &[]).jumps_from((0, 0)), vec![]);
    assert_eq!(board(2, 2, &[]).jumps_from((0, 0)), vec![]);
    assert_eq!(board(0, 0, &[]).jumps_from((0, 0)), vec![]);
    assert_eq!(board(3, 2, &[]).jumps_from((0, 0)), vec![(1, 2)]);
}

#[test]
fn jumps_from_outside_land_inside() {
    let b = board(5, 5, &[]);
    assert_eq!(b.jumps_from((-1, 0)), vec![(1, 1), (0, 2)]);
    assert_eq!(b.jumps_from((7, 7)), vec![]);
    assert_eq!(b.jumps_from((isize::MAX, isize::MAX)), vec![]);
    assert_eq!(b.jumps_from((isize::MIN, 0)), vec![]);
}

#[test]
fn jumps_are_few_distinct_and_on_the_board() {
    let b = board(6, 7, &[(2, 2)]);
    for row in -2..9 {
        for col in -2..8 {
            let jumps = b.jumps_from((row, col));
            assert!(jumps.len() <= 8);
            for (i, j) in jumps.iter().enumerate() {
                assert!(b.is_valid_point(*j));
                let dr = (j.0 - row).abs();
                let dc = (j.1 - col).abs();
                assert!((dr == 2 && dc == 1) || (dr == 1 && dc == 2));
                assert!(!jumps[..i].contains(j));
            }
        }
    }
}
