use dragon_chess::board::ChessBoard;
use dragon_chess::cell_set::CellSet;
use dragon_chess::state::get_killed_sheep;
use dragon_chess::state::move_dragon_and_kill;
use dragon_chess::state::move_dragon_get_boards;
use dragon_chess::state::sheep_escapes;
use dragon_chess::state::successors;
use dragon_chess::state::GameState;

fn cells(list: &[(isize, isize)]) -> CellSet {
    CellSet::from_vec(&list.to_vec())
}

fn grid(width: isize, height: isize, safe: &[(isize, isize)]) -> ChessBoard {
    ChessBoard::new(width, height, cells(safe)).unwrap()
}

fn position(sheep: &[(isize, isize)], dragon: (isize, isize)) -> GameState {
    GameState::new(cells(sheep), dragon)
}

#[test]
fn positions_with_the_same_sheep_are_the_same() {
    let a = position(&[(0, 1), (2, 2)], (4, 4));
    let b = position(&[(2, 2), (0, 1), (2, 2)], (4, 4));
    assert!(a.same_as(&b));
    assert_eq!(a, b);
    assert!(!a.same_as(&position(&[(0, 1), (2, 2)], (4, 3))));
    assert!(!a.same_as(&position(&[(0, 1)], (4, 4))));
    assert_eq!(a.clone(), a);
}

#[test]
fn all_sheep_step_down_and_some_leave() {
    let b = grid(4, 3, &[]);
    let mut s = position(&[(0, 0), (1, 1), (2, 2), (0, 3)], (2, 0));
    s.move_all_sheep(&b);
    assert_eq!(s, position(&[(1, 0), (2, 1), (1, 3)], (2, 0)));
    s.move_all_sheep(&b);
    assert_eq!(s, position(&[(2, 0), (2, 3)], (2, 0)));
    s.move_all_sheep(&b);
    assert_eq!(s, position(&[], (2, 0)));
}

#[test]
fn sheep_off_the_board_step_onto_it_or_are_gone() {
    let b = grid(3, 3, &[]);
    let mut s = position(&[(-1, 1), (-2, 0), (0, 5), (isize::MAX, 0), (1, -1)], (0, 0));
    s.move_all_sheep(&b);
    assert_eq!(s, position(&[(0, 1)], (0, 0)));
}

#[test]
fn one_sheep_steps_down() {
    let mut s = position(&[(0, 0), (1, 1)], (3, 3));
    s.move_one_sheep((0, 0));
    assert_eq!(s, position(&[(1, 0), (1, 1)], (3, 3)));
    s.move_one_sheep((5, 5));
    assert_eq!(s, position(&[(1, 0), (1, 1)], (3, 3)));
}

#[test]
fn two_sheep_on_one_cell_are_one() {
    let mut s = position(&[(0, 2), (1, 2)], (3, 3));
    s.move_one_sheep((0, 2));
    assert_eq!(s, position(&[(1, 2)], (3, 3)));
    assert_eq!(s.sheep.len(), 1);
}

#[test]
fn a_sheep_at_the_last_row_of_the_machine_stays() {
    let mut s = position(&[(isize::MAX, 0)], (0, 0));
    s.move_one_sheep((isize::MAX, 0));
    assert_eq!(s, position(&[(isize::MAX, 0)], (0, 0)));
}

#[test]
fn the_dragon_holds_up_the_sheep_above_it() {
    let b = grid(5, 5, &[]);
    let s = position(&[(1, 2), (1, 3), (3, 2)], (2, 2));
    assert_eq!(s.get_possible_sheep_moves(&b), vec![(1, 3), (3, 2)]);
    let alone = position(&[(1, 2)], (2, 2));
    assert_eq!(alone.get_possible_sheep_moves(&b), vec![]);
}

#[test]
fn a_safe_cell_lets_the_sheep_step_onto_the_dragon() {
    let b = grid(5, 5, &[(2, 2)]);
    let s = position(&[(1, 2), (1, 3)], (2, 2));
    assert_eq!(s.get_possible_sheep_moves(&b), vec![(1, 2), (1, 3)]);
}

#[test]
fn a_sheep_in_the_last_row_may_move_and_escapes() {
    let b = grid(5, 5, &[]);
    let s = position(&[(4, 0)], (2, 2));
    assert_eq!(s.get_possible_sheep_moves(&b), vec![(4, 0)]);
    assert!(sheep_escapes(&b, &(4, 0)));
    assert!(!sheep_escapes(&b, &(3, 0)));
    assert!(sheep_escapes(&b, &(isize::MAX, 0)));
    assert!(!sheep_escapes(&b, &(-3, 0)));
    assert!(sheep_escapes(&grid(0, 0, &[]), &(0, 0)));
}

#[test]
fn remove_sheep_counts_what_it_takes() {
    let mut s = position(&[(0, 0), (1, 1), (2, 2), (3, 3)], (4, 4));
    let taken = s.remove_sheep(&cells(&[(1, 1), (3, 3), (9, 9)]));
    assert_eq!(taken, 2);
    assert_eq!(s, position(&[(0, 0), (2, 2)], (4, 4)));
    assert_eq!(s.remove_sheep(&CellSet::new()), 0);
    assert_eq!(s.remove_sheep(&cells(&[(7, 7)])), 0);
    assert_eq!(s, position(&[(0, 0), (2, 2)], (4, 4)));
}

#[test]
fn the_dragon_eats_on_its_cell_unless_it_is_safe() {
    let b = grid(5, 5, &[(1, 1)]);
    let mut s = position(&[(2, 2), (1, 1)], (2, 2));
    s.remove_sheep_current_dragon(&b);
    assert_eq!(s, position(&[(1, 1)], (2, 2)));
    let mut t = position(&[(2, 2), (1, 1)], (1, 1));
    t.remove_sheep_current_dragon(&b);
    assert_eq!(t, position(&[(2, 2), (1, 1)], (1, 1)));
    let mut u = position(&[(2, 2)], (0, 0));
    u.remove_sheep_current_dragon(&b);
    assert_eq!(u, position(&[(2, 2)], (0, 0)));
}

#[test]
fn sheep_turn_gives_one_position_for_each_sheep_that_can_step() {
    let b = grid(5, 5, &[]);
    let s = position(&[(0, 0), (1, 2), (4, 4), (2, 3)], (2, 2));
    let next = s.move_sheep_get_boards(&b);
    assert_eq!(
        next,
        vec![
            position(&[(1, 0), (1, 2), (4, 4), (2, 3)], (2, 2)),
            position(&[(0, 0), (1, 2), (4, 4), (3, 3)], (2, 2)),
        ]
    );
}

#[test]
fn sheep_turn_is_skipped_where_every_sheep_is_held_up() {
    let b = grid(5, 5, &[]);
    let s = position(&[(1, 2)], (2, 2));
    assert_eq!(s.move_sheep_get_boards(&b), vec![s.clone()]);
}

#[test]
fn sheep_turn_is_lost_where_the_only_step_escapes() {
    let b = grid(5, 5, &[]);
    let s = position(&[(4, 1)], (2, 2));
    assert_eq!(s.move_sheep_get_boards(&b), vec![]);
    let held_and_escaping = position(&[(1, 2), (4, 1)], (2, 2));
    assert_eq!(held_and_escaping.move_sheep_get_boards(&b), vec![]);
}

#[test]
fn dragon_turn_moves_the_dragon_alone() {
    let b = grid(3, 3, &[]);
    let s = position(&[(0, 2), (1, 1)], (2, 1));
    assert_eq!(
        move_dragon_get_boards(&b, &s),
        vec![position(&[(0, 2), (1, 1)], (0, 2)), position(&[(0, 2), (1, 1)], (0, 0))]
    );
    assert_eq!(move_dragon_get_boards(&b, &position(&[(0, 0)], (1, 1))), vec![]);
}

#[test]
fn move_dragon_and_kill_eats_unless_safe() {
    let b = grid(4, 4, &[(0, 0)]);
    let s = position(&[(0, 0), (1, 2), (3, 3)], (2, 0));
    assert_eq!(move_dragon_and_kill(&b, s.clone(), &(1, 2)), position(&[(0, 0), (3, 3)], (1, 2)));
    assert_eq!(
        move_dragon_and_kill(&b, s.clone(), &(0, 0)),
        position(&[(0, 0), (1, 2), (3, 3)], (0, 0))
    );
    assert_eq!(
        move_dragon_and_kill(&b, s.clone(), &(2, 2)),
        position(&[(0, 0), (1, 2), (3, 3)], (2, 2))
    );
}

#[test]
fn killed_sheep_stand_on_visited_cells_that_are_not_safe() {
    let b = grid(5, 5, &[(1, 1), (4, 4)]);
    let s = position(&[(0, 0), (1, 1), (2, 2), (3, 3)], (4, 0));
    let visited = cells(&[(1, 1), (2, 2), (3, 3), (4, 4), (0, 1)]);
    assert_eq!(get_killed_sheep(&visited, &b, &s), cells(&[(2, 2), (3, 3)]));
    assert_eq!(get_killed_sheep(&CellSet::new(), &b, &s), CellSet::new());
}

#[test]
fn successors_cross_every_step_with_every_jump() {
    let b = grid(3, 3, &[]);
    let s = position(&[(0, 0), (0, 1)], (1, 2));
    assert_eq!(
        successors(&b, &s),
        vec![
            position(&[(1, 0), (0, 1)], (2, 0)),
            position(&[(1, 0), (0, 1)], (0, 0)),
            position(&[(0, 0), (1, 1)], (2, 0)),
            position(&[(1, 1)], (0, 0)),
        ]
    );
}

#[test]
fn successors_of_a_held_up_sheep_are_the_jumps_alone() {
    let b = grid(3, 3, &[]);
    let s = position(&[(1, 0)], (2, 0));
    assert_eq!(
        successors(&b, &s),
        vec![position(&[(1, 0)], (1, 2)), position(&[(1, 0)], (0, 1))]
    );
}

#[test]
fn successors_are_none_where_the_dragon_cannot_jump() {
    let b = grid(2, 2, &[]);
    let s = position(&[(0, 0)], (1, 1));
    assert_eq!(successors(&b, &s), vec![]);
}
