use dragon_chess::board::ChessBoard;
use dragon_chess::cell_set::CellSet;
use dragon_chess::memo::state_hash;
use dragon_chess::memo::MemoTable;
use dragon_chess::search::add_counts;
use dragon_chess::search::dfs_memo;
use dragon_chess::search::recurse_board;
use dragon_chess::search::round_of_chess;
use dragon_chess::search::solve;
use dragon_chess::search::solve_in_parallel;
use dragon_chess::state::successors;
use dragon_chess::state::GameState;

fn cells(list: &[(isize, isize)]) -> CellSet {
    CellSet::from_vec(&list.to_vec())
}

fn grid(width: isize, height: isize, safe: &[(isize, isize)]) -> ChessBoard {
    ChessBoard::new(width, height, cells(safe)).unwrap()
}

fn position(sheep: &[(isize, isize)], dragon: (isize, isize)) -> GameState {
    GameState::new(cells(sheep), dragon)
}

fn all_ways(board: &ChessBoard, state: &GameState) -> [Option<u64>; 5] {
    let mut memo = MemoTable::new(7);
    [
        solve(board, state),
        recurse_board(board, state),
        round_of_chess(board, state),
        dfs_memo(board, state, &mut memo),
        solve_in_parallel(board, state),
    ]
}

#[test]
fn add_counts_adds() {
    assert_eq!(add_counts(Some(2), Some(3)), Some(5));
    assert_eq!(add_counts(Some(0), Some(0)), Some(0));
    assert_eq!(add_counts(Some(u64::MAX - 1), Some(1)), Some(u64::MAX));
}

#[test]
fn add_counts_gives_none_when_the_sum_does_not_fit() {
    assert_eq!(add_counts(Some(u64::MAX), Some(1)), None);
    assert_eq!(add_counts(Some(1 << 63), Some(1 << 63)), None);
    assert_eq!(add_counts(None, Some(1)), None);
    assert_eq!(add_counts(Some(1), None), None);
    assert_eq!(add_counts(None, None), None);
}

#[test]
fn no_sheep_counts_once_whatever_the_board() {
    for (width, height) in [(0, 0), (1, 1), (3, 3), (5, 5), (8, 2), (40, 40)] {
        let b = grid(width, height, &[]);
        for dragon in [(0, 0), (2, 1), (-4, 9), (height - 1, width - 1)] {
            let s = position(&[], dragon);
            assert_eq!(all_ways(&b, &s), [Some(1); 5]);
        }
    }
}

#[test]
fn one_sheep_caught_in_two_ways() {
    let b = grid(3, 3, &[]);
    let s = position(&[(0, 0)], (1, 2));
    assert_eq!(all_ways(&b, &s), [Some(2); 5]);
}

#[test]
fn a_safe_cell_saves_the_sheep() {
    let b = grid(3, 3, &[(2, 0)]);
    let s = position(&[(0, 0)], (1, 2));
    assert_eq!(all_ways(&b, &s), [Some(0); 5]);
}

#[test]
fn a_sheep_that_cannot_be_reached_escapes() {
    let b = grid(3, 3, &[]);
    let s = position(&[(0, 0)], (2, 1));
    assert_eq!(all_ways(&b, &s), [Some(0); 5]);
}

#[test]
fn a_dragon_that_cannot_jump_catches_nothing() {
    let b = grid(1, 4, &[]);
    let s = position(&[(0, 0)], (3, 0));
    assert_eq!(all_ways(&b, &s), [Some(0); 5]);
}

#[test]
fn a_held_up_sheep_waits_for_the_dragon() {
    let b = grid(5, 5, &[]);
    let s = position(&[(3, 2)], (4, 2));
    assert_eq!(all_ways(&b, &s), [Some(4); 5]);
    let safe = grid(5, 5, &[(4, 2)]);
    assert_eq!(all_ways(&safe, &s), [Some(0); 5]);
}

#[test]
fn counts_on_small_boards() {
    assert_eq!(all_ways(&grid(5, 5, &[]), &position(&[(0, 2)], (2, 2))), [Some(40); 5]);
    assert_eq!(all_ways(&grid(4, 4, &[]), &position(&[(0, 0), (1, 0)], (3, 3))), [Some(16); 5]);
    assert_eq!(
        all_ways(&grid(4, 4, &[(1, 1)]), &position(&[(0, 1), (0, 2)], (3, 0))),
        [Some(20); 5]
    );
    assert_eq!(
        all_ways(&grid(5, 5, &[]), &position(&[(0, 1), (0, 3)], (4, 2))),
        [Some(13640); 5]
    );
}

#[test]
fn counts_with_safe_cells_and_three_sheep() {
    let b = grid(5, 6, &[(3, 1), (2, 3)]);
    let s = position(&[(0, 1), (0, 3), (1, 4)], (5, 2));
    assert_eq!(solve(&b, &s), Some(1995480545));
    assert_eq!(solve_in_parallel(&b, &s), Some(1995480545));
    let b = grid(6, 7, &[(3, 3), (4, 1)]);
    let s = position(&[(0, 0), (2, 4)], (6, 3));
    assert_eq!(solve(&b, &s), Some(263024));
}

#[test]
fn a_large_count_that_still_fits() {
    let b = grid(24, 24, &[]);
    let s = position(&[(0, 12)], (23, 12));
    assert_eq!(solve(&b, &s), Some(423843353322474729));
    assert_eq!(solve_in_parallel(&b, &s), Some(423843353322474729));
    let b = grid(4, 7, &[(4, 0), (4, 1), (4, 2), (4, 3)]);
    let s = position(&[(0, 0), (0, 2), (1, 3)], (6, 1));
    assert_eq!(solve(&b, &s), Some(875353911588));
}

#[test]
fn a_count_that_does_not_fit_is_none() {
    let b = grid(30, 30, &[]);
    let s = position(&[(0, 15)], (29, 15));
    assert_eq!(solve(&b, &s), None);
    assert_eq!(solve_in_parallel(&b, &s), None);
    let mut memo = MemoTable::new(1024);
    assert_eq!(dfs_memo(&b, &s, &mut memo), None);
}

#[test]
fn the_count_is_the_sum_over_the_successors() {
    let b = grid(5, 5, &[(2, 1)]);
    let s = position(&[(0, 1), (1, 3)], (4, 2));
    let mut sum = Some(0);
    for next in successors(&b, &s).iter() {
        sum = add_counts(sum, solve(&b, next));
    }
    assert_eq!(solve(&b, &s), sum);
    let mut backwards = Some(0);
    for next in successors(&b, &s).iter().rev() {
        backwards = add_counts(solve(&b, next), backwards);
    }
    assert_eq!(sum, backwards);
}

#[test]
fn the_order_in_which_the_sheep_are_given_does_not_matter() {
    let b = grid(5, 5, &[]);
    let one = GameState::new(CellSet::from_vec(&vec![(0, 1), (0, 3), (1, 0)]), (4, 2));
    let other = GameState::new(CellSet::from_vec(&vec![(1, 0), (0, 3), (0, 1), (0, 3)]), (4, 2));
    assert_eq!(solve(&b, &one), solve(&b, &other));
    assert_eq!(state_hash(&one), state_hash(&other));
    let one = GameState::new(CellSet::from_vec(&vec![(0, 1), (0, 3)]), (4, 2));
    let other = GameState::new(CellSet::from_vec(&vec![(0, 3), (0, 1), (0, 3)]), (4, 2));
    assert_eq!(recurse_board(&b, &one), recurse_board(&b, &other));
    assert_eq!(round_of_chess(&b, &one), round_of_chess(&b, &other));
}

#[test]
fn searching_twice_gives_the_same_count() {
    let b = grid(5, 6, &[(3, 1)]);
    let s = position(&[(0, 1), (0, 3)], (5, 2));
    let first = solve(&b, &s);
    let second = solve(&b, &s);
    assert_eq!(first, second);
    let mut fresh = MemoTable::new(64);
    assert_eq!(dfs_memo(&b, &s, &mut fresh), first);
    let mut another = MemoTable::new(1);
    assert_eq!(dfs_memo(&b, &s, &mut another), first);
    let mut none = MemoTable::new(0);
    assert_eq!(dfs_memo(&b, &s, &mut none), first);
}

#[test]
fn a_table_that_was_filled_answers_the_same() {
    let b = grid(5, 5, &[]);
    let s = position(&[(0, 1), (0, 3)], (4, 2));
    let mut memo = MemoTable::new(16);
    assert_eq!(dfs_memo(&b, &s, &mut memo), Some(13640));
    assert_eq!(memo.get(&s), Some(13640));
    assert_eq!(dfs_memo(&b, &s, &mut memo), Some(13640));
    let inner = position(&[(0, 2)], (2, 2));
    assert_eq!(dfs_memo(&b, &inner, &mut memo), Some(40));
    assert_eq!(memo.get(&inner), Some(40));
    assert_eq!(dfs_memo(&b, &s, &mut memo), Some(13640));
}

#[test]
fn a_position_without_sheep_is_not_put_into_the_table() {
    let b = grid(5, 5, &[]);
    let s = position(&[], (4, 2));
    let mut memo = MemoTable::new(16);
    assert_eq!(dfs_memo(&b, &s, &mut memo), Some(1));
    assert_eq!(memo.get(&s), None);
}

#[test]
fn table_keeps_the_last_count_given_for_a_position() {
    let mut memo = MemoTable::new(3);
    let a = position(&[(0, 0)], (1, 1));
    let b = position(&[(0, 0)], (1, 2));
    let c = position(&[(0, 0), (0, 1)], (1, 1));
    assert_eq!(memo.get(&a), None);
    memo.insert(a.clone(), 5);
    memo.insert(b.clone(), 7);
    assert_eq!(memo.get(&a), Some(5));
    assert_eq!(memo.get(&b), Some(7));
    assert_eq!(memo.get(&c), None);
    memo.insert(a.clone(), 9);
    assert_eq!(memo.get(&a), Some(9));
    assert_eq!(memo.get(&b), Some(7));
}

#[test]
fn table_has_the_buckets_it_was_made_with() {
    assert_eq!(MemoTable::new(0).buckets(), 0);
    assert_eq!(MemoTable::new(1).buckets(), 1);
    assert_eq!(MemoTable::new(7).buckets(), 7);
    assert_eq!(MemoTable::new(4096).buckets(), 4096);
    let mut memo = MemoTable::new(5);
    memo.insert(position(&[(0, 0)], (1, 1)), 3);
    memo.insert(position(&[(0, 1)], (1, 1)), 4);
    assert_eq!(memo.buckets(), 5);
    let mut none = MemoTable::new(0);
    none.insert(position(&[(0, 0)], (1, 1)), 3);
    assert_eq!(none.buckets(), 1);
    none.insert(position(&[(0, 1)], (1, 1)), 4);
    assert_eq!(none.buckets(), 1);
}

#[test]
fn table_with_one_bucket_or_none_still_works() {
    for buckets in [0, 1] {
        let mut memo = MemoTable::new(buckets);
        for row in 0..20 {
            memo.insert(position(&[(row, 0)], (row, 1)), row as u64);
        }
        for row in 0..20 {
            assert_eq!(memo.get(&position(&[(row, 0)], (row, 1))), Some(row as u64));
        }
        assert_eq!(memo.get(&position(&[(20, 0)], (20, 1))), None);
    }
}

#[test]
fn hash_is_made_of_the_dragon_and_then_the_sheep() {
    let none = position(&[], (0, 0));
    assert_eq!(state_hash(&none), 0);
    let dragon_only = position(&[], (2, 3));
    assert_eq!(state_hash(&dragon_only), 2 * 1_000_033 + 3);
    let one_sheep = position(&[(1, 1)], (0, 0));
    let first = (0 * 1_000_033 + 1) % 1_000_003;
    assert_eq!(state_hash(&one_sheep), first * 1_000_033 + 1);
}

#[test]
fn searching_side_by_side_agrees_with_searching_in_turn() {
    let b = grid(5, 5, &[(3, 3)]);
    for dragon in [(4, 0), (4, 2), (2, 2), (0, 4)] {
        for sheep in [vec![(0, 0)], vec![(0, 1), (1, 3)], vec![(1, 0), (2, 2), (2, 4)]] {
            let s = GameState::new(CellSet::from_vec(&sheep), dragon);
            assert_eq!(round_of_chess(&b, &s), recurse_board(&b, &s));
            assert_eq!(round_of_chess(&b, &s), solve(&b, &s));
        }
    }
}
