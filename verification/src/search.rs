//! Searching for the count: by playing every turn out, with a table of the
//! positions met, or with the branches side by side.

use crate::board::BoardView;
use crate::board::ChessBoard;
use crate::count::count_of;
use crate::count::count_sequences;
use crate::count::count_total;
use crate::count::lemma_successors_decrease;
use crate::count::lemma_successors_total;
use crate::count::turns_left;
use crate::memo::MemoTable;
use crate::state::successors;
use crate::state::views;
use crate::state::GameState;
use crate::state::StateView;
use crate::sums::lemma_sum_seq_prefix;
use crate::sums::lemma_sum_seq_step;
use rayon::iter::IntoParallelRefIterator;
use rayon::iter::ParallelIterator;
use vstd::prelude::*;
use vstd::rwlock::RwLock;
use vstd::rwlock::RwLockPredicate;

verus! {

/// A count as a machine integer: `None` where it is too large for one.
pub open spec fn as_count(n: nat) -> Option<u64> {
    if n <= u64::MAX {
        Some(n as u64)
    } else {
        None
    }
}

/// What a search from `s` returns: the count, or `None` where the count
/// does not fit a `u64`.
pub open spec fn search_result(b: BoardView, s: StateView) -> Option<u64> {
    as_count(count_sequences(b, s))
}

/// The sum of two counts: `None` where either is, or where the sum does not
/// fit.
pub open spec fn add_spec(a: Option<u64>, b: Option<u64>) -> Option<u64> {
    match (a, b) {
        (Some(x), Some(y)) => as_count((x + y) as nat),
        _ => None,
    }
}

/// Whether every count that the table `m` keeps is the count of its
/// position on the board `b`.
pub open spec fn memo_sound(b: BoardView, m: Map<StateView, u64>) -> bool {
    forall|s: StateView| #[trigger] m.contains_key(s) ==> m[s] == count_sequences(b, s)
}

/// What a search answers for `s` when it has the table `m` at hand: the
/// kept count where the table knows `s`, else what the search finds.
pub open spec fn answer_with(b: BoardView, s: StateView, m: Map<StateView, u64>) -> Option<u64> {
    if m.contains_key(s) {
        Some(m[s])
    } else {
        search_result(b, s)
    }
}

/// Adding counts is adding numbers: whatever the grouping and the order,
/// combining counts gives the sum of them all where that fits, and `None`
/// where it does not; the count of nothing changes nothing.
pub proof fn lemma_add_counts(x: nat, y: nat, z: nat)
    ensures
        add_spec(as_count(x), as_count(y)) == as_count(x + y),
        add_spec(as_count(x), as_count(y)) == add_spec(as_count(y), as_count(x)),
        add_spec(add_spec(as_count(x), as_count(y)), as_count(z)) == add_spec(
            as_count(x),
            add_spec(as_count(y), as_count(z)),
        ),
        add_spec(Some(0u64), as_count(x)) == as_count(x),
{
}

/// A search from a position without sheep answers one, whatever the board.
pub proof fn lemma_search_no_sheep(b: BoardView, s: StateView)
    requires
        s.sheep.is_empty(),
    ensures
        search_result(b, s) == Some(1u64),
{
}

/// The table does not change the answer: with any two tables that hold
/// nothing but counts for this board, the empty one among them, a search
/// answers the same, and that is the count.
pub proof fn lemma_memo_transparent(
    b: BoardView,
    s: StateView,
    m1: Map<StateView, u64>,
    m2: Map<StateView, u64>,
)
    requires
        memo_sound(b, m1),
        memo_sound(b, m2),
    ensures
        answer_with(b, s, m1) == answer_with(b, s, m2),
        answer_with(b, s, m1) == search_result(b, s),
        answer_with(b, s, Map::empty()) == search_result(b, s),
{
}

/// The count of nothing: what a sum of counts starts from.
pub fn no_count() -> (r: Option<u64>)
    ensures
        r == Some(0u64),
{
    Some(0)
}

/// The sum of two counts, `None` where either is or where the sum does not
/// fit a `u64`.
pub fn add_counts(a: Option<u64>, b: Option<u64>) -> (r: Option<u64>)
    ensures
        r == add_spec(a, b),
{
    match (a, b) {
        (Some(x), Some(y)) => x.checked_add(y),
        _ => None,
    }
}

/// The count from `state`, found by playing every turn out, one after the
/// other.
pub fn recurse_board(board: &ChessBoard, state: &GameState) -> (r: Option<u64>)
    ensures
        r == search_result(board@, state@),
        state@.sheep.is_empty() ==> r == Some(1u64),
    decreases turns_left(board@, state@),
{
    if state.sheep.is_empty() {
        return Some(1);
    }
    let next = successors(board, state);
    proof {
        state.sheep.lemma_finite();
        lemma_successors_total(board@, state@);
    }
    let mut total: u64 = 0;
    let mut i: usize = 0;
    while i < next.len()
        invariant
            i <= next@.len(),
            board@.wf(),
            state@.wf(),
            !state@.sheep.is_empty(),
            views(next@) == state@.successors(board@),
            total == count_total(board@, views(next@).take(i as int)),
            count_total(board@, views(next@)) == count_sequences(board@, state@),
        decreases next@.len() - i,
    {
        proof {
            lemma_successors_decrease(board@, state@, i as int);
            lemma_sum_seq_step(views(next@), count_of(board@), i as int);
            lemma_sum_seq_prefix(views(next@), count_of(board@), i + 1);
        }
        let sub = recurse_board(board, &next[i]);
        match add_counts(Some(total), sub) {
            Some(t) => {
                total = t;
            },
            None => {
                return None;
            },
        }
        i += 1;
    }
    proof {
        assert(views(next@).take(i as int) =~= views(next@));
    }
    Some(total)
}

/// The count from `state`, with a table of the counts found so far: a
/// position that the table knows is answered from it, and what is found is
/// put into it. The table must hold nothing but counts for this board.
pub fn dfs_memo(board: &ChessBoard, state: &GameState, memo: &mut MemoTable) -> (r: Option<u64>)
    requires
        memo_sound(board@, old(memo)@),
    ensures
        r == search_result(board@, state@),
        state@.sheep.is_empty() ==> r == Some(1u64),
        memo_sound(board@, final(memo)@),
        old(memo)@.submap_of(final(memo)@),
        r is Some && !state@.sheep.is_empty() ==> final(memo)@.contains_key(state@),
    decreases turns_left(board@, state@),
{
    if state.sheep.is_empty() {
        return Some(1);
    }
    match memo.get(state) {
        Some(known) => {
            return Some(known);
        },
        None => {},
    }
    let next = successors(board, state);
    proof {
        state.sheep.lemma_finite();
        lemma_successors_total(board@, state@);
    }
    let ghost start = memo@;
    let mut total: u64 = 0;
    let mut i: usize = 0;
    while i < next.len()
        invariant
            i <= next@.len(),
            board@.wf(),
            state@.wf(),
            !state@.sheep.is_empty(),
            views(next@) == state@.successors(board@),
            total == count_total(board@, views(next@).take(i as int)),
            count_total(board@, views(next@)) == count_sequences(board@, state@),
            memo_sound(board@, memo@),
            forall|k: StateView| #[trigger]
                start.dom().contains(k) ==> memo@.dom().contains(k) && start[k] == memo@[k],
            !start.dom().contains(state@),
            start == old(memo)@,
        decreases next@.len() - i,
    {
        proof {
            lemma_successors_decrease(board@, state@, i as int);
            lemma_sum_seq_step(views(next@), count_of(board@), i as int);
            lemma_sum_seq_prefix(views(next@), count_of(board@), i + 1);
        }
        let ghost before = memo@;
        let sub = dfs_memo(board, &next[i], memo);
        proof {
            assert forall|k: StateView| #[trigger]
                start.dom().contains(k) implies memo@.dom().contains(k) && start[k]
                == memo@[k] by {
                assert(before.dom().contains(k) && start[k] == before[k]);
                assert(before.submap_of(memo@));
                assert(memo@.dom().contains(k));
            }
        }
        match add_counts(Some(total), sub) {
            Some(t) => {
                total = t;
            },
            None => {
                return None;
            },
        }
        i += 1;
    }
    proof {
        assert(views(next@).take(i as int) =~= views(next@));
    }
    memo.insert(state.clone(), total);
    Some(total)
}

/// The number of buckets of the table that `solve` makes.
pub const MEMO_BUCKETS: usize = 65_536;

/// The number of ways in which the dragon can eat every sheep from `state`
/// on, with no sheep leaving the board; `None` where that number does not
/// fit a `u64`. The search keeps a table of its own, made for this call.
pub fn solve(board: &ChessBoard, state: &GameState) -> (r: Option<u64>)
    ensures
        r == search_result(board@, state@),
        state@.sheep.is_empty() ==> r == Some(1u64),
{
    let mut memo = MemoTable::new(MEMO_BUCKETS);
    dfs_memo(board, state, &mut memo)
}

/// What a table that several searches share must keep to: nothing but
/// counts for this board.
pub struct SoundFor {
    pub board: BoardView,
}

impl RwLockPredicate<MemoTable> for SoundFor {
    open spec fn inv(self, table: MemoTable) -> bool {
        memo_sound(self.board, table@)
    }
}

/// The counts from each of `states`, found side by side and added up; with
/// the table `shared` between the searches, where there is one.
///
/// Not proved: this hands the positions to rayon (`par_iter` on the vector,
/// `ParallelIterator::map` and `ParallelIterator::reduce`), which applies
/// `search_branch` to each of them and combines the results with
/// `add_counts`, starting from `no_count`, in an order of its choosing. The
/// contract says that what comes back is the sum of what `search_branch`
/// promises for each position; `lemma_add_counts` shows that the order in
/// which `add_counts` combines them does not matter. The verifier does not
/// see the calls of `search_branch` that are made here, and so does not
/// check that the searches come to an end; `lemma_successors_decrease` is
/// the reason why they do.
#[verifier::external_body]
fn par_count(
    board: &ChessBoard,
    states: &Vec<GameState>,
    shared: Option<&RwLock<MemoTable, SoundFor>>,
) -> (r: Option<u64>)
    requires
        shared matches Some(table) ==> table.pred() == (SoundFor { board: board@ }),
    ensures
        r == as_count(count_total(board@, views(states@))),
{
    states.par_iter().map(|s| search_branch(board, s, shared)).reduce(no_count, add_counts)
}

/// One of the searches that run side by side: with the shared table, where
/// there is one, else without a table.
fn search_branch(
    board: &ChessBoard,
    state: &GameState,
    shared: Option<&RwLock<MemoTable, SoundFor>>,
) -> (r: Option<u64>)
    requires
        shared matches Some(table) ==> table.pred() == (SoundFor { board: board@ }),
    ensures
        r == search_result(board@, state@),
{
    match shared {
        Some(table) => shared_search(board, state, table),
        None => round_of_chess(board, state),
    }
}

/// The count from `state`, with the positions after each whole turn
/// searched side by side.
pub fn round_of_chess(board: &ChessBoard, state: &GameState) -> (r: Option<u64>)
    ensures
        r == search_result(board@, state@),
        state@.sheep.is_empty() ==> r == Some(1u64),
{
    if state.sheep.is_empty() {
        return Some(1);
    }
    let next = successors(board, state);
    proof {
        state.sheep.lemma_finite();
        lemma_successors_total(board@, state@);
    }
    par_count(board, &next, None)
}

/// The count from `state`, with the positions after each whole turn
/// searched side by side and a table that all of them share. A search
/// looks its position up before it plays on, and puts in what it has found
/// when it is done; two searches may meet the same position before either
/// is done, and then both find the same count.
fn shared_search(board: &ChessBoard, state: &GameState, shared: &RwLock<MemoTable, SoundFor>) -> (r:
    Option<u64>)
    requires
        shared.pred() == (SoundFor { board: board@ }),
    ensures
        r == search_result(board@, state@),
{
    if state.sheep.is_empty() {
        return Some(1);
    }
    let reading = shared.acquire_read();
    let known = reading.borrow().get(state);
    reading.release_read();
    match known {
        Some(count) => {
            return Some(count);
        },
        None => {},
    }
    let next = successors(board, state);
    proof {
        state.sheep.lemma_finite();
        lemma_successors_total(board@, state@);
    }
    let found = par_count(board, &next, Some(shared));
    match found {
        Some(count) => {
            let (mut table, writing) = shared.acquire_write();
            table.insert(state.clone(), count);
            writing.release_write(table);
        },
        None => {},
    }
    found
}

/// The number of ways in which the dragon can eat every sheep from `state`
/// on, as `solve` finds it, with the branches searched side by side and one
/// table, made for this call, between them.
pub fn solve_in_parallel(board: &ChessBoard, state: &GameState) -> (r: Option<u64>)
    ensures
        r == search_result(board@, state@),
        state@.sheep.is_empty() ==> r == Some(1u64),
{
    let shared = RwLock::<MemoTable, SoundFor>::new(
        MemoTable::new(MEMO_BUCKETS),
        Ghost(SoundFor { board: board@ }),
    );
    shared_search(board, state, &shared)
}

} // verus!
