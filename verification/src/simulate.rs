//! A hunt of a fixed number of rounds, in which the dragon is taken to be on
//! every cell that it can have reached, and the sheep all walk at once.

use crate::board::BoardView;
use crate::board::ChessBoard;
use crate::cell_set::lemma_take_next;
use crate::cell_set::Cell;
use crate::cell_set::CellSet;
use crate::state::above;
use crate::state::below;
use crate::state::get_killed_sheep;
use crate::state::stepped;
use crate::state::GameState;
use vstd::prelude::*;

verus! {

/// The cells that one jump leads to from some cell of `from`.
pub open spec fn jump_step(b: BoardView, from: Set<Cell>) -> Set<Cell> {
    Set::new(|c: Cell| exists|f: Cell| from.contains(f) && #[trigger] b.jumps(f).contains(c))
}

/// The cells that at least one jump and at most `hops` jumps lead to from
/// some cell of `from`.
pub open spec fn reach(b: BoardView, from: Set<Cell>, hops: nat) -> Set<Cell>
    decreases hops,
{
    if hops == 0 {
        Set::empty()
    } else {
        let first = jump_step(b, from);
        first.union(reach(b, first, (hops - 1) as nat))
    }
}

/// The sheep that are eaten when the dragon is on every cell of `reached`:
/// those on a reached cell that is not safe.
pub open spec fn eaten_of(b: BoardView, sheep: Set<Cell>, reached: Set<Cell>) -> Set<Cell> {
    sheep.intersect(reached).difference(b.safe)
}

/// How a hunt stands: the sheep that are left, the cells that the dragon may
/// be on, and how many sheep have been eaten.
pub struct HuntView {
    pub sheep: Set<Cell>,
    pub frontier: Set<Cell>,
    pub eaten: nat,
}

impl HuntView {
    /// The hunt after one more round: the dragon makes up to `hops` jumps
    /// and is from then on taken to be on every cell that those can reach;
    /// it eats the sheep that it finds there; the others step down, and
    /// those that step onto a reached cell are eaten too. Safe cells
    /// protect.
    pub open spec fn after_round(self, b: BoardView, hops: nat) -> HuntView {
        let reached = reach(b, self.frontier, hops);
        let first = eaten_of(b, self.sheep, reached);
        let moved = stepped(b, self.sheep.difference(first));
        let second = eaten_of(b, moved, reached);
        HuntView {
            sheep: moved.difference(second),
            frontier: reached,
            eaten: self.eaten + first.len() + second.len(),
        }
    }

    /// The hunt after `rounds` more rounds.
    pub open spec fn after_rounds(self, b: BoardView, hops: nat, rounds: nat) -> HuntView
        decreases rounds,
    {
        if rounds == 0 {
            self
        } else {
            self.after_rounds(b, hops, (rounds - 1) as nat).after_round(b, hops)
        }
    }
}

/// The hunt that starts from a position: nothing eaten yet, the dragon on
/// its cell.
pub open spec fn hunt_start(sheep: Set<Cell>, dragon: Cell) -> HuntView {
    HuntView { sheep, frontier: set![dragon], eaten: 0 }
}

/// From no cell, no cell is reached.
proof fn lemma_reach_from_nothing(b: BoardView, hops: nat)
    ensures
        reach(b, Set::empty(), hops) == Set::<Cell>::empty(),
    decreases hops,
{
    if hops > 0 {
        assert(jump_step(b, Set::empty()) =~= Set::<Cell>::empty());
        lemma_reach_from_nothing(b, (hops - 1) as nat);
        assert(reach(b, Set::empty(), hops) =~= Set::<Cell>::empty());
    }
}

/// Sheep that step down do not become more.
pub proof fn lemma_stepped_len(b: BoardView, sheep: Set<Cell>)
    requires
        sheep.finite(),
        b.wf(),
    ensures
        stepped(b, sheep).finite(),
        stepped(b, sheep).len() <= sheep.len(),
    decreases sheep.len(),
{
    if sheep.is_empty() {
        assert(stepped(b, sheep) =~= Set::<Cell>::empty());
    } else {
        let x = sheep.choose();
        let rest = sheep.remove(x);
        lemma_stepped_len(b, rest);
        if x.0 + 1 < b.height && b.in_bounds(below(x)) {
            assert(above(below(x)) == x);
            assert(stepped(b, sheep) =~= stepped(b, rest).insert(below(x))) by {
                assert forall|c: Cell| stepped(b, sheep).contains(c) implies stepped(
                    b,
                    rest,
                ).insert(below(x)).contains(c) by {
                    if above(c) == x {
                        assert(c == below(x));
                    }
                }
            }
        } else {
            assert(stepped(b, sheep) =~= stepped(b, rest)) by {
                assert forall|c: Cell| stepped(b, sheep).contains(c) implies stepped(
                    b,
                    rest,
                ).contains(c) by {
                    if above(c) == x {
                        assert(c == below(x));
                    }
                }
            }
        }
    }
}

/// In a round no sheep is made: those that are left and those that were
/// eaten in it are together no more than there were.
pub proof fn lemma_round_keeps_count(b: BoardView, h: HuntView, hops: nat)
    requires
        b.wf(),
        h.sheep.finite(),
    ensures
        h.after_round(b, hops).sheep.finite(),
        h.after_round(b, hops).eaten >= h.eaten,
        h.after_round(b, hops).sheep.len() + (h.after_round(b, hops).eaten - h.eaten)
            <= h.sheep.len(),
{
    let reached = reach(b, h.frontier, hops);
    let first = eaten_of(b, h.sheep, reached);
    let left = h.sheep.difference(first);
    let moved = stepped(b, left);
    let second = eaten_of(b, moved, reached);
    vstd::set_lib::lemma_len_subset(first, h.sheep);
    vstd::set_lib::lemma_set_difference_len(h.sheep, first);
    assert(h.sheep.intersect(first) =~= first);
    lemma_stepped_len(b, left);
    vstd::set_lib::lemma_len_subset(second, moved);
    vstd::set_lib::lemma_set_difference_len(moved, second);
    assert(moved.intersect(second) =~= second);
}

/// However long a hunt lasts, the sheep that were eaten and those that are
/// left are together no more than there were at its start; so no more are
/// eaten than there were.
pub proof fn lemma_hunt_bounded(b: BoardView, h: HuntView, hops: nat, rounds: nat)
    requires
        b.wf(),
        h.sheep.finite(),
    ensures
        h.after_rounds(b, hops, rounds).sheep.finite(),
        h.after_rounds(b, hops, rounds).eaten >= h.eaten,
        h.after_rounds(b, hops, rounds).sheep.len() + (h.after_rounds(b, hops, rounds).eaten
            - h.eaten) <= h.sheep.len(),
        h.after_rounds(b, hops, rounds).eaten - h.eaten <= h.sheep.len(),
    decreases rounds,
{
    if rounds > 0 {
        lemma_hunt_bounded(b, h, hops, (rounds - 1) as nat);
        lemma_round_keeps_count(b, h.after_rounds(b, hops, (rounds - 1) as nat), hops);
    }
}

/// A longer hunt eats at least as many sheep as a shorter one from the same
/// start.
pub proof fn lemma_hunt_monotone(b: BoardView, h: HuntView, hops: nat, shorter: nat, longer: nat)
    requires
        shorter <= longer,
    ensures
        h.after_rounds(b, hops, shorter).eaten <= h.after_rounds(b, hops, longer).eaten,
    decreases longer,
{
    if shorter < longer {
        lemma_hunt_monotone(b, h, hops, shorter, (longer - 1) as nat);
    }
}

/// A hunt of no rounds eats nothing.
pub proof fn lemma_hunt_of_no_rounds(b: BoardView, sheep: Set<Cell>, dragon: Cell, hops: nat)
    ensures
        hunt_start(sheep, dragon).after_rounds(b, hops, 0).eaten == 0,
{
}

/// The cells that one jump leads to from some cell of `from`.
pub fn jump_once(board: &ChessBoard, from: &CellSet) -> (r: CellSet)
    ensures
        r@ == jump_step(board@, from@),
{
    let cells = from.cells();
    let mut out = CellSet::new();
    let mut i: usize = 0;
    while i < cells.len()
        invariant
            i <= cells@.len(),
            out@ == jump_step(board@, cells@.take(i as int).to_set()),
        decreases cells@.len() - i,
    {
        let jumps = board.jumps_from(cells[i]);
        let ghost before = out@;
        let mut k: usize = 0;
        while k < jumps.len()
            invariant
                k <= jumps@.len(),
                out@ == before.union(jumps@.take(k as int).to_set()),
            decreases jumps@.len() - k,
        {
            out.insert(jumps[k]);
            proof {
                lemma_take_next(jumps@, k as int);
                assert(out@ =~= before.union(jumps@.take(k + 1).to_set()));
            }
            k += 1;
        }
        proof {
            assert(jumps@.take(k as int) =~= jumps@);
            lemma_take_next(cells@, i as int);
            let done = cells@.take(i as int).to_set();
            let f = cells@[i as int];
            assert(out@ =~= jump_step(board@, done.insert(f))) by {
                assert forall|c: Cell| out@.contains(c) implies jump_step(
                    board@,
                    done.insert(f),
                ).contains(c) by {
                    if before.contains(c) {
                        let g = choose|g: Cell|
                            done.contains(g) && #[trigger] board@.jumps(g).contains(c);
                        assert(done.insert(f).contains(g));
                    } else {
                        assert(done.insert(f).contains(f));
                        assert(board@.jumps(f).contains(c));
                    }
                }
                assert forall|c: Cell| jump_step(board@, done.insert(f)).contains(
                    c,
                ) implies out@.contains(c) by {
                    let g = choose|g: Cell|
                        done.insert(f).contains(g) && #[trigger] board@.jumps(g).contains(c);
                    if g != f {
                        assert(done.contains(g));
                    }
                }
            }
        }
        i += 1;
    }
    proof {
        assert(cells@.take(i as int) =~= cells@);
    }
    out
}

/// The cells that at least one jump and at most `hops` jumps lead to from
/// some cell of `from`, found layer by layer.
pub fn reachable(board: &ChessBoard, from: &CellSet, hops: usize) -> (r: CellSet)
    ensures
        r@ == reach(board@, from@, hops as nat),
{
    let mut visited = CellSet::new();
    let mut layer = from.clone();
    let mut k: usize = 0;
    while k < hops
        invariant
            k <= hops,
            reach(board@, from@, hops as nat) == visited@.union(
                reach(board@, layer@, (hops - k) as nat),
            ),
        decreases hops - k,
    {
        if layer.is_empty() {
            proof {
                assert(layer@ =~= Set::<Cell>::empty());
                lemma_reach_from_nothing(board@, (hops - k) as nat);
                assert(visited@.union(Set::<Cell>::empty()) =~= visited@);
            }
            return visited;
        }
        let next = jump_once(board, &layer);
        let ghost seen = visited@;
        visited.union_with(&next);
        proof {
            assert(visited@.union(reach(board@, next@, (hops - k - 1) as nat)) =~= seen.union(
                reach(board@, layer@, (hops - k) as nat),
            ));
        }
        layer = next;
        k += 1;
    }
    proof {
        assert(visited@.union(Set::<Cell>::empty()) =~= visited@);
    }
    visited
}

/// The cells that the dragon can reach from `dragon` with at least one and
/// at most `max` jumps.
pub fn move_dragon_max_times(board: &ChessBoard, dragon: Cell, max: usize) -> (r: CellSet)
    ensures
        r@ == reach(board@, set![dragon], max as nat),
{
    let mut from = CellSet::new();
    from.insert(dragon);
    proof {
        assert(from@ =~= set![dragon]);
    }
    reachable(board, &from, max)
}

/// A hunt under way.
pub struct Hunt {
    sheep: CellSet,
    frontier: CellSet,
    eaten: usize,
}

impl View for Hunt {
    type V = HuntView;

    closed spec fn view(&self) -> HuntView {
        HuntView { sheep: self.sheep@, frontier: self.frontier@, eaten: self.eaten as nat }
    }
}

impl Hunt {
    #[verifier::type_invariant]
    spec fn countable(self) -> bool {
        self.eaten + self.sheep@.len() <= usize::MAX
    }

    /// The hunt that starts from `state`.
    pub fn new(state: &GameState) -> (r: Hunt)
        ensures
            r@ == hunt_start(state@.sheep, state@.dragon),
    {
        let mut frontier = CellSet::new();
        frontier.insert(state.dragon);
        proof {
            assert(frontier@ =~= set![state.dragon]);
        }
        let sheep = state.sheep.clone();
        let _ = sheep.len();
        Hunt { sheep, frontier, eaten: 0 }
    }

    /// The sheep that are left.
    pub fn sheep(&self) -> (r: &CellSet)
        ensures
            r@ == self@.sheep,
    {
        &self.sheep
    }

    /// The cells that the dragon may be on.
    pub fn frontier(&self) -> (r: &CellSet)
        ensures
            r@ == self@.frontier,
    {
        &self.frontier
    }

    /// The number of sheep eaten so far.
    pub fn eaten(&self) -> (r: usize)
        ensures
            r == self@.eaten,
    {
        self.eaten
    }

    /// Plays one round.
    pub fn play_round(&mut self, board: &ChessBoard, hops: usize)
        ensures
            final(self)@ == old(self)@.after_round(board@, hops as nat),
    {
        proof {
            use_type_invariant(&*self);
            self.sheep.lemma_finite();
        }
        let reached = reachable(board, &self.frontier, hops);
        let mut state = GameState { sheep: self.sheep.clone(), dragon: (0, 0) };
        let first = get_killed_sheep(&reached, board, &state);
        let ghost first_set = first@;
        let ate_first = state.remove_sheep(&first);
        proof {
            assert(self.sheep@.intersect(first_set) =~= first_set);
        }
        state.move_all_sheep(board);
        let second = get_killed_sheep(&reached, board, &state);
        let ghost moved = state@.sheep;
        let ate_second = state.remove_sheep(&second);
        proof {
            assert(moved.intersect(second@) =~= second@);
            lemma_round_keeps_count(board@, old(self)@, hops as nat);
        }
        let eaten = self.eaten + ate_first + ate_second;
        self.sheep = state.sheep;
        self.eaten = eaten;
        self.frontier = reached;
    }
}

/// The number of sheep that the dragon eats in `rounds` rounds from
/// `state`, with up to `hops` jumps in each.
pub fn simulate(board: &ChessBoard, state: &GameState, hops: usize, rounds: usize) -> (r: usize)
    ensures
        r == hunt_start(state@.sheep, state@.dragon).after_rounds(
            board@,
            hops as nat,
            rounds as nat,
        ).eaten,
        r <= state@.sheep.len(),
        rounds == 0 ==> r == 0,
{
    let mut hunt = Hunt::new(state);
    let ghost start = hunt@;
    let total = state.sheep.len();
    let _ = board.height();
    let mut done: usize = 0;
    while done < rounds
        invariant
            done <= rounds,
            board@.wf(),
            start == hunt_start(state@.sheep, state@.dragon),
            start.sheep.finite(),
            start.sheep.len() == total,
            hunt@ == start.after_rounds(board@, hops as nat, done as nat),
        decreases rounds - done,
    {
        hunt.play_round(board, hops);
        done += 1;
    }
    proof {
        lemma_hunt_bounded(board@, start, hops as nat, rounds as nat);
    }
    hunt.eaten()
}

} // verus!
