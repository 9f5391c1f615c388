//! What is counted: the ways to play a position out until the dragon has
//! eaten every sheep, with no sheep walking off the board.

use crate::board::lemma_jump_list;
use crate::board::BoardView;
use crate::cell_set::in_order;
use crate::cell_set::lemma_in_order_of;
use crate::cell_set::Cell;
use crate::state::below;
use crate::state::dragon_turns;
use crate::state::StateView;
use crate::sums::lemma_sum_over_agree;
use crate::sums::lemma_sum_over_insert;
use crate::sums::lemma_sum_over_remove;
use crate::sums::lemma_sum_seq_agree;
use crate::sums::lemma_sum_seq_alike;
use crate::sums::lemma_sum_seq_concat;
use crate::sums::lemma_sum_seq_over;
use crate::sums::sum_over;
use crate::sums::sum_seq;
use vstd::prelude::*;

verus! {

/// How many steps the sheep on `p` can still take on the board, counting the
/// one that takes it off.
pub open spec fn steps_left(b: BoardView, p: Cell) -> nat {
    if p.0 < b.height {
        (b.height - p.0) as nat
    } else {
        0
    }
}

/// The steps that all the sheep together can still take.
pub open spec fn load(b: BoardView, s: StateView) -> nat {
    sum_over(s.sheep, |p: Cell| steps_left(b, p))
}

/// Whether the sheep cannot move this turn although some are left.
pub open spec fn stalled(b: BoardView, s: StateView) -> bool {
    !s.sheep.is_empty() && s.free_sheep(b).is_empty()
}

/// A bound on the number of turns that can still be played from `s`. Every
/// turn lowers it: a step takes one from the load, and a turn in which the
/// sheep are held up is followed by one in which they are not.
pub open spec fn turns_left(b: BoardView, s: StateView) -> nat {
    2 * load(b, s) + if stalled(b, s) {
        1nat
    } else {
        0nat
    }
}

/// The number of ways to play from `s` until no sheep is left, with no sheep
/// leaving the board. A turn is one sheep's step down and then one jump of
/// the dragon, which eats the sheep it lands on unless the cell is safe. A
/// sheep does not step onto the dragon unless that cell is safe; where that
/// holds up every sheep, the dragon jumps alone. A step off the board ends
/// the play without a count.
///
/// `lemma_count_step` states the same recursion without the bound that
/// `bounded_jump` carries to show that it ends.
pub open spec fn count_sequences(b: BoardView, s: StateView) -> nat
    decreases turns_left(b, s), 2nat,
{
    if s.sheep.is_empty() {
        1
    } else if s.free_sheep(b).is_empty() {
        sum_over(b.jumps(s.dragon), bounded_jump(b, s, turns_left(b, s)))
    } else {
        sum_over(s.advancing(b), bounded_step(b, s))
    }
}

/// The count after the dragon's jump from `s` to a given cell, taken only
/// where fewer than `bound` turns are left after the jump. That holds of
/// every jump that `count_sequences` sums over (`lemma_land_decreases`,
/// `lemma_step_decreases`).
pub open spec fn bounded_jump(b: BoardView, s: StateView, bound: nat) -> spec_fn(Cell) -> nat
    decreases bound, 0nat,
{
    |j: Cell|
        if turns_left(b, s.land(b, j)) < bound {
            count_sequences(b, s.land(b, j))
        } else {
            0
        }
}

/// The count after a given sheep's step and the dragon's jumps that follow.
pub open spec fn bounded_step(b: BoardView, s: StateView) -> spec_fn(Cell) -> nat
    decreases turns_left(b, s), 1nat,
{
    |p: Cell| sum_over(b.jumps(s.dragon), bounded_jump(b, s.advance(p), turns_left(b, s)))
}

/// The count after the dragon's jump to a given cell, as a function of that
/// cell.
pub open spec fn after_jump(b: BoardView, s: StateView) -> spec_fn(Cell) -> nat {
    |j: Cell| count_sequences(b, s.land(b, j))
}

/// The count over all the jumps that the dragon can make from `s`.
pub open spec fn jump_total(b: BoardView, s: StateView) -> nat {
    sum_over(b.jumps(s.dragon), after_jump(b, s))
}

/// The count after a given sheep's step, as a function of that sheep.
pub open spec fn after_step(b: BoardView, s: StateView) -> spec_fn(Cell) -> nat {
    |p: Cell| jump_total(b, s.advance(p))
}

/// The count of a position, as a function of the position.
pub open spec fn count_of(b: BoardView) -> spec_fn(StateView) -> nat {
    |t: StateView| count_sequences(b, t)
}

/// The counts of the positions in `q`, added up.
pub open spec fn count_total(b: BoardView, q: Seq<StateView>) -> nat {
    sum_seq(q, count_of(b))
}

/// The count over the dragon's jumps from a position, as a function of the
/// position.
pub open spec fn jump_total_of(b: BoardView) -> spec_fn(StateView) -> nat {
    |t: StateView| jump_total(b, t)
}

/// The dragon's jumps after a given sheep's step, taken in a given order, as
/// a function of that sheep.
pub open spec fn steps_in_order(b: BoardView, s: StateView, jump_order: Seq<Cell>) -> spec_fn(
    Cell,
) -> nat {
    |p: Cell| sum_seq(jump_order, after_jump(b, s.advance(p)))
}

/// Taking a sheep away does not raise the load.
proof fn lemma_load_remove(b: BoardView, sheep: Set<Cell>, x: Cell)
    requires
        sheep.finite(),
    ensures
        sum_over(sheep.remove(x), |p: Cell| steps_left(b, p)) <= sum_over(
            sheep,
            |p: Cell| steps_left(b, p),
        ),
        sheep.contains(x) ==> sum_over(sheep.remove(x), |p: Cell| steps_left(b, p)) + steps_left(
            b,
            x,
        ) == sum_over(sheep, |p: Cell| steps_left(b, p)),
{
    if sheep.contains(x) {
        lemma_sum_over_remove(sheep, |p: Cell| steps_left(b, p), x);
    } else {
        assert(sheep.remove(x) =~= sheep);
    }
}

/// The dragon's jump does not raise the load.
proof fn lemma_land_load(b: BoardView, s: StateView, j: Cell)
    requires
        s.wf(),
    ensures
        s.land(b, j).wf(),
        load(b, s.land(b, j)) <= load(b, s),
{
    lemma_load_remove(b, s.sheep, j);
}

/// A step that stays on the board lowers the load.
proof fn lemma_advance_load(b: BoardView, s: StateView, p: Cell)
    requires
        b.wf(),
        s.wf(),
        s.advancing(b).contains(p),
    ensures
        s.advance(p).wf(),
        load(b, s.advance(p)) < load(b, s),
{
    let f = |p: Cell| steps_left(b, p);
    let rest = s.sheep.remove(p);
    lemma_load_remove(b, s.sheep, p);
    assert(steps_left(b, p) >= 2);
    assert(steps_left(b, below(p)) == steps_left(b, p) - 1);
    if rest.contains(below(p)) {
        assert(rest.insert(below(p)) =~= rest);
    } else {
        lemma_sum_over_insert(rest, f, below(p));
    }
}

/// Where every sheep was held up, none is after the dragon's jump.
proof fn lemma_land_frees(b: BoardView, s: StateView, j: Cell)
    requires
        stalled(b, s),
        b.jumps(s.dragon).contains(j),
    ensures
        !stalled(b, s.land(b, j)),
{
    let t = s.land(b, j);
    if !t.sheep.is_empty() {
        let p = t.sheep.choose();
        assert(t.sheep.contains(p));
        assert(s.sheep.contains(p));
        assert(s.blocked(b, p)) by {
            if !s.blocked(b, p) {
                assert(s.free_sheep(b).contains(p));
            }
        }
        assert(!t.blocked(b, p));
        assert(t.free_sheep(b).contains(p));
    }
}

/// A jump of the dragon alone, where the sheep are held up, leaves fewer
/// turns to play.
pub proof fn lemma_land_decreases(b: BoardView, s: StateView, j: Cell)
    requires
        b.wf(),
        s.wf(),
        stalled(b, s),
        b.jumps(s.dragon).contains(j),
    ensures
        turns_left(b, s.land(b, j)) < turns_left(b, s),
{
    lemma_land_load(b, s, j);
    lemma_land_frees(b, s, j);
}

/// A sheep's step and the dragon's jump after it leave fewer turns to play.
pub proof fn lemma_step_decreases(b: BoardView, s: StateView, p: Cell, j: Cell)
    requires
        b.wf(),
        s.wf(),
        s.advancing(b).contains(p),
    ensures
        turns_left(b, s.advance(p).land(b, j)) < turns_left(b, s),
{
    lemma_advance_load(b, s, p);
    lemma_land_load(b, s.advance(p), j);
}

/// The finite sets that the count sums over.
pub proof fn lemma_moves_finite(b: BoardView, s: StateView)
    requires
        b.wf(),
        s.wf(),
    ensures
        s.free_sheep(b).finite(),
        s.advancing(b).finite(),
        b.jumps(s.dragon).finite(),
{
    lemma_jump_list(b, s.dragon);
    vstd::set_lib::lemma_len_subset(s.free_sheep(b), s.sheep);
    vstd::set_lib::lemma_len_subset(s.advancing(b), s.sheep);
}

/// The recursion that defines the count, stated plainly: one where no sheep
/// is left; the dragon's jumps alone where the sheep are held up; else the
/// sum, over the sheep that can step, of the dragon's jumps after the step.
pub proof fn lemma_count_step(b: BoardView, s: StateView)
    requires
        b.wf(),
        s.wf(),
    ensures
        count_sequences(b, s) == if s.sheep.is_empty() {
            1
        } else if s.free_sheep(b).is_empty() {
            jump_total(b, s)
        } else {
            sum_over(s.advancing(b), after_step(b, s))
        },
{
    lemma_moves_finite(b, s);
    if s.sheep.is_empty() {
    } else if s.free_sheep(b).is_empty() {
        let bounded = bounded_jump(b, s, turns_left(b, s));
        assert forall|j: Cell| b.jumps(s.dragon).contains(j) implies bounded(j) == after_jump(
            b,
            s,
        )(j) by {
            lemma_land_decreases(b, s, j);
        }
        lemma_sum_over_agree(b.jumps(s.dragon), bounded, after_jump(b, s));
    } else {
        assert forall|p: Cell| s.advancing(b).contains(p) implies bounded_step(b, s)(p)
            == after_step(b, s)(p) by {
            let t = s.advance(p);
            let bounded = bounded_jump(b, t, turns_left(b, s));
            assert forall|j: Cell| b.jumps(s.dragon).contains(j) implies bounded(j)
                == after_jump(b, t)(j) by {
                lemma_step_decreases(b, s, p, j);
            }
            lemma_sum_over_agree(b.jumps(s.dragon), bounded, after_jump(b, t));
        }
        lemma_sum_over_agree(s.advancing(b), bounded_step(b, s), after_step(b, s));
    }
}

/// A position without sheep counts once: the play is over, and won.
pub proof fn lemma_count_no_sheep(b: BoardView, s: StateView)
    requires
        s.sheep.is_empty(),
    ensures
        count_sequences(b, s) == 1,
{
}

/// The positions after the dragon's turn carry the count over its jumps.
proof fn lemma_dragon_turn_total(b: BoardView, s: StateView)
    requires
        b.wf(),
    ensures
        count_total(b, s.dragon_turn(b)) == jump_total(b, s),
{
    let jumps = b.jump_list(s.dragon);
    lemma_jump_list(b, s.dragon);
    lemma_sum_seq_alike(s.dragon_turn(b), count_of(b), jumps, after_jump(b, s));
    lemma_sum_seq_over(jumps, after_jump(b, s));
}

/// The positions after the dragon's turn from each of `mids` carry the sum
/// of the counts over its jumps from each.
proof fn lemma_dragon_turns_total(b: BoardView, mids: Seq<StateView>)
    requires
        b.wf(),
    ensures
        count_total(b, dragon_turns(b, mids)) == sum_seq(mids, jump_total_of(b)),
    decreases mids.len(),
{
    if mids.len() > 0 {
        lemma_dragon_turns_total(b, mids.drop_last());
        lemma_dragon_turn_total(b, mids.last());
        lemma_sum_seq_concat(
            dragon_turns(b, mids.drop_last()),
            mids.last().dragon_turn(b),
            count_of(b),
        );
    }
}

/// While a sheep is left, the count of a position is the sum of the counts
/// of the positions that one whole turn leads to.
pub proof fn lemma_successors_total(b: BoardView, s: StateView)
    requires
        b.wf(),
        s.wf(),
        !s.sheep.is_empty(),
    ensures
        count_total(b, s.successors(b)) == count_sequences(b, s),
{
    let mids = s.sheep_turn(b);
    lemma_count_step(b, s);
    lemma_dragon_turns_total(b, mids);
    lemma_moves_finite(b, s);
    if s.free_sheep(b).is_empty() {
        assert(mids.drop_last() =~= Seq::<StateView>::empty());
        assert(sum_seq(mids.drop_last(), jump_total_of(b)) == 0);
        assert(mids.last() == s);
    } else {
        let movers = in_order(s.advancing(b));
        lemma_in_order_of(s.advancing(b));
        lemma_sum_seq_alike(mids, jump_total_of(b), movers, after_step(b, s));
        lemma_sum_seq_over(movers, after_step(b, s));
    }
}

/// Each position of `dragon_turns` comes from one of `mids` by one jump of
/// the dragon.
proof fn lemma_dragon_turns_entry(b: BoardView, mids: Seq<StateView>, i: int) -> (r: (int, Cell))
    requires
        b.wf(),
        0 <= i < dragon_turns(b, mids).len(),
    ensures
        0 <= r.0 < mids.len(),
        b.jumps(mids[r.0].dragon).contains(r.1),
        dragon_turns(b, mids)[i] == mids[r.0].land(b, r.1),
    decreases mids.len(),
{
    let before = dragon_turns(b, mids.drop_last());
    if i < before.len() {
        lemma_dragon_turns_entry(b, mids.drop_last(), i)
    } else {
        let last = mids.last();
        let jumps = b.jump_list(last.dragon);
        lemma_jump_list(b, last.dragon);
        let k = i - before.len();
        assert(jumps.contains(jumps[k]));
        (mids.len() - 1, jumps[k])
    }
}

/// Every whole turn leaves fewer turns to play.
pub proof fn lemma_successors_decrease(b: BoardView, s: StateView, i: int)
    requires
        b.wf(),
        s.wf(),
        !s.sheep.is_empty(),
        0 <= i < s.successors(b).len(),
    ensures
        turns_left(b, s.successors(b)[i]) < turns_left(b, s),
        s.successors(b)[i].wf(),
{
    let mids = s.sheep_turn(b);
    let (a, j) = lemma_dragon_turns_entry(b, mids, i);
    lemma_moves_finite(b, s);
    if s.free_sheep(b).is_empty() {
        lemma_land_decreases(b, s, j);
        lemma_land_load(b, s, j);
    } else {
        let movers = in_order(s.advancing(b));
        lemma_in_order_of(s.advancing(b));
        assert(movers.contains(movers[a]));
        lemma_step_decreases(b, s, movers[a], j);
        lemma_advance_load(b, s, movers[a]);
        lemma_land_load(b, s.advance(movers[a]), j);
    }
}

/// The count does not depend on the order in which the sheep that can step,
/// or the dragon's jumps, are gone through: whatever lists them, each once,
/// the sums over those lists give the count.
pub proof fn lemma_count_any_order(
    b: BoardView,
    s: StateView,
    sheep_order: Seq<Cell>,
    jump_order: Seq<Cell>,
)
    requires
        b.wf(),
        s.wf(),
        !s.sheep.is_empty(),
        sheep_order.no_duplicates(),
        sheep_order.to_set() == s.advancing(b),
        jump_order.no_duplicates(),
        jump_order.to_set() == b.jumps(s.dragon),
    ensures
        count_sequences(b, s) == if s.free_sheep(b).is_empty() {
            sum_seq(jump_order, after_jump(b, s))
        } else {
            sum_seq(sheep_order, steps_in_order(b, s, jump_order))
        },
{
    lemma_count_step(b, s);
    if s.free_sheep(b).is_empty() {
        lemma_sum_seq_over(jump_order, after_jump(b, s));
    } else {
        assert forall|i: int| 0 <= i < sheep_order.len() implies steps_in_order(
            b,
            s,
            jump_order,
        )(sheep_order[i]) == after_step(b, s)(sheep_order[i]) by {
            lemma_sum_seq_over(jump_order, after_jump(b, s.advance(sheep_order[i])));
        }
        lemma_sum_seq_agree(sheep_order, steps_in_order(b, s, jump_order), after_step(b, s));
        lemma_sum_seq_over(sheep_order, after_step(b, s));
    }
}

} // verus!
