//! A position of the chase: where the sheep stand and where the dragon is,
//! and the moves that lead from one position to the next.

use crate::board::BoardView;
use crate::board::ChessBoard;
use crate::cell_set::in_order;
use crate::cell_set::lemma_take_next;
use crate::cell_set::Cell;
use crate::cell_set::CellSet;
use vstd::prelude::*;

verus! {

/// The cell one row further down.
pub open spec fn below(p: Cell) -> Cell {
    ((p.0 + 1) as isize, p.1)
}

/// The cell one row further up.
pub open spec fn above(p: Cell) -> Cell {
    ((p.0 - 1) as isize, p.1)
}

/// What a position is, mathematically: the set of cells that hold a sheep,
/// and the dragon's cell. Sheep on one cell count as one.
pub struct StateView {
    pub sheep: Set<Cell>,
    pub dragon: Cell,
}

impl StateView {
    /// A position holds finitely many sheep.
    pub open spec fn wf(self) -> bool {
        self.sheep.finite()
    }

    /// Whether every sheep stands on the board.
    pub open spec fn on_board(self, b: BoardView) -> bool {
        forall|p: Cell| self.sheep.contains(p) ==> b.in_bounds(p)
    }

    /// Whether the sheep on `p` is held up: the cell below it is the
    /// dragon's, and is not safe.
    pub open spec fn blocked(self, b: BoardView, p: Cell) -> bool {
        p.0 + 1 == self.dragon.0 && p.1 == self.dragon.1 && !b.safe.contains(self.dragon)
    }

    /// Whether a step down from `p` leaves the board.
    pub open spec fn escapes(b: BoardView, p: Cell) -> bool {
        p.0 + 1 >= b.height
    }

    /// The sheep that are not held up.
    pub open spec fn free_sheep(self, b: BoardView) -> Set<Cell> {
        self.sheep.filter(|p: Cell| !self.blocked(b, p))
    }

    /// The sheep that are not held up and whose step stays on the board.
    pub open spec fn advancing(self, b: BoardView) -> Set<Cell> {
        self.sheep.filter(|p: Cell| !self.blocked(b, p) && !Self::escapes(b, p))
    }

    /// The position after the sheep on `p` has stepped down.
    pub open spec fn advance(self, p: Cell) -> StateView {
        StateView { sheep: self.sheep.remove(p).insert(below(p)), dragon: self.dragon }
    }

    /// The position after the dragon has moved to `j`: a sheep found there
    /// is eaten unless the cell is safe.
    pub open spec fn land(self, b: BoardView, j: Cell) -> StateView {
        StateView {
            sheep: if b.safe.contains(j) {
                self.sheep
            } else {
                self.sheep.remove(j)
            },
            dragon: j,
        }
    }

    /// The positions that the sheep's turn can lead to, in the order of the
    /// sheep that moves: the position itself where every sheep is held up,
    /// else one position for each sheep whose step stays on the board.
    pub open spec fn sheep_turn(self, b: BoardView) -> Seq<StateView> {
        if self.free_sheep(b).is_empty() {
            seq![self]
        } else {
            let movers = in_order(self.advancing(b));
            Seq::new(movers.len(), |i: int| self.advance(movers[i]))
        }
    }

    /// The positions that the dragon's turn can lead to from this one, in
    /// the order of its jumps.
    pub open spec fn dragon_turn(self, b: BoardView) -> Seq<StateView> {
        let jumps = b.jump_list(self.dragon);
        Seq::new(jumps.len(), |k: int| self.land(b, jumps[k]))
    }

    /// The positions after a whole turn: the sheep's turn, then the
    /// dragon's, in the order of the sheep that moved and then of the jump.
    pub open spec fn successors(self, b: BoardView) -> Seq<StateView> {
        dragon_turns(b, self.sheep_turn(b))
    }

    /// The sheep after all of them have stepped down at once; those that
    /// step off the board are gone.
    pub open spec fn all_advanced(self, b: BoardView) -> Set<Cell> {
        stepped(b, self.sheep)
    }
}

/// The dragon's turn from each of the positions `mids`, one after the
/// other.
pub open spec fn dragon_turns(b: BoardView, mids: Seq<StateView>) -> Seq<StateView>
    decreases mids.len(),
{
    if mids.len() == 0 {
        Seq::empty()
    } else {
        dragon_turns(b, mids.drop_last()) + mids.last().dragon_turn(b)
    }
}

/// The cells of the board that lie one row below a cell of `sheep`.
pub open spec fn stepped(b: BoardView, sheep: Set<Cell>) -> Set<Cell> {
    Set::new(|c: Cell| b.in_bounds(c) && sheep.contains(above(c)))
}

/// The views of a sequence of positions.
pub open spec fn views(q: Seq<GameState>) -> Seq<StateView> {
    Seq::new(q.len(), |i: int| q[i]@)
}

/// A position: the sheep and the dragon.
#[derive(Debug, PartialEq, Eq, Hash)]
pub struct GameState {
    pub sheep: CellSet,
    pub dragon: Cell,
}

impl View for GameState {
    type V = StateView;

    open spec fn view(&self) -> StateView {
        StateView { sheep: self.sheep@, dragon: self.dragon }
    }
}

impl Clone for GameState {
    fn clone(&self) -> (r: Self)
        ensures
            r@ == self@,
    {
        GameState { sheep: self.sheep.clone(), dragon: self.dragon }
    }
}

/// Whether a step down from `p` leaves the board.
pub fn sheep_escapes(board: &ChessBoard, p: &Cell) -> (r: bool)
    ensures
        r == StateView::escapes(board@, *p),
        board@.wf(),
{
    p.0 >= board.height() - 1
}

impl GameState {
    /// The position with the given sheep and dragon.
    pub fn new(sheep: CellSet, dragon: Cell) -> (r: GameState)
        ensures
            r@ == (StateView { sheep: sheep@, dragon }),
    {
        GameState { sheep, dragon }
    }

    /// Whether the two positions have the same sheep and the same dragon.
    pub fn same_as(&self, other: &GameState) -> (r: bool)
        ensures
            r == (self@ == other@),
    {
        self.dragon.0 == other.dragon.0 && self.dragon.1 == other.dragon.1 && self.sheep.same_as(
            &other.sheep,
        )
    }

    /// Whether the sheep on `p` is held up by the dragon.
    fn is_blocked(&self, board: &ChessBoard, p: Cell) -> (r: bool)
        ensures
            r == self@.blocked(board@, p),
    {
        match p.0.checked_add(1) {
            Some(row) => row == self.dragon.0 && p.1 == self.dragon.1 && !board.is_safe(
                self.dragon,
            ),
            None => false,
        }
    }

    /// Every sheep steps down one row; those that step off the board are
    /// gone.
    pub fn move_all_sheep(&mut self, board: &ChessBoard)
        ensures
            final(self)@ == (StateView {
                sheep: old(self)@.all_advanced(board@),
                dragon: old(self).dragon,
            }),
            final(self)@.on_board(board@),
    {
        let height = board.height();
        let mut out = CellSet::new();
        let cells = self.sheep.cells();
        let mut i: usize = 0;
        while i < cells.len()
            invariant
                i <= cells@.len(),
                height == board@.height,
                board@.wf(),
                out@ == stepped(board@, cells@.take(i as int).to_set()),
            decreases cells@.len() - i,
        {
            let p = cells[i];
            let ghost before = cells@.take(i as int).to_set();
            if p.0 < height - 1 {
                let q: Cell = (p.0 + 1, p.1);
                if board.is_valid_point(q) {
                    out.insert(q);
                }
            }
            proof {
                lemma_take_next(cells@, i as int);
                assert forall|c: Cell| out@.contains(c) <==> stepped(
                    board@,
                    before.insert(p),
                ).contains(c) by {
                    if board@.in_bounds(c) && above(c) == p {
                        assert(c.0 == p.0 + 1);
                    }
                }
                assert(out@ =~= stepped(board@, before.insert(p)));
            }
            i += 1;
        }
        proof {
            assert(cells@.take(i as int) =~= cells@);
        }
        self.sheep = out;
    }

    /// The sheep on `old_pos`, if there is one, steps down one row.
    pub fn move_one_sheep(&mut self, old_pos: Cell)
        ensures
            final(self)@ == if old(self)@.sheep.contains(old_pos) && old_pos.0 < isize::MAX {
                old(self)@.advance(old_pos)
            } else {
                old(self)@
            },
    {
        if old_pos.0 < isize::MAX && self.sheep.contains(old_pos) {
            self.sheep.remove(old_pos);
            self.sheep.insert((old_pos.0 + 1, old_pos.1));
        }
    }

    /// The sheep that are not held up by the dragon, in increasing order.
    pub fn get_possible_sheep_moves(&self, board: &ChessBoard) -> (r: Vec<Cell>)
        ensures
            r@ == in_order(self@.free_sheep(board@)),
            r@.no_duplicates(),
            r@.to_set() == self@.free_sheep(board@),
    {
        let cells = self.sheep.cells();
        let mut out = CellSet::new();
        let mut i: usize = 0;
        while i < cells.len()
            invariant
                i <= cells@.len(),
                out@ == cells@.take(i as int).to_set().filter(
                    |p: Cell| !self@.blocked(board@, p),
                ),
            decreases cells@.len() - i,
        {
            if !self.is_blocked(board, cells[i]) {
                out.insert(cells[i]);
            }
            proof {
                lemma_take_next(cells@, i as int);
                assert(out@ =~= cells@.take(i + 1).to_set().filter(
                    |p: Cell| !self@.blocked(board@, p),
                ));
            }
            i += 1;
        }
        proof {
            assert(cells@.take(i as int) =~= cells@);
        }
        out.into_vec()
    }

    /// Takes away the sheep that stand on a cell of `visited`; says how
    /// many those were.
    pub fn remove_sheep(&mut self, visited: &CellSet) -> (r: usize)
        ensures
            final(self)@ == (StateView {
                sheep: old(self)@.sheep.difference(visited@),
                dragon: old(self).dragon,
            }),
            r == old(self)@.sheep.intersect(visited@).len(),
            r == old(self)@.sheep.len() - final(self)@.sheep.len(),
    {
        let before = self.sheep.len();
        let left = self.sheep.difference(visited);
        let after = left.len();
        proof {
            self.sheep.lemma_finite();
            visited.lemma_finite();
            vstd::set_lib::lemma_set_difference_len(self.sheep@, visited@);
        }
        self.sheep = left;
        before - after
    }

    /// The dragon eats the sheep on its own cell, unless the cell is safe.
    pub fn remove_sheep_current_dragon(&mut self, board: &ChessBoard)
        ensures
            final(self)@ == old(self)@.land(board@, old(self).dragon),
    {
        if !board.is_safe(self.dragon) {
            self.sheep.remove(self.dragon);
        }
    }

    /// The positions that the sheep's turn can lead to: this position where
    /// every sheep is held up, else one for each sheep whose step stays on
    /// the board, in the order of the sheep.
    pub fn move_sheep_get_boards(&self, board: &ChessBoard) -> (r: Vec<GameState>)
        ensures
            views(r@) == self@.sheep_turn(board@),
            self@.on_board(board@) ==> forall|i: int|
                0 <= i < r@.len() ==> (#[trigger] r@[i])@.on_board(board@),
    {
        let sheep_moves = self.get_possible_sheep_moves(board);
        if sheep_moves.len() == 0 {
            proof {
                if !self@.free_sheep(board@).is_empty() {
                    let p = self@.free_sheep(board@).choose();
                    assert(sheep_moves@.to_set().contains(p));
                }
            }
            let mut out: Vec<GameState> = Vec::new();
            out.push(self.clone());
            proof {
                assert(views(out@) =~= seq![self@]);
            }
            return out;
        }
        proof {
            assert(sheep_moves@.contains(sheep_moves@[0]));
            assert(self@.free_sheep(board@).contains(sheep_moves@[0]));
        }
        let mut movers = CellSet::new();
        let mut i: usize = 0;
        while i < sheep_moves.len()
            invariant
                i <= sheep_moves@.len(),
                sheep_moves@.to_set() == self@.free_sheep(board@),
                i > 0 ==> board@.wf(),
                movers@ == sheep_moves@.take(i as int).to_set().filter(
                    |p: Cell| !StateView::escapes(board@, p),
                ),
            decreases sheep_moves@.len() - i,
        {
            if !sheep_escapes(board, &sheep_moves[i]) {
                movers.insert(sheep_moves[i]);
            }
            proof {
                lemma_take_next(sheep_moves@, i as int);
                assert(movers@ =~= sheep_moves@.take(i + 1).to_set().filter(
                    |p: Cell| !StateView::escapes(board@, p),
                ));
            }
            i += 1;
        }
        proof {
            assert(sheep_moves@.take(i as int) =~= sheep_moves@);
            assert(movers@ =~= self@.advancing(board@));
        }
        let movers = movers.into_vec();
        let mut out: Vec<GameState> = Vec::new();
        let mut k: usize = 0;
        while k < movers.len()
            invariant
                k <= movers@.len(),
                out@.len() == k,
                board@.wf(),
                movers@ == in_order(self@.advancing(board@)),
                movers@.to_set() == self@.advancing(board@),
                forall|m: int| 0 <= m < k ==> (#[trigger] out@[m])@ == self@.advance(movers@[m]),
                self@.on_board(board@) ==> forall|m: int|
                    0 <= m < k ==> (#[trigger] out@[m])@.on_board(board@),
            decreases movers@.len() - k,
        {
            proof {
                assert(movers@.contains(movers@[k as int]));
                assert(self@.advancing(board@).contains(movers@[k as int]));
            }
            let mut next = self.clone();
            next.move_one_sheep(movers[k]);
            proof {
                if self@.on_board(board@) {
                    assert(board@.in_bounds(movers@[k as int]));
                    assert(board@.in_bounds(below(movers@[k as int])));
                    assert(next@.on_board(board@));
                }
            }
            out.push(next);
            k += 1;
        }
        proof {
            assert(views(out@) =~= self@.sheep_turn(board@));
        }
        out
    }
}

/// The positions that differ from `state` in the dragon's cell alone: one
/// for each jump that the dragon can make, in the order of the jumps. No
/// sheep is eaten yet.
pub fn move_dragon_get_boards(board: &ChessBoard, state: &GameState) -> (r: Vec<GameState>)
    ensures
        r@.len() == board@.jump_list(state.dragon).len(),
        forall|i: int|
            0 <= i < r@.len() ==> (#[trigger] r@[i])@ == (StateView {
                sheep: state@.sheep,
                dragon: board@.jump_list(state.dragon)[i],
            }),
{
    let jumps = board.jumps_from(state.dragon);
    let mut out: Vec<GameState> = Vec::new();
    let mut i: usize = 0;
    while i < jumps.len()
        invariant
            i <= jumps@.len(),
            out@.len() == i,
            forall|k: int|
                0 <= k < i ==> (#[trigger] out@[k])@ == (StateView {
                    sheep: state@.sheep,
                    dragon: jumps@[k],
                }),
        decreases jumps@.len() - i,
    {
        out.push(GameState { sheep: state.sheep.clone(), dragon: jumps[i] });
        i += 1;
    }
    out
}

/// The positions after a whole turn from `state`: one sheep's step, or
/// none where every sheep is held up, and then one jump of the dragon with
/// what it eats.
pub fn successors(board: &ChessBoard, state: &GameState) -> (r: Vec<GameState>)
    ensures
        views(r@) == state@.successors(board@),
        state@.on_board(board@) ==> forall|i: int|
            0 <= i < r@.len() ==> (#[trigger] r@[i])@.on_board(board@),
        forall|i: int| 0 <= i < r@.len() ==> board@.in_bounds((#[trigger] r@[i]).dragon),
        board@.wf(),
{
    let mids = state.move_sheep_get_boards(board);
    let _ = board.height();
    let mut out: Vec<GameState> = Vec::new();
    let mut i: usize = 0;
    while i < mids.len()
        invariant
            i <= mids@.len(),
            board@.wf(),
            views(out@) == dragon_turns(board@, views(mids@).take(i as int)),
            state@.on_board(board@) ==> forall|m: int|
                0 <= m < mids@.len() ==> (#[trigger] mids@[m])@.on_board(board@),
            state@.on_board(board@) ==> forall|m: int|
                0 <= m < out@.len() ==> (#[trigger] out@[m])@.on_board(board@),
            forall|m: int| 0 <= m < out@.len() ==> board@.in_bounds((#[trigger] out@[m]).dragon),
        decreases mids@.len() - i,
    {
        let mut moved = move_dragon_get_boards(board, &mids[i]);
        let ghost jumps = board@.jump_list(mids@[i as int].dragon);
        let mut k: usize = 0;
        while k < moved.len()
            invariant
                k <= moved@.len(),
                i < mids@.len(),
                moved@.len() == jumps.len(),
                jumps == board@.jump_list(mids@[i as int].dragon),
                forall|m: int|
                    0 <= m < k ==> (#[trigger] moved@[m])@ == mids@[i as int]@.land(
                        board@,
                        jumps[m],
                    ),
                forall|m: int|
                    k <= m < moved@.len() ==> (#[trigger] moved@[m])@ == (StateView {
                        sheep: mids@[i as int]@.sheep,
                        dragon: jumps[m],
                    }),
            decreases moved@.len() - k,
        {
            moved[k].remove_sheep_current_dragon(board);
            k += 1;
        }
        proof {
            let before = views(mids@).take(i as int);
            let after = views(mids@).take(i + 1);
            assert(after.drop_last() =~= before);
            assert(after.last() == mids@[i as int]@);
            assert(views(moved@) =~= mids@[i as int]@.dragon_turn(board@));
            assert(views(out@ + moved@) =~= views(out@) + views(moved@));
            crate::board::lemma_jump_list(board@, mids@[i as int].dragon);
            assert forall|m: int| 0 <= m < (out@ + moved@).len() implies board@.in_bounds(
                (#[trigger] (out@ + moved@)[m]).dragon,
            ) by {
                if m >= out@.len() {
                    assert(moved@[m - out@.len()]@.dragon == jumps[m - out@.len()]);
                }
            }
            if state@.on_board(board@) {
                assert forall|m: int| 0 <= m < (out@ + moved@).len() implies (#[trigger] (out@
                    + moved@)[m])@.on_board(board@) by {
                    if m >= out@.len() {
                        assert(moved@[m - out@.len()]@ == mids@[i as int]@.land(
                            board@,
                            jumps[m - out@.len()],
                        ));
                    }
                }
            }
        }
        out.append(&mut moved);
        i += 1;
    }
    proof {
        assert(views(mids@).take(i as int) =~= views(mids@));
    }
    out
}

/// The position after the dragon has moved to `new_pos` and eaten the sheep
/// there, if the cell is not safe.
pub fn move_dragon_and_kill(board: &ChessBoard, state: GameState, new_pos: &Cell) -> (r: GameState)
    ensures
        r@ == state@.land(board@, *new_pos),
{
    let mut state = state;
    state.dragon = *new_pos;
    state.remove_sheep_current_dragon(board);
    state
}

/// The sheep that stand on a cell of `visited` that is not safe.
pub fn get_killed_sheep(visited: &CellSet, board: &ChessBoard, state: &GameState) -> (r: CellSet)
    ensures
        r@ == state@.sheep.intersect(visited@).difference(board@.safe),
        board@.wf(),
{
    state.sheep.intersection(visited).difference(board.safe())
}

} // verus!
