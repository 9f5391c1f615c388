//! The board itself: its size, its safe cells, and where a knight's jump can
//! land on it.

use crate::cell_set::Cell;
use crate::cell_set::CellSet;
use vstd::prelude::*;

verus! {

/// What a board is, mathematically: its size and its set of safe cells.
pub struct BoardView {
    pub width: int,
    pub height: int,
    pub safe: Set<Cell>,
}

/// The eight knight offsets, as (rows, columns), in the order in which jumps
/// are listed.
pub open spec fn jump_offset(k: int) -> (int, int) {
    if k == 0 {
        (2, 1)
    } else if k == 1 {
        (2, -1)
    } else if k == 2 {
        (1, 2)
    } else if k == 3 {
        (1, -2)
    } else if k == 4 {
        (-1, 2)
    } else if k == 5 {
        (-1, -2)
    } else if k == 6 {
        (-2, 1)
    } else {
        (-2, -1)
    }
}

/// Whether `to` is a knight's jump away from `from`: two steps along one
/// axis and one along the other.
pub open spec fn is_jump(from: Cell, to: Cell) -> bool {
    let dr = to.0 - from.0;
    let dc = to.1 - from.1;
    ((dr == 2 || dr == -2) && (dc == 1 || dc == -1)) || ((dr == 1 || dr == -1) && (dc == 2 || dc
        == -2))
}

/// Whether `to` lies at the `k`-th knight offset from `from`.
pub open spec fn at_offset(from: Cell, to: Cell, k: int) -> bool {
    to.0 == from.0 + jump_offset(k).0 && to.1 == from.1 + jump_offset(k).1
}

impl BoardView {
    /// Whether `c` is a cell of the board.
    pub open spec fn in_bounds(self, c: Cell) -> bool {
        0 <= c.0 < self.height && 0 <= c.1 < self.width
    }

    /// A board has a size that is not negative and that a machine integer
    /// can hold, and finitely many safe cells, all of them on the board.
    pub open spec fn wf(self) -> bool {
        &&& 0 <= self.width <= isize::MAX
        &&& 0 <= self.height <= isize::MAX
        &&& self.safe.finite()
        &&& forall|c: Cell| self.safe.contains(c) ==> self.in_bounds(c)
    }

    /// The cells of the board that a knight standing on `from` can jump to.
    pub open spec fn jumps(self, from: Cell) -> Set<Cell> {
        Set::new(|c: Cell| self.in_bounds(c) && is_jump(from, c))
    }

    /// The jumps from `from` that use one of the first `n` offsets, in the
    /// order of the offsets.
    pub open spec fn jumps_among(self, from: Cell, n: nat) -> Seq<Cell>
        decreases n,
    {
        if n == 0 {
            Seq::empty()
        } else {
            let before = self.jumps_among(from, (n - 1) as nat);
            let d = jump_offset(n - 1);
            if 0 <= from.0 + d.0 < self.height && 0 <= from.1 + d.1 < self.width {
                before.push(((from.0 + d.0) as isize, (from.1 + d.1) as isize))
            } else {
                before
            }
        }
    }

    /// The jumps from `from`, in the order of the eight offsets.
    pub open spec fn jump_list(self, from: Cell) -> Seq<Cell> {
        self.jumps_among(from, 8)
    }
}

/// What `jumps_among` lists: each jump that uses one of the first `n`
/// offsets, once, and nothing else.
pub proof fn lemma_jumps_among(b: BoardView, from: Cell, n: nat)
    requires
        n <= 8,
        0 <= b.height <= isize::MAX,
        0 <= b.width <= isize::MAX,
    ensures
        b.jumps_among(from, n).len() <= n,
        b.jumps_among(from, n).no_duplicates(),
        forall|c: Cell|
            #[trigger] b.jumps_among(from, n).contains(c) <==> b.in_bounds(c) && exists|k: int|
                0 <= k < n && #[trigger] at_offset(from, c, k),
    decreases n,
{
    let q = b.jumps_among(from, n);
    if n == 0 {
        assert forall|c: Cell| q.contains(c) implies false by {}
    } else {
        let m = (n - 1) as nat;
        let p = b.jumps_among(from, m);
        lemma_jumps_among(b, from, m);
        let d = jump_offset(n - 1);
        let hit = 0 <= from.0 + d.0 < b.height && 0 <= from.1 + d.1 < b.width;
        let t: Cell = ((from.0 + d.0) as isize, (from.1 + d.1) as isize);
        if hit {
            assert(q == p.push(t));
            assert(!p.contains(t)) by {
                if p.contains(t) {
                    let k = choose|k: int| 0 <= k < m && #[trigger] at_offset(from, t, k);
                    assert(at_offset(from, t, n - 1));
                    assert(jump_offset(k).0 == jump_offset(n - 1).0);
                    assert(jump_offset(k).1 == jump_offset(n - 1).1);
                }
            }
            assert forall|i: int, j: int|
                0 <= i < q.len() && 0 <= j < q.len() && i != j implies q[i] != q[j] by {
                if i == q.len() - 1 {
                    assert(p[j] == q[j]);
                    assert(p.contains(q[j]));
                } else if j == q.len() - 1 {
                    assert(p[i] == q[i]);
                    assert(p.contains(q[i]));
                } else {
                    assert(p[i] == q[i] && p[j] == q[j]);
                }
            }
        }
        assert forall|c: Cell|
            q.contains(c) <==> b.in_bounds(c) && exists|k: int|
                0 <= k < n && #[trigger] at_offset(from, c, k) by {
            if q.contains(c) {
                let i = choose|i: int| 0 <= i < q.len() && q[i] == c;
                if hit && i == q.len() - 1 {
                    assert(at_offset(from, c, n - 1));
                } else {
                    assert(p[i] == c);
                    assert(p.contains(c));
                    let k = choose|k: int| 0 <= k < m && #[trigger] at_offset(from, c, k);
                    assert(0 <= k < n);
                }
            }
            if b.in_bounds(c) && exists|k: int| 0 <= k < n && #[trigger] at_offset(from, c, k) {
                let k = choose|k: int| 0 <= k < n && #[trigger] at_offset(from, c, k);
                if k == n - 1 {
                    assert(hit);
                    assert(c == t);
                    assert(q[q.len() - 1] == c);
                } else {
                    assert(p.contains(c));
                    let i = choose|i: int| 0 <= i < p.len() && p[i] == c;
                    assert(q[i] == c);
                }
            }
        }
    }
}

/// The jump list names each cell that can be jumped to once: at most eight
/// cells, all of them on the board.
pub proof fn lemma_jump_list(b: BoardView, from: Cell)
    requires
        0 <= b.height <= isize::MAX,
        0 <= b.width <= isize::MAX,
    ensures
        b.jump_list(from).len() <= 8,
        b.jump_list(from).no_duplicates(),
        b.jump_list(from).to_set() == b.jumps(from),
        b.jumps(from).finite(),
        forall|i: int| 0 <= i < b.jump_list(from).len() ==> b.in_bounds(b.jump_list(from)[i]),
{
    let q = b.jump_list(from);
    lemma_jumps_among(b, from, 8);
    assert forall|c: Cell| q.to_set().contains(c) <==> b.jumps(from).contains(c) by {
        if q.contains(c) {
            let k = choose|k: int| 0 <= k < 8 && #[trigger] at_offset(from, c, k);
            assert(is_jump(from, c));
        }
        if b.in_bounds(c) && is_jump(from, c) {
            let dr = c.0 - from.0;
            let dc = c.1 - from.1;
            let k: int = if dr == 2 {
                if dc == 1 {
                    0
                } else {
                    1
                }
            } else if dr == 1 {
                if dc == 2 {
                    2
                } else {
                    3
                }
            } else if dr == -1 {
                if dc == 2 {
                    4
                } else {
                    5
                }
            } else {
                if dc == 1 {
                    6
                } else {
                    7
                }
            };
            assert(at_offset(from, c, k));
        }
    }
    assert(q.to_set() =~= b.jumps(from));
    vstd::seq_lib::seq_to_set_is_finite(q);
    assert forall|i: int| 0 <= i < q.len() implies b.in_bounds(q[i]) by {
        assert(q.contains(q[i]));
    }
}

/// Whether `end` is a cell of a board that is `width` wide and `height`
/// high.
pub fn is_valid_move(end: &Cell, width: isize, height: isize) -> (r: bool)
    ensures
        r == (0 <= end.0 < height && 0 <= end.1 < width),
{
    end.0 >= 0 && end.0 < height && end.1 >= 0 && end.1 < width
}

/// The `k`-th knight offset.
fn offset(k: usize) -> (d: (isize, isize))
    requires
        k < 8,
    ensures
        d.0 == jump_offset(k as int).0,
        d.1 == jump_offset(k as int).1,
{
    if k == 0 {
        (2, 1)
    } else if k == 1 {
        (2, -1)
    } else if k == 2 {
        (1, 2)
    } else if k == 3 {
        (1, -2)
    } else if k == 4 {
        (-1, 2)
    } else if k == 5 {
        (-1, -2)
    } else if k == 6 {
        (-2, 1)
    } else {
        (-2, -1)
    }
}

/// `x + d` where that lies in `0..limit`.
fn shifted(x: isize, d: isize, limit: isize) -> (r: Option<isize>)
    ensures
        r == if 0 <= x + d < limit {
            Some((x + d) as isize)
        } else {
            None
        },
{
    match x.checked_add(d) {
        Some(t) => if 0 <= t && t < limit {
            Some(t)
        } else {
            None
        },
        None => None,
    }
}

/// A board: its size and its safe cells, on which no sheep can be eaten.
#[derive(Debug, PartialEq, Eq)]
pub struct ChessBoard {
    width: isize,
    height: isize,
    safe: CellSet,
}

impl View for ChessBoard {
    type V = BoardView;

    closed spec fn view(&self) -> BoardView {
        BoardView { width: self.width as int, height: self.height as int, safe: self.safe@ }
    }
}

impl ChessBoard {
    #[verifier::type_invariant]
    spec fn well_formed(self) -> bool {
        self@.wf()
    }

    /// The board of the given size with the given safe cells, if the size is
    /// not negative and every safe cell lies on the board.
    pub fn new(width: isize, height: isize, safe: CellSet) -> (r: Option<ChessBoard>)
        ensures
            r is Some <==> 0 <= width && 0 <= height && forall|c: Cell|
                safe@.contains(c) ==> 0 <= c.0 < height && 0 <= c.1 < width,
            r matches Some(b) ==> b@ == (BoardView {
                width: width as int,
                height: height as int,
                safe: safe@,
            }),
    {
        if width < 0 || height < 0 {
            return None;
        }
        let cells = safe.cells();
        let mut i: usize = 0;
        while i < cells.len()
            invariant
                i <= cells@.len(),
                cells@.to_set() == safe@,
                forall|k: int|
                    0 <= k < i ==> 0 <= (#[trigger] cells@[k]).0 < height && 0 <= cells@[k].1
                        < width,
            decreases cells@.len() - i,
        {
            if !is_valid_move(&cells[i], width, height) {
                proof {
                    assert(cells@.contains(cells@[i as int]));
                    assert(safe@.contains(cells@[i as int]));
                }
                return None;
            }
            i += 1;
        }
        proof {
            assert forall|c: Cell| safe@.contains(c) implies 0 <= c.0 < height && 0 <= c.1
                < width by {
                assert(cells@.contains(c));
                let k = choose|k: int| 0 <= k < cells@.len() && cells@[k] == c;
            }
        }
        Some(ChessBoard { width, height, safe })
    }

    /// The number of columns.
    pub fn width(&self) -> (r: isize)
        ensures
            r == self@.width,
            self@.wf(),
    {
        proof {
            use_type_invariant(self);
        }
        self.width
    }

    /// The number of rows.
    pub fn height(&self) -> (r: isize)
        ensures
            r == self@.height,
            self@.wf(),
    {
        proof {
            use_type_invariant(self);
        }
        self.height
    }

    /// The safe cells.
    pub fn safe(&self) -> (r: &CellSet)
        ensures
            r@ == self@.safe,
            self@.wf(),
    {
        proof {
            use_type_invariant(self);
        }
        &self.safe
    }

    /// Whether `c` is a cell of this board.
    pub fn is_valid_point(&self, c: Cell) -> (r: bool)
        ensures
            r == self@.in_bounds(c),
            self@.wf(),
    {
        proof {
            use_type_invariant(self);
        }
        is_valid_move(&c, self.width, self.height)
    }

    /// Whether `c` is a safe cell.
    pub fn is_safe(&self, c: Cell) -> (r: bool)
        ensures
            r == self@.safe.contains(c),
            self@.wf(),
    {
        proof {
            use_type_invariant(self);
        }
        self.safe.contains(c)
    }

    /// The cells of the board that a knight on `from` can jump to, in the
    /// order of the eight offsets: at most eight, no cell twice.
    pub fn jumps_from(&self, from: Cell) -> (r: Vec<Cell>)
        ensures
            r@ == self@.jump_list(from),
            r@.len() <= 8,
            r@.no_duplicates(),
            r@.to_set() == self@.jumps(from),
            forall|i: int| 0 <= i < r@.len() ==> self@.in_bounds(r@[i]),
            self@.wf(),
    {
        proof {
            use_type_invariant(self);
            lemma_jump_list(self@, from);
        }
        let mut out: Vec<Cell> = Vec::new();
        let mut k: usize = 0;
        while k < 8
            invariant
                k <= 8,
                out@ == self@.jumps_among(from, k as nat),
                self@.height == self.height,
                self@.width == self.width,
            decreases 8 - k,
        {
            let d = offset(k);
            let row = shifted(from.0, d.0, self.height);
            let col = shifted(from.1, d.1, self.width);
            match (row, col) {
                (Some(r), Some(c)) => {
                    out.push((r, c));
                },
                _ => {},
            }
            k += 1;
        }
        out
    }
}

} // verus!
