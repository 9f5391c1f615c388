//! Finite sets of board cells, held as a strictly increasing vector so that
//! equal sets have equal representations.

use vstd::prelude::*;

verus! {

/// A square of the board, as (row, column).
pub type Cell = (isize, isize);

/// Row-major order on cells: by row first, then by column.
pub open spec fn cell_lt(a: Cell, b: Cell) -> bool {
    a.0 < b.0 || (a.0 == b.0 && a.1 < b.1)
}

/// Every element of `q` is smaller than all the elements after it.
pub open spec fn increasing(q: Seq<Cell>) -> bool {
    forall|i: int, j: int| 0 <= i < j < q.len() ==> cell_lt(q[i], q[j])
}

/// The cells of `s` listed in increasing order. Meaningful for finite sets;
/// `lemma_in_order` says what it is on the set of an increasing sequence.
pub open spec fn in_order(s: Set<Cell>) -> Seq<Cell> {
    choose|q: Seq<Cell>| increasing(q) && q.to_set() == s
}

/// An increasing sequence never repeats a cell.
pub proof fn lemma_increasing_no_duplicates(q: Seq<Cell>)
    requires
        increasing(q),
    ensures
        q.no_duplicates(),
{
    assert forall|i: int, j: int| 0 <= i < q.len() && 0 <= j < q.len() && i != j implies q[i]
        != q[j] by {
        if i < j {
            assert(cell_lt(q[i], q[j]));
        } else {
            assert(cell_lt(q[j], q[i]));
        }
    }
}

/// Two increasing sequences that hold the same cells are the same sequence.
pub proof fn lemma_increasing_unique(a: Seq<Cell>, b: Seq<Cell>)
    requires
        increasing(a),
        increasing(b),
        a.to_set() == b.to_set(),
    ensures
        a == b,
    decreases a.len(),
{
    if a.len() == 0 {
        if b.len() > 0 {
            assert(b.contains(b[0]));
            assert(a.to_set().contains(b[0]));
        }
        assert(a =~= b);
    } else if b.len() == 0 {
        assert(a.contains(a[0]));
        assert(b.to_set().contains(a[0]));
    } else {
        let x = a.last();
        let y = b.last();
        assert(a.contains(x));
        assert(b.to_set().contains(x));
        assert(b.contains(y));
        assert(a.to_set().contains(y));
        let jx = choose|j: int| 0 <= j < b.len() && b[j] == x;
        let iy = choose|i: int| 0 <= i < a.len() && a[i] == y;
        assert(x == y) by {
            if jx < b.len() - 1 {
                assert(cell_lt(b[jx], b[b.len() - 1]));
            }
            if iy < a.len() - 1 {
                assert(cell_lt(a[iy], a[a.len() - 1]));
            }
        }
        let a0 = a.drop_last();
        let b0 = b.drop_last();
        assert forall|c: Cell| a0.to_set().contains(c) <==> b0.to_set().contains(c) by {
            if a0.contains(c) {
                let i = choose|i: int| 0 <= i < a0.len() && a0[i] == c;
                assert(cell_lt(a[i], a[a.len() - 1]));
                assert(a.contains(c));
                assert(b.to_set().contains(c));
                let j = choose|j: int| 0 <= j < b.len() && b[j] == c;
                assert(b0[j] == c);
            }
            if b0.contains(c) {
                let j = choose|j: int| 0 <= j < b0.len() && b0[j] == c;
                assert(cell_lt(b[j], b[b.len() - 1]));
                assert(b.contains(c));
                assert(a.to_set().contains(c));
                let i = choose|i: int| 0 <= i < a.len() && a[i] == c;
                assert(a0[i] == c);
            }
        }
        assert(a0.to_set() =~= b0.to_set());
        lemma_increasing_unique(a0, b0);
        assert(a =~= a0.push(x));
        assert(b =~= b0.push(y));
    }
}

/// An increasing sequence with `x` put in at its place.
proof fn lemma_with(q: Seq<Cell>, x: Cell) -> (r: Seq<Cell>)
    requires
        increasing(q),
        !q.contains(x),
    ensures
        increasing(r),
        r.to_set() == q.to_set().insert(x),
    decreases q.len(),
{
    if q.len() == 0 {
        let r = seq![x];
        assert(r.to_set() =~= q.to_set().insert(x)) by {
            assert(r[0] == x);
            assert forall|c: Cell| r.contains(c) implies c == x by {
                let k = choose|k: int| 0 <= k < r.len() && r[k] == c;
            }
        }
        r
    } else if cell_lt(q.last(), x) {
        let r = q.push(x);
        assert forall|i: int, j: int| 0 <= i < j < r.len() implies cell_lt(r[i], r[j]) by {
            if j == r.len() - 1 && i < q.len() - 1 {
                assert(cell_lt(q[i], q[q.len() - 1]));
            }
        }
        assert(r.to_set() =~= q.to_set().insert(x)) by {
            assert forall|c: Cell| r.to_set().contains(c) <==> q.to_set().insert(x).contains(
                c,
            ) by {
                if r.contains(c) {
                    let k = choose|k: int| 0 <= k < r.len() && r[k] == c;
                    if k < q.len() {
                        assert(q[k] == c);
                    }
                }
                if q.contains(c) {
                    let k = choose|k: int| 0 <= k < q.len() && q[k] == c;
                    assert(r[k] == c);
                }
                if c == x {
                    assert(r[r.len() - 1] == c);
                }
            }
        }
        r
    } else {
        let p = q.drop_last();
        let y = q.last();
        assert(!p.contains(x)) by {
            if p.contains(x) {
                let k = choose|k: int| 0 <= k < p.len() && p[k] == x;
                assert(q[k] == x);
            }
        }
        let r0 = lemma_with(p, x);
        let r = r0.push(y);
        assert(q.contains(y)) by {
            assert(q[q.len() - 1] == y);
        }
        assert(cell_lt(x, y));
        assert forall|i: int, j: int| 0 <= i < j < r.len() implies cell_lt(r[i], r[j]) by {
            if j == r.len() - 1 {
                assert(r0.contains(r0[i]));
                assert(p.to_set().insert(x).contains(r0[i]));
                if r0[i] != x {
                    assert(p.contains(r0[i]));
                    let k = choose|k: int| 0 <= k < p.len() && p[k] == r0[i];
                    assert(cell_lt(q[k], q[q.len() - 1]));
                }
            }
        }
        assert(r.to_set() =~= q.to_set().insert(x)) by {
            assert forall|c: Cell| r.to_set().contains(c) <==> q.to_set().insert(x).contains(
                c,
            ) by {
                if r.contains(c) {
                    let k = choose|k: int| 0 <= k < r.len() && r[k] == c;
                    if k < r0.len() {
                        assert(r0[k] == c);
                        assert(r0.contains(c));
                        assert(p.to_set().insert(x).contains(c));
                        if c != x {
                            assert(p.contains(c));
                            let m = choose|m: int| 0 <= m < p.len() && p[m] == c;
                            assert(q[m] == c);
                        }
                    }
                }
                if q.contains(c) {
                    let k = choose|k: int| 0 <= k < q.len() && q[k] == c;
                    if k < p.len() {
                        assert(p[k] == c);
                        assert(p.contains(c));
                        assert(r0.to_set().contains(c));
                        let m = choose|m: int| 0 <= m < r0.len() && r0[m] == c;
                        assert(r[m] == c);
                    } else {
                        assert(r[r.len() - 1] == c);
                    }
                }
                if c == x {
                    assert(r0.to_set().contains(x));
                    let m = choose|m: int| 0 <= m < r0.len() && r0[m] == x;
                    assert(r[m] == c);
                }
            }
        }
        r
    }
}

/// Every finite set of cells can be listed in increasing order, and
/// `in_order` is that list.
pub proof fn lemma_in_order_of(s: Set<Cell>)
    requires
        s.finite(),
    ensures
        increasing(in_order(s)),
        in_order(s).no_duplicates(),
        in_order(s).to_set() == s,
        in_order(s).len() == s.len(),
    decreases s.len(),
{
    if s.is_empty() {
        let q = Seq::<Cell>::empty();
        assert(q.to_set() =~= s);
        assert(increasing(q) && q.to_set() == s);
    } else {
        let x = s.choose();
        lemma_in_order_of(s.remove(x));
        let p = in_order(s.remove(x));
        let q = lemma_with(p, x);
        assert(s.remove(x).insert(x) =~= s);
        assert(increasing(q) && q.to_set() == s);
    }
    lemma_increasing_no_duplicates(in_order(s));
    in_order(s).unique_seq_to_set();
}

/// Listing the set of an increasing sequence in order gives the sequence back.
pub proof fn lemma_in_order(q: Seq<Cell>)
    requires
        increasing(q),
    ensures
        in_order(q.to_set()) == q,
{
    let s = q.to_set();
    let p = in_order(s);
    assert(increasing(q) && q.to_set() == s);
    lemma_increasing_unique(p, q);
}

/// The set of the first `i + 1` entries is the set of the first `i` with the
/// next entry added.
pub proof fn lemma_take_next(q: Seq<Cell>, i: int)
    requires
        0 <= i < q.len(),
    ensures
        q.take(i + 1).to_set() == q.take(i).to_set().insert(q[i]),
        q.take(i + 1) == q.take(i).push(q[i]),
{
    let before = q.take(i);
    let after = q.take(i + 1);
    assert(after =~= before.push(q[i]));
    assert forall|c: Cell| after.to_set().contains(c) <==> before.to_set().insert(q[i]).contains(
        c,
    ) by {
        if after.contains(c) {
            let k = choose|k: int| 0 <= k < after.len() && after[k] == c;
            if k < i {
                assert(before[k] == c);
            }
        }
        if before.contains(c) {
            let k = choose|k: int| 0 <= k < before.len() && before[k] == c;
            assert(after[k] == c);
        }
        if c == q[i] {
            assert(after[i] == c);
        }
    }
    assert(after.to_set() =~= before.to_set().insert(q[i]));
}

/// Whether `a` comes before `b` in row-major order.
pub fn cell_less(a: Cell, b: Cell) -> (r: bool)
    ensures
        r == cell_lt(a, b),
{
    a.0 < b.0 || (a.0 == b.0 && a.1 < b.1)
}

/// Putting `c` at a place where everything before is smaller and everything
/// after is larger keeps a sequence increasing and adds `c` to its set.
proof fn lemma_insert_keeps_order(q: Seq<Cell>, i: int, c: Cell)
    requires
        increasing(q),
        0 <= i <= q.len(),
        forall|k: int| 0 <= k < i ==> cell_lt(q[k], c),
        forall|k: int| i <= k < q.len() ==> cell_lt(c, q[k]),
    ensures
        increasing(q.insert(i, c)),
        q.insert(i, c).to_set() == q.to_set().insert(c),
{
    let r = q.insert(i, c);
    assert forall|a: int, b: int| 0 <= a < b < r.len() implies cell_lt(r[a], r[b]) by {
        let a0 = if a < i { a } else { a - 1 };
        let b0 = if b < i { b } else { b - 1 };
        if a != i && b != i {
            assert(cell_lt(q[a0], q[b0]));
        }
    }
    assert forall|x: Cell| r.to_set().contains(x) <==> q.to_set().insert(c).contains(x) by {
        if r.contains(x) {
            let k = choose|k: int| 0 <= k < r.len() && r[k] == x;
            if k < i {
                assert(q[k] == x);
                assert(q.contains(x));
            } else if k > i {
                assert(q[k - 1] == x);
                assert(q.contains(x));
            }
        }
        if q.contains(x) {
            let k = choose|k: int| 0 <= k < q.len() && q[k] == x;
            if k < i {
                assert(r[k] == x);
            } else {
                assert(r[k + 1] == x);
            }
            assert(r.contains(x));
        }
        if x == c {
            assert(r[i] == c);
            assert(r.contains(x));
        }
    }
    assert(r.to_set() =~= q.to_set().insert(c));
}

/// Taking one element out of an increasing sequence keeps it increasing and
/// removes that element from its set.
proof fn lemma_remove_keeps_order(q: Seq<Cell>, i: int)
    requires
        increasing(q),
        0 <= i < q.len(),
    ensures
        increasing(q.remove(i)),
        q.remove(i).to_set() == q.to_set().remove(q[i]),
{
    let r = q.remove(i);
    let c = q[i];
    assert forall|a: int, b: int| 0 <= a < b < r.len() implies cell_lt(r[a], r[b]) by {
        let a0 = if a < i { a } else { a + 1 };
        let b0 = if b < i { b } else { b + 1 };
        assert(cell_lt(q[a0], q[b0]));
    }
    assert forall|x: Cell| r.to_set().contains(x) <==> q.to_set().remove(c).contains(x) by {
        if r.contains(x) {
            let k = choose|k: int| 0 <= k < r.len() && r[k] == x;
            let k0 = if k < i { k } else { k + 1 };
            assert(q[k0] == x);
            assert(q.contains(x));
            if k0 < i {
                assert(cell_lt(q[k0], q[i]));
            } else {
                assert(cell_lt(q[i], q[k0]));
            }
        }
        if q.contains(x) && x != c {
            let k = choose|k: int| 0 <= k < q.len() && q[k] == x;
            if k < i {
                assert(r[k] == x);
            } else {
                assert(r[k - 1] == x);
            }
            assert(r.contains(x));
        }
    }
    assert(r.to_set() =~= q.to_set().remove(c));
}

/// A finite set of cells with one representation per set.
#[derive(Debug, PartialEq, Eq, Hash)]
pub struct CellSet {
    cells: Vec<Cell>,
}

impl View for CellSet {
    type V = Set<Cell>;

    closed spec fn view(&self) -> Set<Cell> {
        self.cells@.to_set()
    }
}

impl Clone for CellSet {
    fn clone(&self) -> (r: Self)
        ensures
            r@ == self@,
    {
        proof {
            use_type_invariant(self);
        }
        let mut cells: Vec<Cell> = Vec::new();
        let mut i: usize = 0;
        while i < self.cells.len()
            invariant
                i <= self.cells@.len(),
                cells@ == self.cells@.take(i as int),
            decreases self.cells@.len() - i,
        {
            cells.push(self.cells[i]);
            proof {
                assert(self.cells@.take(i + 1) =~= self.cells@.take(i as int).push(
                    self.cells@[i as int],
                ));
            }
            i += 1;
        }
        proof {
            assert(self.cells@.take(i as int) =~= self.cells@);
        }
        CellSet { cells }
    }
}

impl CellSet {
    #[verifier::type_invariant]
    spec fn kept_in_order(self) -> bool {
        increasing(self.cells@)
    }

    /// A `CellSet` holds finitely many cells.
    pub proof fn lemma_finite(self)
        ensures
            self@.finite(),
    {
        vstd::seq_lib::seq_to_set_is_finite(self.cells@);
    }

    /// The empty set.
    pub fn new() -> (r: CellSet)
        ensures
            r@ == Set::<Cell>::empty(),
    {
        let r = CellSet { cells: Vec::new() };
        assert(r.cells@.to_set() =~= Set::<Cell>::empty());
        r
    }

    /// The set of the cells that `v` lists, in whatever order and however
    /// often it lists them.
    pub fn from_vec(v: &Vec<Cell>) -> (r: CellSet)
        ensures
            r@ == v@.to_set(),
    {
        let mut out = CellSet::new();
        let mut i: usize = 0;
        while i < v.len()
            invariant
                i <= v@.len(),
                out@ == v@.take(i as int).to_set(),
            decreases v@.len() - i,
        {
            out.insert(v[i]);
            proof {
                lemma_take_next(v@, i as int);
            }
            i += 1;
        }
        proof {
            assert(v@.take(i as int) =~= v@);
        }
        out
    }

    /// The set as a vector of its cells in increasing order.
    pub fn into_vec(self) -> (r: Vec<Cell>)
        ensures
            r@ == in_order(self@),
            increasing(r@),
            r@.no_duplicates(),
            r@.to_set() == self@,
            r@.len() == self@.len(),
    {
        proof {
            use_type_invariant(&self);
            lemma_in_order(self.cells@);
            lemma_increasing_no_duplicates(self.cells@);
            self.cells@.unique_seq_to_set();
        }
        self.cells
    }

    /// Adds every cell of `other`.
    pub fn union_with(&mut self, other: &CellSet)
        ensures
            final(self)@ == old(self)@.union(other@),
    {
        let cells = other.cells();
        let mut i: usize = 0;
        while i < cells.len()
            invariant
                i <= cells@.len(),
                self@ == old(self)@.union(cells@.take(i as int).to_set()),
            decreases cells@.len() - i,
        {
            self.insert(cells[i]);
            proof {
                lemma_take_next(cells@, i as int);
                assert(self@ =~= old(self)@.union(cells@.take(i + 1).to_set()));
            }
            i += 1;
        }
        proof {
            assert(cells@.take(i as int) =~= cells@);
        }
    }

    /// The cells of this set that `other` does not hold.
    pub fn difference(&self, other: &CellSet) -> (r: CellSet)
        ensures
            r@ == self@.difference(other@),
    {
        let cells = self.cells();
        let mut out = CellSet::new();
        let mut i: usize = 0;
        while i < cells.len()
            invariant
                i <= cells@.len(),
                out@ == cells@.take(i as int).to_set().difference(other@),
            decreases cells@.len() - i,
        {
            if !other.contains(cells[i]) {
                out.insert(cells[i]);
            }
            proof {
                lemma_take_next(cells@, i as int);
                assert(out@ =~= cells@.take(i + 1).to_set().difference(other@));
            }
            i += 1;
        }
        proof {
            assert(cells@.take(i as int) =~= cells@);
        }
        out
    }

    /// The cells of this set that `other` holds too.
    pub fn intersection(&self, other: &CellSet) -> (r: CellSet)
        ensures
            r@ == self@.intersect(other@),
    {
        let cells = self.cells();
        let mut out = CellSet::new();
        let mut i: usize = 0;
        while i < cells.len()
            invariant
                i <= cells@.len(),
                out@ == cells@.take(i as int).to_set().intersect(other@),
            decreases cells@.len() - i,
        {
            if other.contains(cells[i]) {
                out.insert(cells[i]);
            }
            proof {
                lemma_take_next(cells@, i as int);
                assert(out@ =~= cells@.take(i + 1).to_set().intersect(other@));
            }
            i += 1;
        }
        proof {
            assert(cells@.take(i as int) =~= cells@);
        }
        out
    }

    /// Whether the two sets hold the same cells.
    pub fn same_as(&self, other: &CellSet) -> (r: bool)
        ensures
            r == (self@ == other@),
    {
        proof {
            use_type_invariant(self);
            use_type_invariant(other);
            if self@ == other@ {
                lemma_increasing_unique(self.cells@, other.cells@);
            }
        }
        if self.cells.len() != other.cells.len() {
            return false;
        }
        let mut i: usize = 0;
        while i < self.cells.len()
            invariant
                i <= self.cells@.len(),
                self.cells@.len() == other.cells@.len(),
                self@ == other@ ==> self.cells@ == other.cells@,
                forall|k: int| 0 <= k < i ==> self.cells@[k] == other.cells@[k],
            decreases self.cells@.len() - i,
        {
            let a = self.cells[i];
            let b = other.cells[i];
            if a.0 != b.0 || a.1 != b.1 {
                return false;
            }
            i += 1;
        }
        proof {
            assert(self.cells@ =~= other.cells@);
        }
        true
    }

    /// The cells in increasing order.
    pub fn cells(&self) -> (r: &Vec<Cell>)
        ensures
            r@ == in_order(self@),
            increasing(r@),
            r@.no_duplicates(),
            r@.to_set() == self@,
            self@.finite(),
            r@.len() == self@.len(),
    {
        proof {
            use_type_invariant(self);
            lemma_in_order(self.cells@);
            lemma_increasing_no_duplicates(self.cells@);
            self.cells@.unique_seq_to_set();
            vstd::seq_lib::seq_to_set_is_finite(self.cells@);
        }
        &self.cells
    }

    /// The number of cells in the set.
    pub fn len(&self) -> (r: usize)
        ensures
            r == self@.len(),
            self@.finite(),
    {
        self.cells().len()
    }

    /// Whether the set holds no cell.
    pub fn is_empty(&self) -> (r: bool)
        ensures
            r == self@.is_empty(),
            self@.finite(),
    {
        let v = self.cells();
        proof {
            if v@.len() > 0 {
                assert(v@.contains(v@[0]));
            } else {
                assert(self@ =~= Set::<Cell>::empty());
            }
        }
        v.len() == 0
    }

    /// The index of the first held cell that is not smaller than `c`.
    fn lower_bound(&self, c: Cell) -> (i: usize)
        ensures
            i <= self.cells@.len(),
            forall|k: int| 0 <= k < i ==> cell_lt(self.cells@[k], c),
            forall|k: int| i <= k < self.cells@.len() ==> !cell_lt(self.cells@[k], c),
    {
        proof {
            use_type_invariant(self);
        }
        let mut lo: usize = 0;
        let mut hi: usize = self.cells.len();
        while lo < hi
            invariant
                lo <= hi <= self.cells@.len(),
                increasing(self.cells@),
                forall|k: int| 0 <= k < lo ==> cell_lt(self.cells@[k], c),
                forall|k: int| hi <= k < self.cells@.len() ==> !cell_lt(self.cells@[k], c),
            decreases hi - lo,
        {
            let mid: usize = lo + (hi - lo) / 2;
            if cell_less(self.cells[mid], c) {
                proof {
                    assert forall|k: int| 0 <= k < mid + 1 implies cell_lt(self.cells@[k], c) by {
                        if k < mid {
                            assert(cell_lt(self.cells@[k], self.cells@[mid as int]));
                        }
                    }
                }
                lo = mid + 1;
            } else {
                proof {
                    assert forall|k: int| mid <= k < self.cells@.len() implies !cell_lt(
                        self.cells@[k],
                        c,
                    ) by {
                        if mid < k {
                            assert(cell_lt(self.cells@[mid as int], self.cells@[k]));
                        }
                    }
                }
                hi = mid;
            }
        }
        lo
    }

    /// Whether `c` is in the set.
    pub fn contains(&self, c: Cell) -> (r: bool)
        ensures
            r == self@.contains(c),
    {
        proof {
            use_type_invariant(self);
        }
        let i = self.lower_bound(c);
        if i < self.cells.len() {
            let found = self.cells[i];
            proof {
                if found == c {
                    assert(self.cells@.contains(c));
                } else if self.cells@.contains(c) {
                    let k = choose|k: int| 0 <= k < self.cells@.len() && self.cells@[k] == c;
                    if k > i {
                        assert(cell_lt(self.cells@[i as int], self.cells@[k]));
                    }
                }
            }
            found.0 == c.0 && found.1 == c.1
        } else {
            proof {
                if self.cells@.contains(c) {
                    let k = choose|k: int| 0 <= k < self.cells@.len() && self.cells@[k] == c;
                    assert(cell_lt(self.cells@[k], c));
                }
            }
            false
        }
    }

    /// Adds `c`; says whether it was new.
    pub fn insert(&mut self, c: Cell) -> (r: bool)
        ensures
            final(self)@ == old(self)@.insert(c),
            r == !old(self)@.contains(c),
    {
        proof {
            use_type_invariant(&*self);
        }
        let i = self.lower_bound(c);
        let present = i < self.cells.len() && self.cells[i].0 == c.0 && self.cells[i].1 == c.1;
        if present {
            proof {
                assert(self.cells@.contains(c));
                assert(self@.insert(c) =~= self@);
            }
            false
        } else {
            proof {
                assert forall|k: int| i <= k < self.cells@.len() implies cell_lt(
                    c,
                    self.cells@[k],
                ) by {
                    if k > i {
                        assert(cell_lt(self.cells@[i as int], self.cells@[k]));
                    }
                }
                assert(!self.cells@.contains(c)) by {
                    if self.cells@.contains(c) {
                        let k = choose|k: int| 0 <= k < self.cells@.len() && self.cells@[k] == c;
                        if k < i {
                            assert(cell_lt(self.cells@[k], c));
                        } else {
                            assert(cell_lt(c, self.cells@[k]));
                        }
                    }
                }
                lemma_insert_keeps_order(self.cells@, i as int, c);
            }
            let mut cells: Vec<Cell> = Vec::new();
            core::mem::swap(&mut cells, &mut self.cells);
            cells.insert(i, c);
            core::mem::swap(&mut cells, &mut self.cells);
            true
        }
    }

    /// Takes `c` out; says whether it was there.
    pub fn remove(&mut self, c: Cell) -> (r: bool)
        ensures
            final(self)@ == old(self)@.remove(c),
            r == old(self)@.contains(c),
    {
        proof {
            use_type_invariant(&*self);
        }
        let i = self.lower_bound(c);
        let present = i < self.cells.len() && self.cells[i].0 == c.0 && self.cells[i].1 == c.1;
        if present {
            proof {
                assert(self.cells@.contains(c));
                lemma_remove_keeps_order(self.cells@, i as int);
            }
            let mut cells: Vec<Cell> = Vec::new();
            core::mem::swap(&mut cells, &mut self.cells);
            cells.remove(i);
            core::mem::swap(&mut cells, &mut self.cells);
            true
        } else {
            proof {
                assert(!self.cells@.contains(c)) by {
                    if self.cells@.contains(c) {
                        let k = choose|k: int| 0 <= k < self.cells@.len() && self.cells@[k] == c;
                        if k < i {
                            assert(cell_lt(self.cells@[k], c));
                        } else if k > i {
                            assert(cell_lt(self.cells@[i as int], self.cells@[k]));
                        }
                    }
                }
                assert(self@.remove(c) =~= self@);
            }
            false
        }
    }
}

} // verus!
