//! A table from positions to counts, so that a position reached along
//! several lines of play is searched once.

use crate::cell_set::in_order;
use crate::cell_set::Cell;
use crate::state::GameState;
use crate::state::StateView;
use vstd::prelude::*;

verus! {

/// The modulus that keeps a hash small enough to be mixed again.
pub const HASH_MODULUS: u64 = 1_000_003;

/// The factor by which a hash is spread before the next word is added.
pub const HASH_FACTOR: u64 = 1_000_033;

/// A coordinate as a word to be hashed.
pub open spec fn word(x: isize) -> u64 {
    x as u64
}

/// The hash `h` with the word `v` mixed in.
pub open spec fn mix(h: u64, v: u64) -> u64 {
    ((h % HASH_MODULUS) * HASH_FACTOR + (v % HASH_MODULUS)) as u64
}

/// The hash `h` with the cells of `q` mixed in, in their order.
pub open spec fn hash_cells(q: Seq<Cell>, h: u64) -> u64
    decreases q.len(),
{
    if q.len() == 0 {
        h
    } else {
        mix(mix(hash_cells(q.drop_last(), h), word(q.last().0)), word(q.last().1))
    }
}

/// The hash of a position: of the dragon's cell and then of the sheep in
/// increasing order, so that equal positions have equal hashes.
pub open spec fn hash_of(s: StateView) -> u64 {
    hash_cells(in_order(s.sheep), mix(word(s.dragon.0), word(s.dragon.1)))
}

/// The bucket, of `n`, in which a position is kept.
pub open spec fn slot(s: StateView, n: nat) -> int {
    (hash_of(s) as int) % (n as int)
}

/// What a bucket says: for each position the count of its last entry.
pub open spec fn entries_map(q: Seq<(GameState, u64)>) -> Map<StateView, u64>
    decreases q.len(),
{
    if q.len() == 0 {
        Map::empty()
    } else {
        entries_map(q.drop_last()).insert(q.last().0@, q.last().1)
    }
}

fn word_of(x: isize) -> (r: u64)
    ensures
        r == word(x),
{
    #[verifier::truncate]
    (x as u64)
}

fn mixed(h: u64, v: u64) -> (r: u64)
    ensures
        r == mix(h, v),
{
    (h % HASH_MODULUS) * HASH_FACTOR + (v % HASH_MODULUS)
}

/// The hash of `state`.
pub fn state_hash(state: &GameState) -> (r: u64)
    ensures
        r == hash_of(state@),
{
    let cells = state.sheep.cells();
    let mut h = mixed(word_of(state.dragon.0), word_of(state.dragon.1));
    let ghost h0 = h;
    let mut i: usize = 0;
    while i < cells.len()
        invariant
            i <= cells@.len(),
            h == hash_cells(cells@.take(i as int), h0),
        decreases cells@.len() - i,
    {
        proof {
            assert(cells@.take(i + 1).drop_last() =~= cells@.take(i as int));
        }
        h = mixed(mixed(h, word_of(cells[i].0)), word_of(cells[i].1));
        i += 1;
    }
    proof {
        assert(cells@.take(i as int) =~= cells@);
    }
    h
}

/// A table from positions to counts.
pub struct MemoTable {
    buckets: Vec<Vec<(GameState, u64)>>,
}

impl View for MemoTable {
    type V = Map<StateView, u64>;

    closed spec fn view(&self) -> Map<StateView, u64> {
        let n = self.buckets@.len();
        Map::new(
            |s: StateView| n > 0 && entries_map(self.buckets@[slot(s, n)]@).contains_key(s),
            |s: StateView| entries_map(self.buckets@[slot(s, n)]@)[s],
        )
    }
}

impl MemoTable {
    /// The number of buckets over which the table spreads its positions;
    /// `slot` says which of them holds a position.
    pub closed spec fn bucket_count(&self) -> nat {
        self.buckets@.len()
    }

    /// An empty table with the given number of buckets.
    pub fn new(buckets: usize) -> (r: MemoTable)
        ensures
            r@ == Map::<StateView, u64>::empty(),
            r.bucket_count() == buckets,
    {
        let mut all: Vec<Vec<(GameState, u64)>> = Vec::new();
        let mut i: usize = 0;
        while i < buckets
            invariant
                i <= buckets,
                all@.len() == i,
                forall|k: int| 0 <= k < i ==> (#[trigger] all@[k])@.len() == 0,
            decreases buckets - i,
        {
            all.push(Vec::new());
            i += 1;
        }
        let r = MemoTable { buckets: all };
        proof {
            assert(r@ =~= Map::<StateView, u64>::empty());
        }
        r
    }

    /// The number of buckets.
    pub fn buckets(&self) -> (r: usize)
        ensures
            r == self.bucket_count(),
    {
        self.buckets.len()
    }

    /// The index of the bucket for `key`.
    fn slot_of(&self, key: &GameState) -> (r: usize)
        requires
            self.buckets@.len() > 0,
        ensures
            r == slot(key@, self.buckets@.len()),
            r < self.buckets@.len(),
    {
        let n = self.buckets.len();
        let h = state_hash(key);
        (h % (n as u64)) as usize
    }

    /// The count kept for `key`, if one is.
    pub fn get(&self, key: &GameState) -> (r: Option<u64>)
        ensures
            r == if self@.contains_key(key@) {
                Some(self@[key@])
            } else {
                None
            },
    {
        if self.buckets.len() == 0 {
            return None;
        }
        let idx = self.slot_of(key);
        let bucket = &self.buckets[idx];
        let mut i: usize = bucket.len();
        proof {
            assert(bucket@.take(i as int) =~= bucket@);
        }
        while i > 0
            invariant
                i <= bucket@.len(),
                self.buckets@.len() > 0,
                idx == slot(key@, self.buckets@.len()),
                bucket@ == self.buckets@[idx as int]@,
                entries_map(bucket@).contains_key(key@) == entries_map(
                    bucket@.take(i as int),
                ).contains_key(key@),
                entries_map(bucket@).contains_key(key@) ==> entries_map(bucket@)[key@]
                    == entries_map(bucket@.take(i as int))[key@],
            decreases i,
        {
            proof {
                assert(bucket@.take(i as int).drop_last() =~= bucket@.take(i - 1));
            }
            if bucket[i - 1].0.same_as(key) {
                return Some(bucket[i - 1].1);
            }
            i -= 1;
        }
        proof {
            assert(bucket@.take(0) =~= Seq::<(GameState, u64)>::empty());
        }
        None
    }

    /// Keeps `value` as the count for `key`. The table keeps the buckets
    /// that it has; one that has none gets its first.
    pub fn insert(&mut self, key: GameState, value: u64)
        ensures
            final(self)@ == old(self)@.insert(key@, value),
            final(self).bucket_count() == if old(self).bucket_count() == 0 {
                1nat
            } else {
                old(self).bucket_count()
            },
    {
        if self.buckets.len() == 0 {
            self.buckets.push(Vec::new());
            proof {
                assert(self@ =~= old(self)@);
            }
        }
        let idx = self.slot_of(&key);
        let ghost before = self.buckets@;
        let ghost seen = self@;
        self.buckets[idx].push((key, value));
        proof {
            let n = before.len();
            assert(self.buckets@.len() == n);
            assert(self.buckets@[idx as int]@.drop_last() =~= before[idx as int]@);
            assert forall|s: StateView| slot(s, n) != idx implies self.buckets@[slot(s, n)]
                == before[slot(s, n)] by {
                assert(0 <= slot(s, n) < n);
            }
            assert(self@ =~= seen.insert(key@, value));
        }
    }
}

} // verus!
