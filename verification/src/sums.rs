//! Sums of a natural-number valued function over a finite set and over a
//! sequence, and the facts that let one stand for the other.

use vstd::prelude::*;

verus! {

/// The sum of `f` over the elements of the finite set `s`.
pub open spec fn sum_over<A>(s: Set<A>, f: spec_fn(A) -> nat) -> nat {
    s.fold(0nat, |acc: nat, x: A| acc + f(x))
}

/// The sum of `f` over the entries of `q`, each entry counted once per
/// occurrence.
pub open spec fn sum_seq<A>(q: Seq<A>, f: spec_fn(A) -> nat) -> nat
    decreases q.len(),
{
    if q.len() == 0 {
        0
    } else {
        sum_seq(q.drop_last(), f) + f(q.last())
    }
}

/// The sum over no elements is zero.
pub proof fn lemma_sum_over_empty<A>(f: spec_fn(A) -> nat)
    ensures
        sum_over(Set::<A>::empty(), f) == 0,
{
    vstd::set::fold::lemma_fold_empty(0nat, |acc: nat, x: A| acc + f(x));
}

/// A new element adds its term to the sum.
pub proof fn lemma_sum_over_insert<A>(s: Set<A>, f: spec_fn(A) -> nat, x: A)
    requires
        s.finite(),
        !s.contains(x),
    ensures
        sum_over(s.insert(x), f) == sum_over(s, f) + f(x),
{
    let g = |acc: nat, x: A| acc + f(x);
    assert(vstd::set::fold::is_fun_commutative(g));
    vstd::set::fold::lemma_fold_insert(s, 0nat, g, x);
}

/// The sum is the term of any one element and the sum over the others.
pub proof fn lemma_sum_over_remove<A>(s: Set<A>, f: spec_fn(A) -> nat, x: A)
    requires
        s.finite(),
        s.contains(x),
    ensures
        sum_over(s, f) == sum_over(s.remove(x), f) + f(x),
{
    lemma_sum_over_insert(s.remove(x), f, x);
    assert(s.remove(x).insert(x) =~= s);
}

/// Summing over a sequence without repeats is summing over its set.
pub proof fn lemma_sum_seq_over<A>(q: Seq<A>, f: spec_fn(A) -> nat)
    requires
        q.no_duplicates(),
    ensures
        sum_seq(q, f) == sum_over(q.to_set(), f),
    decreases q.len(),
{
    if q.len() == 0 {
        assert(q.to_set() =~= Set::<A>::empty());
        lemma_sum_over_empty(f);
    } else {
        let p = q.drop_last();
        let x = q.last();
        lemma_sum_seq_over(p, f);
        vstd::seq_lib::seq_to_set_is_finite(p);
        assert(!p.to_set().contains(x)) by {
            if p.contains(x) {
                let i = choose|i: int| 0 <= i < p.len() && p[i] == x;
                assert(q[i] == q[q.len() - 1]);
            }
        }
        assert(p.to_set().insert(x) =~= q.to_set()) by {
            assert forall|y: A| p.to_set().insert(x).contains(y) <==> q.to_set().contains(
                y,
            ) by {
                if p.contains(y) {
                    let i = choose|i: int| 0 <= i < p.len() && p[i] == y;
                    assert(q[i] == y);
                }
                if q.contains(y) {
                    let i = choose|i: int| 0 <= i < q.len() && q[i] == y;
                    if i < q.len() - 1 {
                        assert(p[i] == y);
                    }
                }
                if y == x {
                    assert(q[q.len() - 1] == y);
                }
            }
        }
        lemma_sum_over_insert(p.to_set(), f, x);
    }
}

/// Two functions that agree on a finite set have the same sum over it.
pub proof fn lemma_sum_over_agree<A>(s: Set<A>, f: spec_fn(A) -> nat, g: spec_fn(A) -> nat)
    requires
        s.finite(),
        forall|x: A| s.contains(x) ==> f(x) == g(x),
    ensures
        sum_over(s, f) == sum_over(s, g),
    decreases s.len(),
{
    if s.is_empty() {
        assert(s =~= Set::<A>::empty());
        lemma_sum_over_empty(f);
        lemma_sum_over_empty(g);
    } else {
        let x = s.choose();
        lemma_sum_over_remove(s, f, x);
        lemma_sum_over_remove(s, g, x);
        lemma_sum_over_agree(s.remove(x), f, g);
    }
}

/// Two functions that agree on the entries of a sequence have the same sum
/// over it.
pub proof fn lemma_sum_seq_agree<A>(q: Seq<A>, f: spec_fn(A) -> nat, g: spec_fn(A) -> nat)
    requires
        forall|i: int| 0 <= i < q.len() ==> f(q[i]) == g(q[i]),
    ensures
        sum_seq(q, f) == sum_seq(q, g),
    decreases q.len(),
{
    if q.len() > 0 {
        lemma_sum_seq_agree(q.drop_last(), f, g);
    }
}

/// Two sequences whose entries have, place by place, the same terms have the
/// same sum.
pub proof fn lemma_sum_seq_alike<A, B>(
    p: Seq<A>,
    f: spec_fn(A) -> nat,
    q: Seq<B>,
    g: spec_fn(B) -> nat,
)
    requires
        p.len() == q.len(),
        forall|i: int| 0 <= i < p.len() ==> f(p[i]) == g(q[i]),
    ensures
        sum_seq(p, f) == sum_seq(q, g),
    decreases p.len(),
{
    if p.len() > 0 {
        lemma_sum_seq_alike(p.drop_last(), f, q.drop_last(), g);
    }
}

/// Taking one more entry adds that entry's term.
pub proof fn lemma_sum_seq_step<A>(q: Seq<A>, f: spec_fn(A) -> nat, i: int)
    requires
        0 <= i < q.len(),
    ensures
        sum_seq(q.take(i + 1), f) == sum_seq(q.take(i), f) + f(q[i]),
{
    assert(q.take(i + 1).drop_last() =~= q.take(i));
}

/// The sum over two sequences joined is the sum of their sums.
pub proof fn lemma_sum_seq_concat<A>(p: Seq<A>, q: Seq<A>, f: spec_fn(A) -> nat)
    ensures
        sum_seq(p + q, f) == sum_seq(p, f) + sum_seq(q, f),
    decreases q.len(),
{
    if q.len() == 0 {
        assert(p + q =~= p);
    } else {
        assert((p + q).drop_last() =~= p + q.drop_last());
        lemma_sum_seq_concat(p, q.drop_last(), f);
    }
}

/// A sum over the first entries is at most the sum over all of them.
pub proof fn lemma_sum_seq_prefix<A>(q: Seq<A>, f: spec_fn(A) -> nat, i: int)
    requires
        0 <= i <= q.len(),
    ensures
        sum_seq(q.take(i), f) <= sum_seq(q, f),
    decreases q.len() - i,
{
    if i == q.len() {
        assert(q.take(i) =~= q);
    } else {
        lemma_sum_seq_step(q, f, i);
        lemma_sum_seq_prefix(q, f, i + 1);
    }
}

/// Summation does not depend on the order of the entries: two sequences
/// without repeats that hold the same elements have the same sum.
pub proof fn lemma_sum_seq_any_order<A>(p: Seq<A>, q: Seq<A>, f: spec_fn(A) -> nat)
    requires
        p.no_duplicates(),
        q.no_duplicates(),
        p.to_set() == q.to_set(),
    ensures
        sum_seq(p, f) == sum_seq(q, f),
{
    lemma_sum_seq_over(p, f);
    lemma_sum_seq_over(q, f);
}

} // verus!
