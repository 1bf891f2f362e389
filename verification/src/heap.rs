//! The capability contract shared by every heap in this crate: construct an
//! empty queue, insert, test for emptiness, peek at the minimum, extract the
//! minimum, and merge one queue into another in place.

use vstd::multiset::Multiset;
use vstd::prelude::*;

verus! {

/// `m` is a least element of the multiset `s`: it occurs in `s`, and no
/// element of `s` is smaller.
pub open spec fn is_min_of(m: i64, s: Multiset<i64>) -> bool {
    s.count(m) > 0 && (forall|x: i64| s.count(x) > 0 ==> m <= x)
}

/// Removing one occurrence of a present element shrinks a multiset by
/// exactly one.  Draining a queue of `n` values therefore takes exactly `n`
/// successful extractions, after which the queue is empty.
pub proof fn lemma_remove_present_len(s: Multiset<i64>, a: i64)
    requires
        s.count(a) > 0,
    ensures
        s.remove(a).len() + 1 == s.len(),
{
    assert(Multiset::singleton(a).subset_of(s)) by {
        assert forall|v: i64| Multiset::singleton(a).count(v) <= s.count(v) by {
            if v != a {
                assert(Multiset::singleton(a).count(v) == 0);
            }
        }
    }
    assert(s.remove(a).len() == s.len() - Multiset::singleton(a).len());
}

/// Minima drawn one after the other never decrease: repeatedly extracting
/// the minimum drains a queue in non-decreasing order.
pub proof fn lemma_minima_non_decreasing(s: Multiset<i64>, a: i64, b: i64)
    requires
        is_min_of(a, s),
        is_min_of(b, s.remove(a)),
    ensures
        a <= b,
{
    if a != b {
        assert(Multiset::singleton(a).count(b) == 0);
        assert(s.remove(a).count(b) == s.count(b));
        assert(s.count(b) > 0);
    }
}

/// Drain order.  Take any run of successful extractions: `states` are the
/// successive contents of a queue and each `vals[i]` is a least element of
/// `states[i]` whose removal produces `states[i + 1]` — exactly what
/// `remove_min` guarantees, whatever mixture of insertions and merges built
/// `states[0]`.  Then the extracted values come out in non-decreasing
/// order, and each extraction shrinks the contents by exactly one.
pub proof fn lemma_drain_non_decreasing(states: Seq<Multiset<i64>>, vals: Seq<i64>)
    requires
        states.len() == vals.len() + 1,
        forall|i: int| 0 <= i < vals.len() ==> is_min_of(#[trigger] vals[i], states[i]),
        forall|i: int|
            0 <= i < vals.len() ==> states[i + 1] == #[trigger] states[i].remove(vals[i]),
    ensures
        forall|i: int, j: int| 0 <= i <= j < vals.len() ==> vals[i] <= vals[j],
        states.last().len() + vals.len() == states.first().len(),
{
    assert forall|i: int, j: int| 0 <= i <= j < vals.len() implies vals[i] <= vals[j] by {
        lemma_drain_step(states, vals, i, j);
    }
    lemma_drain_len(states, vals);
}

proof fn lemma_drain_step(states: Seq<Multiset<i64>>, vals: Seq<i64>, i: int, j: int)
    requires
        states.len() == vals.len() + 1,
        forall|k: int| 0 <= k < vals.len() ==> is_min_of(#[trigger] vals[k], states[k]),
        forall|k: int|
            0 <= k < vals.len() ==> states[k + 1] == #[trigger] states[k].remove(vals[k]),
        0 <= i <= j < vals.len(),
    ensures
        vals[i] <= vals[j],
    decreases j - i,
{
    if i < j {
        lemma_drain_step(states, vals, i, j - 1);
        lemma_minima_non_decreasing(states[j - 1], vals[j - 1], vals[j]);
    }
}

proof fn lemma_drain_len(states: Seq<Multiset<i64>>, vals: Seq<i64>)
    requires
        states.len() == vals.len() + 1,
        forall|k: int| 0 <= k < vals.len() ==> is_min_of(#[trigger] vals[k], states[k]),
        forall|k: int|
            0 <= k < vals.len() ==> states[k + 1] == #[trigger] states[k].remove(vals[k]),
    ensures
        states.last().len() + vals.len() == states.first().len(),
    decreases vals.len(),
{
    if vals.len() > 0 {
        let n = vals.len() - 1;
        lemma_drain_len(states.drop_last(), vals.drop_last());
        lemma_remove_present_len(states[n], vals[n]);
        assert(states.last() == states[n].remove(vals[n]));
    }
}

/// A multiset has at most one least element, so any two implementations of
/// the capability extract identical value sequences from equal contents.
pub proof fn lemma_min_unique(s: Multiset<i64>, a: i64, b: i64)
    requires
        is_min_of(a, s),
        is_min_of(b, s),
    ensures
        a == b,
{
    assert(s.count(a) > 0);
    assert(s.count(b) > 0);
}

/// A min-priority queue of `i64` values that supports merging.
///
/// `mset` is the abstract contents, a multiset of the stored values; `wf` is
/// the implementation's internal invariant, established by `new` and
/// preserved by every operation.
pub trait Heap: Sized {
    /// The multiset of values currently stored.
    spec fn mset(&self) -> Multiset<i64>;

    /// The implementation's internal well-formedness invariant.
    spec fn wf(&self) -> bool;

    /// An empty queue.
    fn new() -> (h: Self)
        ensures
            h.wf(),
            h.mset() == Multiset::<i64>::empty(),
    ;

    /// Inserts one value; never fails.
    fn add(&mut self, v: i64)
        requires
            old(self).wf(),
        ensures
            final(self).wf(),
            final(self).mset() == old(self).mset().insert(v),
    ;

    /// True exactly when no values are stored.
    fn empty(&self) -> (r: bool)
        requires
            self.wf(),
        ensures
            r <==> self.mset().len() == 0,
    ;

    /// A copy of the least stored value, or `None` exactly when the queue is
    /// empty.  Does not mutate the queue.
    fn get_min(&self) -> (r: Option<i64>)
        requires
            self.wf(),
        ensures
            match r {
                Some(m) => is_min_of(m, self.mset()),
                None => self.mset().len() == 0,
            },
    ;

    /// Removes and returns the least stored value, or returns `None` exactly
    /// when the queue is empty (in which case the queue is unchanged).
    fn remove_min(&mut self) -> (r: Option<i64>)
        requires
            old(self).wf(),
        ensures
            final(self).wf(),
            match r {
                Some(m) => is_min_of(m, old(self).mset()) && final(self).mset()
                    == old(self).mset().remove(m),
                None => old(self).mset().len() == 0 && final(self).mset() == old(self).mset(),
            },
    ;

    /// Moves every value of `other` into `self` and leaves `other` empty:
    /// `self` ends up holding the multiset union of both operands.
    ///
    /// The provided implementation repeatedly extracts the minimum of
    /// `other` and inserts it into `self`, which is O(n log n); pairing and
    /// skew heaps override it with their asymptotically faster native melds.
    fn merge_in_place(&mut self, other: &mut Self)
        requires
            old(self).wf(),
            old(other).wf(),
        ensures
            final(self).wf(),
            final(other).wf(),
            final(self).mset() == old(self).mset().add(old(other).mset()),
            final(other).mset() == Multiset::<i64>::empty(),
    {
        loop
            invariant
                self.wf(),
                other.wf(),
                self.mset().add(other.mset()) == old(self).mset().add(old(other).mset()),
            ensures
                self.wf(),
                other.wf(),
                other.mset().len() == 0,
                self.mset().add(other.mset()) == old(self).mset().add(old(other).mset()),
            decreases other.mset().len(),
        {
            let ghost s_before = self.mset();
            let ghost o_before = other.mset();
            match other.remove_min() {
                Some(v) => {
                    self.add(v);
                    proof {
                        lemma_remove_present_len(o_before, v);
                        assert(self.mset().add(other.mset()) =~= s_before.add(o_before));
                    }
                },
                None => {
                    break ;
                },
            }
        }
        proof {
            vstd::multiset::lemma_multiset_empty_len::<i64>(other.mset());
            assert(other.mset() =~= Multiset::<i64>::empty());
            assert(self.mset().add(other.mset()) =~= self.mset());
        }
    }
}

} // verus!
