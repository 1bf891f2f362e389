//! A dense-array binary min-heap.
//!
//! The backing vector is logically 1-indexed: index 0 holds an unused
//! sentinel so that `i / 2`, `i * 2` and `i * 2 + 1` map a node to its
//! parent and children without branching.  Insertion appends at the first
//! free slot and sifts up; extraction swaps the last element into the root
//! slot, truncates, and sifts down.  There is no native meld: merging falls
//! back to the capability's repeated extract-and-insert.

use crate::heap::{is_min_of, Heap};
use vstd::multiset::Multiset;
use vstd::prelude::*;

verus! {

broadcast use vstd::seq_lib::group_to_multiset_ensures;

/// Min-heap order over the 1-indexed buffer: every occupied index `i >= 2`
/// holds a value no smaller than its parent's.
pub open spec fn heap_ordered(s: Seq<i64>) -> bool {
    forall|i: int| 2 <= i < s.len() ==> #[trigger] s[i] >= s[i / 2]
}

/// Heap order everywhere except possibly on the edge from `idx`'s parent
/// into `idx`, strengthened by the bridge that `idx`'s parent already bounds
/// `idx`'s children.  This is what sift-up preserves while it walks to the
/// root.
spec fn up_heap_except(s: Seq<i64>, idx: int) -> bool {
    &&& (forall|i: int| 2 <= i < s.len() && i != idx ==> #[trigger] s[i] >= s[i / 2])
    &&& (1 < idx ==> forall|i: int| 2 <= i < s.len() && i / 2 == idx ==> #[trigger] s[i] >= s[
        idx / 2])
}

/// Heap order everywhere except possibly on the edges from `idx` into its
/// children, strengthened by the bridge that `idx`'s parent already bounds
/// `idx`'s children.  This is what sift-down preserves while it descends.
spec fn down_heap_except(s: Seq<i64>, idx: int) -> bool {
    &&& (forall|i: int| 2 <= i < s.len() && i / 2 != idx ==> #[trigger] s[i] >= s[i / 2])
    &&& (1 < idx ==> forall|i: int| 2 <= i < s.len() && i / 2 == idx ==> #[trigger] s[i] >= s[
        idx / 2])
}

/// In a heap-ordered buffer the root (index 1) bounds every occupied slot.
proof fn lemma_root_min(s: Seq<i64>, i: int)
    requires
        heap_ordered(s),
        1 <= i < s.len(),
    ensures
        s[1] <= s[i],
    decreases i,
{
    if i >= 2 {
        lemma_root_min(s, i / 2);
    }
}

/// Exchanging two slots of a sequence leaves its multiset of elements
/// unchanged.
proof fn lemma_swap_to_multiset(s: Seq<i64>, i: int, j: int)
    requires
        0 <= i < s.len(),
        0 <= j < s.len(),
        i != j,
    ensures
        s.update(i, s[j]).update(j, s[i]).to_multiset() == s.to_multiset(),
{
    let s1 = s.update(i, s[j]);
    assert(s.contains(s[i]));
    assert(s.contains(s[j]));
    assert(s1[j] == s[j]);
    assert(s1.update(j, s[i]).to_multiset() == s1.to_multiset().insert(s[i]).remove(s[j]));
    assert(s1.to_multiset() == s.to_multiset().insert(s[j]).remove(s[i]));
    assert(s.to_multiset().insert(s[j]).remove(s[i]).insert(s[i]).remove(s[j])
        =~= s.to_multiset());
}

pub struct BinaryHeap {
    buffer: Vec<i64>,
}

impl BinaryHeap {
    /// A fresh, empty heap: the buffer holds only the index-0 sentinel.
    pub fn new() -> (h: Self)
        ensures
            h.wf(),
            h.mset() == Multiset::<i64>::empty(),
    {
        let mut buffer: Vec<i64> = Vec::new();
        buffer.push(0);
        let h = BinaryHeap { buffer };
        proof {
            assert(h.buffer@.skip(1) =~= Seq::<i64>::empty());
            vstd::multiset::lemma_multiset_empty_len::<i64>(h.mset());
        }
        h
    }

    /// The number of stored values (the sentinel does not count).
    fn size(&self) -> (n: usize)
        requires
            self.buffer@.len() >= 1,
        ensures
            n == self.buffer@.len() - 1,
    {
        self.buffer.len() - 1
    }

    /// Exchanges the values at two occupied slots.
    fn swap_slots(&mut self, i: usize, j: usize)
        requires
            1 <= i < old(self).buffer@.len(),
            1 <= j < old(self).buffer@.len(),
            i != j,
        ensures
            final(self).buffer@ == old(self).buffer@.update(i as int, old(self).buffer@[j as int])
                .update(j as int, old(self).buffer@[i as int]),
            final(self).buffer@.skip(1).to_multiset() == old(self).buffer@.skip(1).to_multiset(),
            final(self).buffer@.len() == old(self).buffer@.len(),
    {
        let a = self.buffer[i];
        let b = self.buffer[j];
        self.buffer[i] = b;
        self.buffer[j] = a;
        proof {
            let s = old(self).buffer@;
            lemma_swap_to_multiset(s.skip(1), i - 1, j - 1);
            assert(self.buffer@.skip(1) =~= s.skip(1).update(i - 1, s[j as int]).update(
                j - 1,
                s[i as int],
            ));
        }
    }

    /// Sift-up: while the index is above the root and its parent holds a
    /// greater value, exchange the two and continue at the parent.
    fn upheap(&mut self, idx: usize)
        requires
            1 <= idx < old(self).buffer@.len(),
            up_heap_except(old(self).buffer@, idx as int),
        ensures
            final(self).buffer@.len() == old(self).buffer@.len(),
            heap_ordered(final(self).buffer@),
            final(self).buffer@.skip(1).to_multiset() == old(self).buffer@.skip(1).to_multiset(),
    {
        let mut i = idx;
        loop
            invariant
                1 <= i < self.buffer@.len(),
                self.buffer@.len() == old(self).buffer@.len(),
                up_heap_except(self.buffer@, i as int),
                self.buffer@.skip(1).to_multiset() == old(self).buffer@.skip(1).to_multiset(),
            ensures
                self.buffer@.len() == old(self).buffer@.len(),
                heap_ordered(self.buffer@),
                self.buffer@.skip(1).to_multiset() == old(self).buffer@.skip(1).to_multiset(),
            decreases i,
        {
            if i <= 1 {
                break ;
            }
            let p = i / 2;
            if self.buffer[p] > self.buffer[i] {
                let ghost s = self.buffer@;
                self.swap_slots(i, p);
                proof {
                    let t = self.buffer@;
                    let ii = i as int;
                    let pp = p as int;
                    assert forall|k: int| 2 <= k < t.len() && k != pp implies #[trigger] t[k]
                        >= t[k / 2] by {
                        if k == ii {
                            assert(t[ii] == s[pp] && t[pp] == s[ii]);
                        } else if k / 2 == ii {
                            assert(s[k] >= s[pp]);
                        } else if k / 2 == pp {
                            assert(s[k] >= s[k / 2]);
                            assert(t[pp] == s[ii] && s[ii] < s[pp] && s[k] >= s[pp]);
                        } else {
                            assert(t[k] == s[k] && t[k / 2] == s[k / 2]);
                            assert(s[k] >= s[k / 2]);
                        }
                    }
                    if 1 < pp {
                        assert forall|k: int| 2 <= k < t.len() && k / 2 == pp implies #[trigger] t[k]
                            >= t[pp / 2] by {
                            assert(t[pp / 2] == s[pp / 2]);
                            assert(s[pp] >= s[pp / 2]);
                            if k == ii {
                                assert(t[k] == s[pp]);
                            } else {
                                assert(t[k] == s[k]);
                                assert(s[k] >= s[pp]);
                            }
                        }
                    }
                }
                i = p;
            } else {
                break ;
            }
        }
    }

    /// Sift-down: descend to the smaller child while it holds a smaller
    /// value than the current node, preferring the right child only when it
    /// beats both the left child and the current node.
    fn downheap(&mut self, idx: usize)
        requires
            1 <= idx,
            old(self).buffer@.len() >= 1,
            down_heap_except(old(self).buffer@, idx as int),
        ensures
            final(self).buffer@.len() == old(self).buffer@.len(),
            heap_ordered(final(self).buffer@),
            final(self).buffer@.skip(1).to_multiset() == old(self).buffer@.skip(1).to_multiset(),
    {
        let mut i = idx;
        loop
            invariant
                1 <= i,
                self.buffer@.len() == old(self).buffer@.len() && self.buffer@.len() >= 1,
                down_heap_except(self.buffer@, i as int),
                self.buffer@.skip(1).to_multiset() == old(self).buffer@.skip(1).to_multiset(),
            ensures
                self.buffer@.len() == old(self).buffer@.len(),
                heap_ordered(self.buffer@),
                self.buffer@.skip(1).to_multiset() == old(self).buffer@.skip(1).to_multiset(),
            decreases self.buffer@.len() - i,
        {
            let n = self.size();
            if i > n / 2 {
                proof {
                    assert forall|k: int| 2 <= k < self.buffer@.len() implies #[trigger] self
                        .buffer@[k] >= self.buffer@[k / 2] by {
                        assert(k / 2 <= n / 2 < i);
                    }
                }
                break ;
            }
            let l = i * 2;
            let r = l + 1;
            let descend_right = r <= n && self.buffer[r] < self.buffer[l] && self.buffer[r]
                < self.buffer[i];
            if descend_right {
                let ghost s = self.buffer@;
                self.swap_slots(r, i);
                proof {
                    self.lemma_after_down_swap(s, i as int, r as int);
                }
                i = r;
            } else if self.buffer[l] < self.buffer[i] {
                let ghost s = self.buffer@;
                proof {
                    if r <= n {
                        assert(s[r as int] >= s[l as int]);
                    }
                }
                self.swap_slots(l, i);
                proof {
                    self.lemma_after_down_swap(s, i as int, l as int);
                }
                i = l;
            } else {
                proof {
                    let s = self.buffer@;
                    let ii = i as int;
                    assert forall|k: int| 2 <= k < s.len() implies #[trigger] s[k] >= s[k / 2] by {
                        if k / 2 == ii {
                            assert(k == l || k == r);
                            assert(s[l as int] >= s[ii]);
                            if k == r as int {
                                assert(s[r as int] >= s[ii]);
                            }
                        }
                    }
                }
                break ;
            }
        }
    }

    /// After exchanging `idx` with its smaller child `c`, sift-down's
    /// invariant holds at `c`.
    proof fn lemma_after_down_swap(&self, s: Seq<i64>, idx: int, c: int)
        requires
            1 <= idx < s.len(),
            c == 2 * idx || c == 2 * idx + 1,
            c < s.len(),
            down_heap_except(s, idx),
            s[c] < s[idx],
            c == 2 * idx + 1 ==> s[c] < s[2 * idx],
            c == 2 * idx && 2 * idx + 1 < s.len() ==> s[2 * idx + 1] >= s[c],
            self.buffer@ == s.update(c, s[idx]).update(idx, s[c]),
        ensures
            down_heap_except(self.buffer@, c),
    {
        let t = self.buffer@;
        assert forall|k: int| 2 <= k < t.len() && k / 2 != c implies #[trigger] t[k] >= t[k
            / 2] by {
            if k == c {
                assert(t[c] == s[idx] && t[idx] == s[c]);
            } else if k / 2 == idx {
                assert(k == 2 * idx || k == 2 * idx + 1);
                assert(t[k] == s[k]);
                assert(t[idx] == s[c]);
                if k == 2 * idx && c == 2 * idx + 1 {
                    assert(s[k] >= s[c]);
                } else if k == 2 * idx + 1 && c == 2 * idx {
                    assert(s[k] >= s[c]);
                }
            } else if k == idx {
                assert(1 < idx);
                assert(t[idx] == s[c] && t[idx / 2] == s[idx / 2]);
                assert(s[c] >= s[idx / 2]);
            } else {
                assert(t[k] == s[k] && t[k / 2] == s[k / 2]);
                assert(s[k] >= s[k / 2]);
            }
        }
        assert(1 < c);
        assert forall|k: int| 2 <= k < t.len() && k / 2 == c implies #[trigger] t[k] >= t[c
            / 2] by {
            assert(c / 2 == idx);
            assert(t[c / 2] == s[c]);
            assert(t[k] == s[k]);
            assert(s[k] >= s[k / 2]);
        }
    }
}

impl Heap for BinaryHeap {
    closed spec fn mset(&self) -> Multiset<i64> {
        self.buffer@.skip(1).to_multiset()
    }

    closed spec fn wf(&self) -> bool {
        self.buffer@.len() >= 1 && heap_ordered(self.buffer@)
    }

    fn new() -> (h: Self) {
        BinaryHeap::new()
    }

    fn add(&mut self, v: i64) {
        let ghost s = self.buffer@;
        self.buffer.push(v);
        let idx = self.size();
        proof {
            let t = self.buffer@;
            let ii = idx as int;
            assert forall|k: int| 2 <= k < t.len() && k != ii implies #[trigger] t[k] >= t[k
                / 2] by {
                assert(t[k] == s[k] && t[k / 2] == s[k / 2]);
            }
            assert forall|k: int| 2 <= k < t.len() && k / 2 == ii implies #[trigger] t[k] >= t[ii
                / 2] by {
                assert(k >= 2 * ii >= ii + 1);
            }
        }
        self.upheap(idx);
        proof {
            assert(s.push(v).skip(1) =~= s.skip(1).push(v));
            assert(self.buffer@.skip(1).to_multiset() == s.skip(1).to_multiset().insert(v));
        }
    }

    fn empty(&self) -> (r: bool) {
        proof {
            assert(self.buffer@.skip(1).len() == self.buffer@.len() - 1);
        }
        self.size() == 0
    }

    fn get_min(&self) -> (r: Option<i64>) {
        if self.size() == 0 {
            proof {
                assert(self.buffer@.skip(1) =~= Seq::<i64>::empty());
            }
            None
        } else {
            proof {
                self.lemma_top_is_min();
            }
            Some(self.buffer[1])
        }
    }

    fn remove_min(&mut self) -> (r: Option<i64>) {
        if self.size() != 0 {
            proof {
                self.lemma_top_is_min();
            }
            let ghost s = self.buffer@;
            let ghost t = s.skip(1);
            let top = self.buffer.swap_remove(1);
            proof {
                let u = self.buffer@;
                assert(u == s.update(1, s.last()).drop_last());
                assert(u.skip(1) =~= t.update(0, t.last()).drop_last());
                assert(t.update(0, t.last()).drop_last() =~= t.update(0, t.last()).remove(
                    t.len() - 1,
                ));
                assert(t.update(0, t.last())[t.len() - 1] == t.last());
                assert(u.skip(1).to_multiset() == t.to_multiset().insert(t.last()).remove(t[0])
                    .remove(t.last()));
                assert(t.contains(t[0]));
                assert(t.to_multiset().insert(t.last()).remove(t[0]).remove(t.last())
                    =~= t.to_multiset().remove(t[0]));
                assert forall|k: int| 2 <= k < u.len() && k / 2 != 1 implies #[trigger] u[k] >= u[k
                    / 2] by {
                    assert(u[k] == s[k] && u[k / 2] == s[k / 2]);
                }
            }
            self.downheap(1);
            Some(top)
        } else {
            proof {
                assert(self.buffer@.skip(1) =~= Seq::<i64>::empty());
            }
            None
        }
    }
}

impl BinaryHeap {
    /// In a well-formed, non-empty heap the value at index 1 is a least
    /// element of the contents.
    proof fn lemma_top_is_min(&self)
        requires
            self.wf(),
            self.buffer@.len() >= 2,
        ensures
            is_min_of(self.buffer@[1], self.mset()),
    {
        let s = self.buffer@;
        let t = s.skip(1);
        assert(t[0] == s[1]);
        assert(t.contains(s[1]));
        assert forall|x: i64| t.to_multiset().count(x) > 0 implies s[1] <= x by {
            assert(t.contains(x));
            let j = choose|j: int| 0 <= j < t.len() && t[j] == x;
            lemma_root_min(s, j + 1);
        }
    }
}

} // verus!
