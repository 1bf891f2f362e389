//! A skew heap: a binary tree (value plus left and right child heaps, each
//! possibly empty) wrapped in an empty/non-empty variant.
//!
//! Every operation is expressed through a single recursive meld: the tree
//! with the larger root is merged into the other tree's right child, and the
//! two children are then unconditionally swapped.  The swap after every
//! merge is the self-adjusting step that keeps the right spine short in the
//! amortized sense, without any explicit balance bookkeeping.

use crate::heap::Heap;
use vstd::multiset::Multiset;
use vstd::prelude::*;

verus! {

pub struct SkewTree {
    value: i64,
    left: Box<SkewHeap>,
    right: Box<SkewHeap>,
}

pub enum SkewHeap {
    Empty,
    Tree(SkewTree),
}

/// The multiset of values held by a skew heap.
pub closed spec fn skew_mset(h: SkewHeap) -> Multiset<i64>
    decreases h,
{
    match h {
        SkewHeap::Empty => Multiset::empty(),
        SkewHeap::Tree(t) => Multiset::singleton(t.value).add(skew_mset(*t.left)).add(
            skew_mset(*t.right),
        ),
    }
}

/// Heap order: the children are well formed and the root value bounds every
/// value below it.
pub closed spec fn skew_wf(h: SkewHeap) -> bool
    decreases h,
{
    match h {
        SkewHeap::Empty => true,
        SkewHeap::Tree(t) => {
            &&& skew_wf(*t.left)
            &&& skew_wf(*t.right)
            &&& (forall|x: i64| #[trigger] skew_mset(*t.left).count(x) > 0 ==> t.value <= x)
            &&& (forall|x: i64| #[trigger] skew_mset(*t.right).count(x) > 0 ==> t.value <= x)
        },
    }
}

/// The number of stored values.
spec fn node_count(h: SkewHeap) -> nat
    decreases h,
{
    match h {
        SkewHeap::Empty => 0,
        SkewHeap::Tree(t) => 1 + node_count(*t.left) + node_count(*t.right),
    }
}

/// In a well-formed, non-empty skew heap the root value is a least element.
proof fn lemma_skew_root_min(t: SkewTree)
    requires
        skew_wf(SkewHeap::Tree(t)),
    ensures
        forall|x: i64| #[trigger] skew_mset(SkewHeap::Tree(t)).count(x) > 0 ==> t.value <= x,
        skew_mset(SkewHeap::Tree(t)).count(t.value) > 0,
{
    assert forall|x: i64| #[trigger] skew_mset(SkewHeap::Tree(t)).count(x) > 0 implies t.value
        <= x by {
        if x != t.value {
            assert(skew_mset(*t.left).count(x) > 0 || skew_mset(*t.right).count(x) > 0);
        }
    }
}

impl SkewHeap {
    /// An empty skew heap.
    pub fn new() -> (h: Self)
        ensures
            h.wf(),
            h.mset() == Multiset::<i64>::empty(),
    {
        SkewHeap::Empty
    }

    /// A heap holding exactly one value.
    fn single(value: i64) -> (h: Self)
        ensures
            h.wf(),
            h.mset() == Multiset::singleton(value),
    {
        let h = SkewHeap::Tree(
            SkewTree { value, left: Box::new(SkewHeap::Empty), right: Box::new(SkewHeap::Empty) },
        );
        proof {
            assert(skew_mset(SkewHeap::Empty) == Multiset::<i64>::empty());
            assert(skew_wf(SkewHeap::Empty));
            assert(h.mset() =~= Multiset::singleton(value));
        }
        h
    }

    /// The recursive meld: the tree with the larger root value is merged
    /// into the right child of the other, and that node's children are then
    /// swapped.
    fn merge(a: Self, b: Self) -> (r: Self)
        requires
            a.wf(),
            b.wf(),
        ensures
            r.wf(),
            r.mset() == a.mset().add(b.mset()),
        decreases node_count(a) + node_count(b),
    {
        match a {
            SkewHeap::Empty => {
                proof {
                    assert(b.mset() =~= a.mset().add(b.mset()));
                }
                b
            },
            SkewHeap::Tree(x) => match b {
                SkewHeap::Empty => {
                    proof {
                        assert(SkewHeap::Tree(x).mset() =~= SkewHeap::Tree(x).mset().add(
                            Multiset::<i64>::empty(),
                        ));
                    }
                    SkewHeap::Tree(x)
                },
                SkewHeap::Tree(y) => {
                    let mut x = x;
                    let mut y = y;
                    if x.value > y.value {
                        core::mem::swap(&mut x, &mut y);
                    }
                    proof {
                        lemma_skew_root_min(y);
                    }
                    let SkewTree { value, left, right } = x;
                    let merged = SkewHeap::merge(*right, SkewHeap::Tree(y));
                    let r = SkewHeap::Tree(
                        SkewTree { value, left: Box::new(merged), right: left },
                    );
                    proof {
                        assert forall|v: i64| #[trigger] merged.mset().count(v) > 0 implies value
                            <= v by {
                            if right.mset().count(v) == 0 {
                                assert(SkewHeap::Tree(y).mset().count(v) > 0);
                            }
                        }
                        assert(r.mset() =~= a.mset().add(b.mset()));
                    }
                    r
                },
            },
        }
    }

    /// Consumes `other` and melds it into `self`.
    fn merge_in_place(&mut self, other: Self)
        requires
            old(self).wf(),
            other.wf(),
        ensures
            final(self).wf(),
            final(self).mset() == old(self).mset().add(other.mset()),
    {
        let mut tmp = SkewHeap::Empty;
        core::mem::swap(self, &mut tmp);
        *self = SkewHeap::merge(tmp, other);
    }
}

impl Heap for SkewHeap {
    closed spec fn mset(&self) -> Multiset<i64> {
        skew_mset(*self)
    }

    closed spec fn wf(&self) -> bool {
        skew_wf(*self)
    }

    fn new() -> (h: Self) {
        SkewHeap::new()
    }

    fn add(&mut self, value: i64) {
        self.merge_in_place(SkewHeap::single(value));
    }

    fn empty(&self) -> (r: bool) {
        match *self {
            SkewHeap::Empty => {
                proof {
                    vstd::multiset::lemma_multiset_empty_len::<i64>(Heap::mset(self));
                }
                true
            },
            SkewHeap::Tree(ref t) => {
                proof {
                    assert(skew_mset(*self).count(t.value) > 0);
                }
                false
            },
        }
    }

    fn get_min(&self) -> (r: Option<i64>) {
        match *self {
            SkewHeap::Empty => None,
            SkewHeap::Tree(ref t) => {
                proof {
                    lemma_skew_root_min(*t);
                }
                Some(t.value)
            },
        }
    }

    fn remove_min(&mut self) -> (r: Option<i64>) {
        let mut tmp = SkewHeap::Empty;
        core::mem::swap(self, &mut tmp);
        match tmp {
            SkewHeap::Empty => None,
            SkewHeap::Tree(t) => {
                proof {
                    lemma_skew_root_min(t);
                }
                let SkewTree { value, left, right } = t;
                *self = SkewHeap::merge(*left, *right);
                proof {
                    assert(skew_mset(*self) =~= skew_mset(SkewHeap::Tree(t)).remove(value));
                }
                Some(value)
            },
        }
    }

    fn merge_in_place(&mut self, other: &mut Self) {
        let mut tmp = SkewHeap::Empty;
        core::mem::swap(other, &mut tmp);
        SkewHeap::merge_in_place(self, tmp);
    }
}

} // verus!
