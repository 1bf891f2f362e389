//! A pairing heap: a rooted multiway tree (root value plus an ordered list
//! of child subtrees) wrapped in an empty/non-empty variant.
//!
//! Merging is O(1): the root holding the larger value becomes a new child of
//! the other root.  Extract-min discards the root and recombines its child
//! list by merging adjacent pairs left to right, then melding the paired
//! trees right to left — the classic two-pass rule behind the amortized
//! O(log n) bound.

use crate::heap::Heap;
use vstd::multiset::Multiset;
use vstd::prelude::*;

verus! {

pub struct PairingTree {
    top: i64,
    subheaps: Vec<PairingTree>,
}

pub enum PairingHeap {
    Empty,
    Tree(PairingTree),
}

/// The multiset of all values held by the trees of a forest.
pub closed spec fn forest_mset(s: Seq<PairingTree>) -> Multiset<i64>
    decreases s,
{
    if s.len() == 0 {
        Multiset::empty()
    } else {
        s[0].mset().add(forest_mset(s.drop_first()))
    }
}

impl PairingTree {
    /// The multiset of values in this tree.
    pub closed spec fn mset(self) -> Multiset<i64>
        decreases self,
    {
        Multiset::singleton(self.top).add(forest_mset(self.subheaps@))
    }

    /// Heap order: each child subtree is well formed and its root value is
    /// no smaller than this node's.
    pub closed spec fn wf(self) -> bool
        decreases self,
    {
        forall|k: int|
            0 <= k < self.subheaps@.len() ==> (#[trigger] self.subheaps@[k]).wf()
                && self.top <= self.subheaps@[k].top
    }
}

/// Appending a tree to a forest adds exactly that tree's values.
proof fn lemma_forest_mset_push(s: Seq<PairingTree>, t: PairingTree)
    ensures
        forest_mset(s.push(t)) == forest_mset(s).add(t.mset()),
    decreases s.len(),
{
    if s.len() == 0 {
        assert(s.push(t).drop_first() =~= Seq::<PairingTree>::empty());
        assert(forest_mset(Seq::<PairingTree>::empty()) == Multiset::<i64>::empty());
        assert(s.push(t)[0] == t);
        assert(forest_mset(s.push(t)) == t.mset().add(Multiset::<i64>::empty()));
        assert(forest_mset(s) == Multiset::<i64>::empty());
        assert(forest_mset(s.push(t)) =~= forest_mset(s).add(t.mset()));
    } else {
        lemma_forest_mset_push(s.drop_first(), t);
        assert(s.push(t).drop_first() =~= s.drop_first().push(t));
        assert(s.push(t)[0] == s[0]);
        assert(forest_mset(s.push(t)) =~= forest_mset(s).add(t.mset()));
    }
}

/// A lower bound on the roots of a well-formed forest bounds every value in
/// the forest.
proof fn lemma_forest_min(s: Seq<PairingTree>, b: i64)
    requires
        forall|k: int| 0 <= k < s.len() ==> (#[trigger] s[k]).wf() && b <= s[k].top,
    ensures
        forall|x: i64| #[trigger] forest_mset(s).count(x) > 0 ==> b <= x,
    decreases s,
{
    if s.len() > 0 {
        lemma_tree_min(s[0]);
        lemma_forest_min(s.drop_first(), b);
        assert forall|x: i64| #[trigger] forest_mset(s).count(x) > 0 implies b <= x by {
            if s[0].mset().count(x) > 0 {
                assert(s[0].top <= x);
            } else {
                assert(forest_mset(s.drop_first()).count(x) > 0);
            }
        }
    }
}

/// In a well-formed tree the root value bounds every value of the tree.
proof fn lemma_tree_min(t: PairingTree)
    requires
        t.wf(),
    ensures
        forall|x: i64| #[trigger] t.mset().count(x) > 0 ==> t.top <= x,
        t.mset().count(t.top) > 0,
    decreases t,
{
    lemma_forest_min(t.subheaps@, t.top);
    assert forall|x: i64| #[trigger] t.mset().count(x) > 0 implies t.top <= x by {
        if x != t.top {
            assert(forest_mset(t.subheaps@).count(x) > 0);
        }
    }
}

impl PairingTree {
    /// Melds another tree into this one: the root holding the larger value
    /// becomes the last child of the other root.
    fn merge_in_place(&mut self, other: PairingTree)
        requires
            old(self).wf(),
            other.wf(),
        ensures
            final(self).wf(),
            final(self).mset() == old(self).mset().add(other.mset()),
            final(self).top == if old(self).top <= other.top {
                old(self).top
            } else {
                other.top
            },
    {
        let ghost y0 = other;
        let mut o = other;
        if self.top > o.top {
            core::mem::swap(self, &mut o);
        }
        let ghost a = *self;
        let ghost b = o;
        self.subheaps.push(o);
        proof {
            lemma_forest_mset_push(a.subheaps@, b);
            assert forall|k: int|
                0 <= k < self.subheaps@.len() implies (#[trigger] self.subheaps@[k]).wf()
                    && self.top <= self.subheaps@[k].top by {
                if k < a.subheaps@.len() {
                    assert(self.subheaps@[k] == a.subheaps@[k]);
                } else {
                    assert(self.subheaps@[k] == b);
                }
            }
            assert(self.mset() =~= a.mset().add(b.mset()));
            assert(a.mset().add(b.mset()) =~= old(self).mset().add(y0.mset()));
        }
    }
}

impl PairingHeap {
    /// An empty pairing heap.
    pub fn new() -> (h: Self)
        ensures
            h.wf(),
            h.mset() == Multiset::<i64>::empty(),
    {
        PairingHeap::Empty
    }

    /// A heap holding exactly one value.
    fn single(v: i64) -> (h: Self)
        ensures
            h.wf(),
            h.mset() == Multiset::singleton(v),
    {
        let subheaps: Vec<PairingTree> = Vec::new();
        let h = PairingHeap::Tree(PairingTree { top: v, subheaps });
        proof {
            assert(h.mset() =~= Multiset::singleton(v));
        }
        h
    }

    /// Melds `other` into this heap.  O(1): at most one root becomes a new
    /// child of the other.
    fn merge_in_place(&mut self, other: Self)
        requires
            old(self).wf(),
            other.wf(),
        ensures
            final(self).wf(),
            final(self).mset() == old(self).mset().add(other.mset()),
    {
        let mut tmp = PairingHeap::Empty;
        core::mem::swap(self, &mut tmp);
        match (tmp, other) {
            (PairingHeap::Empty, o) => {
                *self = o;
                proof {
                    assert(self.mset() =~= old(self).mset().add(self.mset()));
                }
            },
            (s, PairingHeap::Empty) => {
                *self = s;
                proof {
                    assert(self.mset() =~= self.mset().add(Multiset::<i64>::empty()));
                }
            },
            (PairingHeap::Tree(mut t), PairingHeap::Tree(o)) => {
                t.merge_in_place(o);
                *self = PairingHeap::Tree(t);
            },
        }
    }

    /// Consumes both operands and returns their meld.
    fn merge(self, other: Self) -> (r: Self)
        requires
            self.wf(),
            other.wf(),
        ensures
            r.wf(),
            r.mset() == self.mset().add(other.mset()),
    {
        let mut s = self;
        s.merge_in_place(other);
        s
    }

    /// Recombines a forest of former siblings: merge the first two trees
    /// into one, then meld that pair with the recombination of the rest.
    fn merge_pairs(trees: Vec<PairingTree>) -> (r: Self)
        requires
            forall|k: int| 0 <= k < trees@.len() ==> (#[trigger] trees@[k]).wf(),
        ensures
            r.wf(),
            r.mset() == forest_mset(trees@),
        decreases trees@.len(),
    {
        let ghost orig = trees@;
        let mut trees = trees;
        if trees.len() == 0 {
            proof {
                assert(forest_mset(orig) == Multiset::<i64>::empty());
            }
            PairingHeap::Empty
        } else if trees.len() == 1 {
            let t = trees.remove(0);
            proof {
                assert(orig.drop_first().len() == 0);
                assert(forest_mset(orig.drop_first()) == Multiset::<i64>::empty());
                assert(forest_mset(orig) == orig[0].mset().add(Multiset::<i64>::empty()));
                assert(forest_mset(orig) =~= t.mset());
            }
            PairingHeap::Tree(t)
        } else {
            let mut first = trees.remove(0);
            let second = trees.remove(0);
            proof {
                assert(orig.remove(0) =~= orig.drop_first());
                assert(orig.drop_first().remove(0) =~= orig.drop_first().drop_first());
                assert forall|k: int| 0 <= k < trees@.len() implies (#[trigger] trees@[k]).wf() by {
                    assert(trees@[k] == orig[k + 2]);
                }
            }
            first.merge_in_place(second);
            let rest = Self::merge_pairs(trees);
            let r = PairingHeap::Tree(first).merge(rest);
            proof {
                assert(forest_mset(orig) == orig[0].mset().add(forest_mset(orig.drop_first())));
                assert(orig.drop_first()[0] == orig[1]);
                assert(forest_mset(orig.drop_first()) == orig[1].mset().add(
                    forest_mset(orig.drop_first().drop_first()),
                ));
                assert(r.mset() =~= forest_mset(orig));
            }
            r
        }
    }
}

impl Heap for PairingHeap {
    closed spec fn mset(&self) -> Multiset<i64> {
        match *self {
            PairingHeap::Empty => Multiset::empty(),
            PairingHeap::Tree(t) => t.mset(),
        }
    }

    closed spec fn wf(&self) -> bool {
        match *self {
            PairingHeap::Empty => true,
            PairingHeap::Tree(t) => t.wf(),
        }
    }

    fn new() -> (h: Self) {
        PairingHeap::new()
    }

    fn add(&mut self, v: i64) {
        self.merge_in_place(PairingHeap::single(v));
    }

    fn empty(&self) -> (r: bool) {
        match *self {
            PairingHeap::Empty => {
                proof {
                    vstd::multiset::lemma_multiset_empty_len::<i64>(self.mset());
                }
                true
            },
            PairingHeap::Tree(ref t) => {
                proof {
                    assert(self.mset().count(t.top) > 0);
                }
                false
            },
        }
    }

    fn get_min(&self) -> (r: Option<i64>) {
        match *self {
            PairingHeap::Empty => None,
            PairingHeap::Tree(ref t) => {
                proof {
                    lemma_tree_min(*t);
                }
                Some(t.top)
            },
        }
    }

    fn remove_min(&mut self) -> (r: Option<i64>) {
        let mut tmp = PairingHeap::Empty;
        core::mem::swap(self, &mut tmp);
        match tmp {
            PairingHeap::Empty => None,
            PairingHeap::Tree(tree) => {
                proof {
                    lemma_tree_min(tree);
                }
                let PairingTree { top, subheaps } = tree;
                *self = Self::merge_pairs(subheaps);
                proof {
                    assert(self.mset() =~= old(self).mset().remove(top));
                }
                Some(top)
            },
        }
    }

    fn merge_in_place(&mut self, other: &mut Self) {
        let mut tmp = PairingHeap::Empty;
        core::mem::swap(other, &mut tmp);
        PairingHeap::merge_in_place(self, tmp);
    }
}

} // verus!
