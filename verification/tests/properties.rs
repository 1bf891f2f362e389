use heaps::binary::BinaryHeap;
use heaps::heap::Heap;
use heaps::pairing::PairingHeap;
use heaps::skew::SkewHeap;

// Polling an empty queue is not an error: `get_min` and `remove_min` return
// absent, and `empty` is true exactly while nothing is stored.
fn empty_contract<H: Heap>(mut heap: H) {
    assert!(heap.empty());
    assert_eq!(heap.get_min(), None);
    assert_eq!(heap.remove_min(), None);
    assert!(heap.empty());

    heap.add(0);
    assert!(!heap.empty());
    assert_eq!(heap.get_min(), Some(0));
    assert_eq!(heap.get_min(), Some(0));
    assert_eq!(heap.remove_min(), Some(0));
    assert!(heap.empty());
    assert_eq!(heap.get_min(), None);
}

#[test]
fn test_empty_contract_binary() {
    empty_contract(BinaryHeap::new());
}

#[test]
fn test_empty_contract_pairing() {
    empty_contract(PairingHeap::new());
}

#[test]
fn test_empty_contract_skew() {
    empty_contract(SkewHeap::new());
}

// After draining n inserted values with n extractions the queue stays empty:
// one more call returns absent and `empty` reports true.
fn drain_then_absent<H: Heap>(mut heap: H) {
    let values = [1, 0, 6, 4, -6, 5, 3];
    for v in values {
        heap.add(v);
    }
    for _ in 0..values.len() {
        assert!(heap.remove_min().is_some());
    }
    assert_eq!(heap.remove_min(), None);
    assert!(heap.empty());
}

#[test]
fn test_drain_then_absent_binary() {
    drain_then_absent(BinaryHeap::new());
}

#[test]
fn test_drain_then_absent_pairing() {
    drain_then_absent(PairingHeap::new());
}

#[test]
fn test_drain_then_absent_skew() {
    drain_then_absent(SkewHeap::new());
}

// Duplicates are preserved: equal keys come out once per insertion.
fn duplicates<H: Heap>(mut heap: H) {
    for v in [2, 1, 2, 1, 2] {
        heap.add(v);
    }
    assert_eq!(heap.remove_min(), Some(1));
    assert_eq!(heap.remove_min(), Some(1));
    assert_eq!(heap.remove_min(), Some(2));
    assert_eq!(heap.remove_min(), Some(2));
    assert_eq!(heap.remove_min(), Some(2));
    assert_eq!(heap.remove_min(), None);
}

#[test]
fn test_duplicates_binary() {
    duplicates(BinaryHeap::new());
}

#[test]
fn test_duplicates_pairing() {
    duplicates(PairingHeap::new());
}

#[test]
fn test_duplicates_skew() {
    duplicates(SkewHeap::new());
}

// Merging moves every value: the union appears in the target, duplicates
// included, and the source is empty immediately after the merge.
fn merge_conserves<H: Heap>(mut h1: H, mut h2: H) {
    for v in [3, 1, 3] {
        h1.add(v);
    }
    for v in [2, 3, -1] {
        h2.add(v);
    }
    h1.merge_in_place(&mut h2);
    assert!(h2.empty());
    assert_eq!(h2.remove_min(), None);
    for expected in [-1, 1, 2, 3, 3, 3] {
        assert_eq!(h1.remove_min(), Some(expected));
    }
    assert_eq!(h1.remove_min(), None);
}

#[test]
fn test_merge_conserves_binary() {
    merge_conserves(BinaryHeap::new(), BinaryHeap::new());
}

#[test]
fn test_merge_conserves_pairing() {
    merge_conserves(PairingHeap::new(), PairingHeap::new());
}

#[test]
fn test_merge_conserves_skew() {
    merge_conserves(SkewHeap::new(), SkewHeap::new());
}

// Merging an empty queue into a full one, and a full one into an empty one,
// both preserve the contents.
fn merge_with_empty<H: Heap>(mut h1: H, mut h2: H, mut h3: H) {
    h1.add(8);
    h1.add(-8);
    h1.merge_in_place(&mut h2);
    assert!(h2.empty());
    h3.merge_in_place(&mut h1);
    assert!(h1.empty());
    assert_eq!(h3.remove_min(), Some(-8));
    assert_eq!(h3.remove_min(), Some(8));
    assert_eq!(h3.remove_min(), None);
}

#[test]
fn test_merge_with_empty_binary() {
    merge_with_empty(BinaryHeap::new(), BinaryHeap::new(), BinaryHeap::new());
}

#[test]
fn test_merge_with_empty_pairing() {
    merge_with_empty(PairingHeap::new(), PairingHeap::new(), PairingHeap::new());
}

#[test]
fn test_merge_with_empty_skew() {
    merge_with_empty(SkewHeap::new(), SkewHeap::new(), SkewHeap::new());
}

// A small deterministic pseudo-random stream, so the same operation sequence
// can be replayed against every implementation.
struct Lcg {
    state: u64,
}

impl Lcg {
    fn new(seed: u64) -> Lcg {
        Lcg { state: seed }
    }

    fn next(&mut self) -> u64 {
        self.state = self
            .state
            .wrapping_mul(6364136223846793005)
            .wrapping_add(1442695040888963407);
        self.state >> 33
    }
}

// Replays one fixed operation sequence (inserts, extractions, and merges
// between two live instances) and records every extracted value.
fn workload<H: Heap>(mut a: H, mut b: H, seed: u64) -> Vec<Option<i64>> {
    let mut lcg = Lcg::new(seed);
    let mut out = Vec::new();
    for _ in 0..400 {
        match lcg.next() % 5 {
            0 | 1 => {
                let v = lcg.next() as i64 % 1000;
                a.add(v);
            }
            2 => {
                let v = lcg.next() as i64 % 1000;
                b.add(v);
            }
            3 => out.push(a.remove_min()),
            _ => {
                if lcg.next() % 7 == 0 {
                    a.merge_in_place(&mut b);
                    out.push(b.remove_min());
                } else {
                    out.push(b.remove_min());
                }
            }
        }
    }
    while let Some(v) = a.remove_min() {
        out.push(Some(v));
    }
    while let Some(v) = b.remove_min() {
        out.push(Some(v));
    }
    out
}

// For a fixed seed and operation sequence, all three implementations extract
// identical value sequences, and each final drain is non-decreasing.
#[test]
fn test_cross_implementation_equivalence() {
    for seed in [7, 42, 20260101] {
        let from_binary = workload(BinaryHeap::new(), BinaryHeap::new(), seed);
        let from_pairing = workload(PairingHeap::new(), PairingHeap::new(), seed);
        let from_skew = workload(SkewHeap::new(), SkewHeap::new(), seed);
        assert_eq!(from_binary, from_pairing);
        assert_eq!(from_binary, from_skew);
    }
}

// Draining after an arbitrary mix of operations yields a non-decreasing
// value sequence, for every implementation.
fn drain_sorted<H: Heap>(mut heap: H, seed: u64) {
    let mut lcg = Lcg::new(seed);
    for _ in 0..300 {
        if lcg.next() % 3 == 0 {
            heap.remove_min();
        } else {
            heap.add(lcg.next() as i64 % 100);
        }
    }
    let mut drained = Vec::new();
    while let Some(v) = heap.remove_min() {
        drained.push(v);
    }
    for pair in drained.windows(2) {
        assert!(pair[0] <= pair[1]);
    }
}

#[test]
fn test_drain_sorted_binary() {
    drain_sorted(BinaryHeap::new(), 99);
}

#[test]
fn test_drain_sorted_pairing() {
    drain_sorted(PairingHeap::new(), 99);
}

#[test]
fn test_drain_sorted_skew() {
    drain_sorted(SkewHeap::new(), 99);
}
