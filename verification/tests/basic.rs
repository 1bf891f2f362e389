use heaps::binary::BinaryHeap;
use heaps::heap::Heap;
use heaps::pairing::PairingHeap;
use heaps::skew::SkewHeap;

fn test<H: Heap>(mut heap: H) {
    heap.add(1);
    heap.add(0);
    heap.add(6);
    heap.add(4);
    heap.add(-6);
    heap.add(5);
    heap.add(3);

    assert_eq!(heap.remove_min(), Some(-6));
    assert_eq!(heap.remove_min(), Some(0));
    assert_eq!(heap.remove_min(), Some(1));
    assert_eq!(heap.remove_min(), Some(3));
    assert_eq!(heap.remove_min(), Some(4));
    assert_eq!(heap.remove_min(), Some(5));
    assert_eq!(heap.remove_min(), Some(6));
}

fn test_merge<H: Heap>(mut h1: H, mut h2: H) {
    h1.add(4);
    h1.add(2);
    h1.add(5);
    h2.add(1);
    h2.add(3);
    h2.add(6);
    h1.merge_in_place(&mut h2);

    assert_eq!(h1.remove_min(), Some(1));
    assert_eq!(h1.remove_min(), Some(2));
    assert_eq!(h1.remove_min(), Some(3));
    assert_eq!(h1.remove_min(), Some(4));
    assert_eq!(h1.remove_min(), Some(5));
    assert_eq!(h1.remove_min(), Some(6));
}

#[test]
fn test_binary() {
    let heap = BinaryHeap::new();
    test(heap);
}

#[test]
fn test_pairing() {
    let heap = PairingHeap::new();
    test(heap);
}

#[test]
fn test_skew() {
    let heap = SkewHeap::new();
    test(heap);
}

#[test]
fn test_merge_binary() {
    let h1 = BinaryHeap::new();
    let h2 = BinaryHeap::new();
    test_merge(h1, h2);
}

#[test]
fn test_merge_pairing() {
    let h1 = PairingHeap::new();
    let h2 = PairingHeap::new();
    test_merge(h1, h2);
}

#[test]
fn test_merge_skew() {
    let h1 = SkewHeap::new();
    let h2 = SkewHeap::new();
    test_merge(h1, h2);
}
