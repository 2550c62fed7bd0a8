use binheap::heap::{Heap, MaxHeap, MinHeap};
use binheap::order::{MaxOrder, MinOrder};

#[test]
fn test_empty_heap() {
    let mut heap = MaxHeap::new::<i32>();
    assert_eq!(heap.next(), None);
}

#[test]
fn test_min_heap() {
    let mut heap = MinHeap::new();
    heap.add(4);
    heap.add(2);
    heap.add(9);
    heap.add(11);
    assert_eq!(heap.len(), 4);
    assert_eq!(heap.next(), Some(2));
    assert_eq!(heap.next(), Some(4));
    assert_eq!(heap.next(), Some(9));
    heap.add(1);
    assert_eq!(heap.next(), Some(1));
    assert_eq!(heap.next(), Some(11));
    assert_eq!(heap.next(), None);
}

#[test]
fn test_max_heap() {
    let mut heap = MaxHeap::new();
    heap.add(4);
    heap.add(2);
    heap.add(9);
    heap.add(11);
    assert_eq!(heap.len(), 4);
    assert_eq!(heap.next(), Some(11));
    assert_eq!(heap.next(), Some(9));
    assert_eq!(heap.next(), Some(4));
    heap.add(1);
    assert_eq!(heap.next(), Some(2));
    assert_eq!(heap.next(), Some(1));
    assert_eq!(heap.next(), None);
}

#[test]
fn fresh_heap_pops_nothing() {
    let mut heap: Heap<i64, MinOrder> = Heap::new_min();
    assert!(heap.is_empty());
    assert_eq!(heap.pop(), None);
    let mut drained = MinHeap::new::<u8>();
    assert!(drained.drain().is_empty());
}

#[test]
fn len_counts_adds_minus_successful_pops() {
    let mut heap = Heap::new(MaxOrder);
    assert_eq!(heap.len(), 0);
    heap.add(5u32);
    heap.add(7);
    heap.add(5);
    assert_eq!(heap.len(), 3);
    assert_eq!(heap.pop(), Some(7));
    assert_eq!(heap.len(), 2);
    assert_eq!(heap.pop(), Some(5));
    assert_eq!(heap.pop(), Some(5));
    assert_eq!(heap.len(), 0);
    assert_eq!(heap.pop(), None);
    assert_eq!(heap.len(), 0);
    heap.add(1);
    assert_eq!(heap.len(), 1);
    assert!(!heap.is_empty());
}

#[test]
fn min_heap_drains_non_decreasing() {
    let values = vec![31, -4, 17, 0, 99, -4, 23, 8, 8, 56, -70, 12, 3];
    let mut heap = MinHeap::new();
    for v in values.iter() {
        heap.add(*v);
    }
    let out = heap.drain();
    assert_eq!(out, vec![-70, -4, -4, 0, 3, 8, 8, 12, 17, 23, 31, 56, 99]);
    assert!(heap.is_empty());
}

#[test]
fn max_heap_drains_non_increasing() {
    let values = vec![31, -4, 17, 0, 99, -4, 23, 8, 8, 56, -70, 12, 3];
    let mut heap = MaxHeap::new();
    for v in values.iter() {
        heap.add(*v);
    }
    let out = heap.drain();
    assert_eq!(out, vec![99, 56, 31, 23, 17, 12, 8, 8, 3, 0, -4, -4, -70]);
}

#[test]
fn drain_is_a_permutation_of_what_was_added() {
    let mut values: Vec<i32> = Vec::new();
    let mut seed: i32 = 7;
    for _ in 0..200 {
        seed = (seed * 37 + 11) % 1009;
        values.push(seed % 50);
    }
    let mut heap = MinHeap::new();
    for v in values.iter() {
        heap.add(*v);
    }
    assert_eq!(heap.len(), 200);
    let out = heap.drain();
    let mut sorted = values.clone();
    sorted.sort();
    assert_eq!(out, sorted);
}

#[test]
fn pop_on_empty_stays_empty() {
    let mut heap = MinHeap::new::<i32>();
    for _ in 0..5 {
        assert_eq!(heap.pop(), None);
        assert_eq!(heap.len(), 0);
    }
    heap.add(3);
    assert_eq!(heap.pop(), Some(3));
    for _ in 0..3 {
        assert_eq!(heap.next(), None);
        assert_eq!(heap.len(), 0);
    }
}

#[test]
fn equal_values_all_come_out() {
    let mut heap = MaxHeap::new();
    for _ in 0..6 {
        heap.add(4u64);
    }
    heap.add(u64::MAX);
    heap.add(0);
    assert_eq!(heap.drain(), vec![u64::MAX, 4, 4, 4, 4, 4, 4, 0]);
}

#[test]
fn drained_heap_can_be_refilled() {
    let mut heap = MinHeap::new();
    heap.add(2);
    heap.add(1);
    assert_eq!(heap.drain(), vec![1, 2]);
    heap.add(10);
    heap.add(-10);
    assert_eq!(heap.next(), Some(-10));
    assert_eq!(heap.next(), Some(10));
    assert_eq!(heap.next(), None);
}

#[test]
fn strings_order_lexicographically() {
    let mut heap = MinHeap::new();
    heap.add(String::from("pear"));
    heap.add(String::from("apple"));
    heap.add(String::from("fig"));
    assert_eq!(heap.pop(), Some(String::from("apple")));
    assert_eq!(heap.pop(), Some(String::from("fig")));
    assert_eq!(heap.pop(), Some(String::from("pear")));
}
