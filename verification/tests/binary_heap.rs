use containers::heaps::binary_heap::BinaryHeap;
use containers::heaps::heap::{Heap, HeapType};

fn drain(mut heap: BinaryHeap<i32>) -> Vec<i32> {
    let mut popped = Vec::new();
    while let Some(v) = heap.pop() {
        popped.push(v);
    }
    popped
}

#[test]
fn binary_push_then_pop_sorts() {
    let mut heap = BinaryHeap::new(HeapType::Min);
    for v in [1, 2, 9, 3, 4, 10, 0] {
        heap.push(v);
    }
    assert_eq!(heap.len(), 7);
    assert_eq!(heap.peek(), Some(&0));
    assert_eq!(drain(heap), vec![0, 1, 2, 3, 4, 9, 10]);
}

#[test]
fn binary_max_heap_hands_out_the_greatest_first() {
    let mut heap = BinaryHeap::new(HeapType::Max);
    for v in [5, 1, 8, 8, 2] {
        heap.push(v);
    }
    assert_eq!(drain(heap), vec![8, 8, 5, 2, 1]);
}

#[test]
fn binary_empty_heap_stays_empty() {
    let mut heap: BinaryHeap<i32> = BinaryHeap::new(HeapType::Min);
    assert!(heap.is_empty());
    assert_eq!(heap.len(), 0);
    assert_eq!(heap.peek(), None);
    assert_eq!(heap.pop(), None);
    assert_eq!(heap.pop(), None);
}

#[test]
fn build_min_and_build_max_order_a_vector() {
    let values = vec![6, 3, 9, 1, 7, 3, 8, 2];
    assert_eq!(drain(BinaryHeap::build_min(values.clone())), vec![1, 2, 3, 3, 6, 7, 8, 9]);
    assert_eq!(drain(BinaryHeap::build_max(values)), vec![9, 8, 7, 6, 3, 3, 2, 1]);
    assert!(BinaryHeap::<i32>::build_min(vec![]).is_empty());
}

#[test]
fn binary_meld_moves_every_value() {
    let mut a = BinaryHeap::build_min(vec![2, 5, 4]);
    let mut b = BinaryHeap::build_max(vec![1, 3, 6, 9, 8, 11]);
    a.meld(&mut b);
    assert_eq!(a.len(), 9);
    assert_eq!(b.len(), 0);
    assert_eq!(b.peek(), None);
    assert_eq!(a.peek(), Some(&1));
    assert_eq!(drain(a), vec![1, 2, 3, 4, 5, 6, 8, 9, 11]);
}

#[test]
fn binary_merge_takes_the_new_ordering() {
    let a = BinaryHeap::build_min(vec![2, 5, 4]);
    let b = BinaryHeap::build_min(vec![1, 3, 6, 9, 8, 11]);
    let merged = a.merge(b, HeapType::Max);
    assert_eq!(merged.peek(), Some(&11));
    assert_eq!(drain(merged), vec![11, 9, 8, 6, 5, 4, 3, 2, 1]);
}

#[test]
fn binary_round_trip_of_many_values() {
    let mut state: u32 = 12345;
    let mut values = Vec::new();
    for _ in 0..1000 {
        state = state.wrapping_mul(1664525).wrapping_add(1013904223);
        values.push((state >> 16) as i32 % 500);
    }
    let mut heap = BinaryHeap::new(HeapType::Min);
    for v in values.iter() {
        heap.push(*v);
    }
    values.sort();
    assert_eq!(drain(heap), values);
}

#[test]
fn binary_clone_leaves_the_source_as_it_was() {
    let heap = BinaryHeap::build_max(vec![4, 9, 2]);
    let mut copy = heap.clone();
    assert_eq!(copy.pop(), Some(9));
    assert_eq!(copy.len(), 2);
    assert_eq!(heap.len(), 3);
    assert_eq!(drain(heap), vec![9, 4, 2]);
}

#[test]
fn binary_heap_is_measured_through_its_trait() {
    let heap = BinaryHeap::build_min(vec![1u8, 2]);
    assert_eq!(containers::container::HasLength::len(&heap), 2);
    assert!(!containers::container::HasLength::is_empty(&heap));
}
