use containers::container::HasLength;
use containers::heaps::binomial_heap::{heap_type_match, BinomialHeap, HeapTypeMatch, MergeBucket};
use containers::heaps::binomial_tree::BinomialTree;
use containers::heaps::heap::{Heap, HeapType};

fn scrambled(n: usize) -> Vec<i64> {
    let mut state: u64 = 0x2545_f491_4f6c_dd1d;
    let mut values = Vec::with_capacity(n);
    for _ in 0..n {
        state = state.wrapping_mul(6364136223846793005).wrapping_add(1442695040888963407);
        values.push(((state >> 33) % 2001) as i64 - 1000);
    }
    values
}

fn round_trip(n: usize, heap_type: HeapType) {
    let values = scrambled(n);
    let mut heap = BinomialHeap::new(heap_type);
    for v in values.iter() {
        heap.push(*v);
    }
    assert_eq!(heap.len(), n);
    let mut expected = values.clone();
    expected.sort();
    if heap_type == HeapType::Max {
        expected.reverse();
    }
    let mut popped = Vec::new();
    for _ in 0..n {
        popped.push(heap.pop().unwrap());
    }
    assert_eq!(popped, expected);
    assert_eq!(heap.pop(), None);
    assert!(heap.is_empty());
}

#[test]
fn round_trip_min_sizes() {
    round_trip(0, HeapType::Min);
    round_trip(1, HeapType::Min);
    round_trip(2, HeapType::Min);
    round_trip(17, HeapType::Min);
    round_trip(1000, HeapType::Min);
}

#[test]
fn round_trip_max_sizes() {
    round_trip(0, HeapType::Max);
    round_trip(1, HeapType::Max);
    round_trip(2, HeapType::Max);
    round_trip(17, HeapType::Max);
    round_trip(1000, HeapType::Max);
}

#[test]
fn empty_heap_stays_empty() {
    let mut heap: BinomialHeap<u32> = BinomialHeap::new(HeapType::Max);
    assert_eq!(heap.peek(), None);
    assert_eq!(heap.pop(), None);
    assert_eq!(heap.pop(), None);
    assert_eq!(heap.peek(), None);
    assert_eq!(heap.len(), 0);
    assert!(heap.is_empty());
}

#[test]
fn peek_keeps_the_value() {
    let mut heap = BinomialHeap::new(HeapType::Max);
    heap.push(3u8);
    heap.push(9);
    heap.push(4);
    assert_eq!(heap.peek(), Some(&9));
    assert_eq!(heap.peek(), Some(&9));
    assert_eq!(heap.len(), 3);
}

#[test]
fn duplicates_come_out_as_often_as_they_went_in() {
    let mut heap = BinomialHeap::new(HeapType::Min);
    for v in [4, 1, 4, 1, 4, 2] {
        heap.push(v);
    }
    let mut popped = Vec::new();
    while let Some(v) = heap.pop() {
        popped.push(v);
    }
    assert_eq!(popped, vec![1, 1, 2, 4, 4, 4]);
}

#[test]
fn meld_adds_the_lengths_and_empties_the_other() {
    let mut a = BinomialHeap::new(HeapType::Min);
    let mut b = BinomialHeap::new(HeapType::Min);
    for v in [7, 3, 5] {
        a.push(v);
    }
    for v in [6, 2, 8, 4, 1] {
        b.push(v);
    }
    a.meld(&mut b);
    assert_eq!(a.len(), 8);
    assert_eq!(b.len(), 0);
    assert_eq!(b.peek(), None);
    let mut popped = Vec::new();
    while let Some(v) = a.pop() {
        popped.push(v);
    }
    assert_eq!(popped, vec![1, 2, 3, 4, 5, 6, 7, 8]);
}

#[test]
fn meld_with_an_empty_heap() {
    let mut a = BinomialHeap::new(HeapType::Max);
    let mut b = BinomialHeap::new(HeapType::Max);
    a.push(1);
    a.meld(&mut b);
    assert_eq!(a.len(), 1);
    b.meld(&mut a);
    assert_eq!(b.len(), 1);
    assert_eq!(a.len(), 0);
    assert_eq!(b.peek(), Some(&1));
}

#[test]
fn meld_across_orderings_keeps_the_ordering_of_the_receiver() {
    let mut a = BinomialHeap::new(HeapType::Max);
    let mut b = BinomialHeap::new(HeapType::Min);
    for v in [7, 3, 5] {
        a.push(v);
    }
    for v in [6, 2, 8] {
        b.push(v);
    }
    a.meld(&mut b);
    assert_eq!(a.len(), 6);
    assert_eq!(b.len(), 0);
    assert_eq!(b.pop(), None);
    let mut popped = Vec::new();
    while let Some(v) = a.pop() {
        popped.push(v);
    }
    assert_eq!(popped, vec![8, 7, 6, 5, 3, 2]);
}

fn filled(heap_type: HeapType, values: &[i32]) -> BinomialHeap<i32> {
    let mut heap = BinomialHeap::new(heap_type);
    for v in values {
        heap.push(*v);
    }
    heap
}

fn drained(mut heap: BinomialHeap<i32>) -> Vec<i32> {
    let mut popped = Vec::new();
    while let Some(v) = heap.pop() {
        popped.push(v);
    }
    popped
}

#[test]
fn merge_where_both_have_the_ordering() {
    let merged = filled(HeapType::Min, &[2, 5, 4]).merge(filled(HeapType::Min, &[1, 3]), HeapType::Min);
    assert_eq!(merged.len(), 5);
    assert_eq!(drained(merged), vec![1, 2, 3, 4, 5]);
}

#[test]
fn merge_where_the_first_has_the_ordering() {
    let merged = filled(HeapType::Max, &[2, 5, 4]).merge(filled(HeapType::Min, &[1, 3]), HeapType::Max);
    assert_eq!(merged.peek(), Some(&5));
    assert_eq!(drained(merged), vec![5, 4, 3, 2, 1]);
}

#[test]
fn merge_where_the_second_has_the_ordering() {
    let merged = filled(HeapType::Min, &[2, 5, 4]).merge(filled(HeapType::Max, &[1, 3]), HeapType::Max);
    assert_eq!(merged.peek(), Some(&5));
    assert_eq!(drained(merged), vec![5, 4, 3, 2, 1]);
}

#[test]
fn merge_where_neither_has_the_ordering() {
    let merged = filled(HeapType::Max, &[2, 5, 4]).merge(filled(HeapType::Max, &[1, 3]), HeapType::Min);
    assert_eq!(merged.peek(), Some(&1));
    assert_eq!(drained(merged), vec![1, 2, 3, 4, 5]);
}

#[test]
fn clone_leaves_the_source_as_it_was() {
    let heap = filled(HeapType::Min, &[9, 7, 8, 1, 6]);
    let mut copy = heap.clone();
    assert_eq!(copy.pop(), Some(1));
    assert_eq!(copy.len(), 4);
    assert_eq!(heap.len(), 5);
    assert_eq!(heap.peek(), Some(&1));
    assert_eq!(drained(heap), vec![1, 6, 7, 8, 9]);
}

#[test]
fn to_vec_takes_every_value_out() {
    let mut heap = filled(HeapType::Min, &[3, 1, 2]);
    let mut values = heap.to_vec();
    values.sort();
    assert_eq!(values, vec![1, 2, 3]);
    assert_eq!(heap.len(), 0);
    assert_eq!(heap.peek(), None);
}

#[test]
fn push_all_puts_every_value_in() {
    let mut heap = filled(HeapType::Max, &[3]);
    heap.push_all(vec![1, 9, 2]);
    assert_eq!(heap.len(), 4);
    assert_eq!(drained(heap), vec![9, 3, 2, 1]);
}

#[test]
fn is_correct_follows_the_ordering() {
    assert!(HeapType::Min.is_correct(&1, &2));
    assert!(!HeapType::Min.is_correct(&2, &1));
    assert!(!HeapType::Min.is_correct(&2, &2));
    assert!(HeapType::Max.is_correct(&2, &1));
    assert!(!HeapType::Max.is_correct(&1, &2));
    assert!(!HeapType::Max.is_correct(&2, &2));
    assert!(HeapType::Min == HeapType::Min);
    assert!(HeapType::Min != HeapType::Max);
}

#[test]
fn heap_type_match_tells_the_four_cases() {
    assert_eq!(heap_type_match(HeapType::Min, HeapType::Min, HeapType::Min), HeapTypeMatch::All);
    assert_eq!(heap_type_match(HeapType::Min, HeapType::Min, HeapType::Max), HeapTypeMatch::First);
    assert_eq!(heap_type_match(HeapType::Min, HeapType::Max, HeapType::Min), HeapTypeMatch::Second);
    assert_eq!(heap_type_match(HeapType::Min, HeapType::Max, HeapType::Max), HeapTypeMatch::Neither);
}

#[test]
fn merge_trees_puts_the_better_root_on_top() {
    let low = BinomialTree::from(1);
    let high = BinomialTree::from(2);
    let tree = BinomialHeap::merge_trees(low, high, HeapType::Min);
    assert_eq!(tree.rank, 1);
    assert_eq!(tree.value, 1);
    assert_eq!(tree.subtrees.len(), 1);
    assert_eq!(tree.subtrees[0].value, 2);

    let tree = BinomialHeap::merge_trees(BinomialTree::from(1), BinomialTree::from(2), HeapType::Max);
    assert_eq!(tree.value, 2);
    assert_eq!(tree.subtrees[0].value, 1);

    let tree = BinomialHeap::merge_trees(BinomialTree::from(3), BinomialTree::from(3), HeapType::Min);
    assert_eq!(tree.rank, 1);
    assert_eq!(tree.to_vec(), vec![3, 3]);
}

#[test]
fn tree_walk_starts_at_the_root() {
    let left = BinomialHeap::merge_trees(BinomialTree::from(1), BinomialTree::from(4), HeapType::Min);
    let right = BinomialHeap::merge_trees(BinomialTree::from(2), BinomialTree::from(3), HeapType::Min);
    let tree = BinomialHeap::merge_trees(left, right, HeapType::Min);
    assert_eq!(tree.rank, 2);
    assert_eq!(tree.clone().to_vec(), vec![1, 4, 2, 3]);
    let mut out = vec![0];
    tree.fill_vec(&mut out);
    assert_eq!(out, vec![0, 1, 4, 2, 3]);
}

#[test]
fn merge_bucket_is_last_in_first_out_and_holds_three() {
    let mut bucket = MergeBucket::new();
    assert_eq!(bucket.len(), 0);
    assert!(bucket.pop().is_none());
    bucket.push(Box::new(BinomialTree::from(1)));
    bucket.push(Box::new(BinomialTree::from(2)));
    bucket.push(Box::new(BinomialTree::from(3)));
    bucket.push(Box::new(BinomialTree::from(4)));
    assert_eq!(bucket.len(), 3);
    assert_eq!(bucket.pop().unwrap().value, 3);
    assert_eq!(bucket.pop().unwrap().value, 2);
    assert_eq!(bucket.len(), 1);
    assert_eq!(bucket.pop().unwrap().value, 1);
    assert!(bucket.pop().is_none());
    assert_eq!(bucket.len(), 0);
}
