use crate::container::HasLength;
use crate::heaps::heap::{faithful_clone, is_best, lawful_order, Heap, HeapType};
use vstd::arithmetic::power2::lemma2_to64;
use vstd::bits::{lemma_usize_shl_is_mul, lemma_usize_shr_is_div};
use vstd::multiset::Multiset;
use vstd::prelude::*;

verus! {

/// `<[T]>::swap` of std: exchanges the values at two positions of a slice
/// and leaves the others as they are. It panics on a position outside the
/// slice, so both must lie inside.
pub assume_specification<E>[ <[E]>::swap ](slice: &mut [E], a: usize, b: usize)
    requires
        a < old(slice)@.len(),
        b < old(slice)@.len(),
    ensures
        final(slice)@ == old(slice)@.update(a as int, old(slice)@[b as int]).update(
            b as int,
            old(slice)@[a as int],
        ),
;

/// The position above `i` in a heap laid out in a sequence.
pub open spec fn parent(i: int) -> int {
    (i - 1) / 2
}

/// From position `lo` on, no value is strictly better than the one above it:
/// this holds of every position whose parent is at `lo` or after it.
pub open spec fn ordered_from<T: PartialOrd>(s: Seq<T>, policy: HeapType, lo: int) -> bool {
    forall|i: int| 0 < i < s.len() && parent(i) >= lo ==> !policy.better(#[trigger] s[i], s[parent(i)])
}

/// Heap order: no value is strictly better than the one above it.
pub open spec fn heap_ordered<T: PartialOrd>(s: Seq<T>, policy: HeapType) -> bool {
    ordered_from(s, policy, 0)
}

/// The state in which the value at `k` can sink: from `lo` on only the
/// positions below `k` may be out of order, and they are in order with the
/// position above `k`.
pub open spec fn sink_ready<T: PartialOrd>(s: Seq<T>, policy: HeapType, lo: int, k: int) -> bool {
    &&& forall|i: int|
        0 < i < s.len() && parent(i) >= lo && parent(i) != k ==> !policy.better(#[trigger] s[i], s[parent(i)])
    &&& k > 0 && parent(k) >= lo ==> forall|i: int|
        0 < i < s.len() && parent(i) == k ==> !policy.better(#[trigger] s[i], s[parent(k)])
}

/// The state in which the value at `k` can rise: only `k` may be out of
/// order with the position above it, and the positions below `k` are in
/// order with the position above `k`.
pub open spec fn rise_ready<T: PartialOrd>(s: Seq<T>, policy: HeapType, k: int) -> bool {
    &&& forall|i: int| 0 < i < s.len() && i != k ==> !policy.better(#[trigger] s[i], s[parent(i)])
    &&& k > 0 ==> forall|i: int|
        0 < i < s.len() && parent(i) == k ==> !policy.better(#[trigger] s[i], s[parent(k)])
}

/// `s` with the values at `a` and `b` exchanged.
pub open spec fn swapped<T>(s: Seq<T>, a: int, b: int) -> Seq<T> {
    s.update(a, s[b]).update(b, s[a])
}

/// Replacing one value of a sequence trades it for the new one.
pub proof fn lemma_update_multiset<T>(s: Seq<T>, i: int, v: T)
    requires
        0 <= i < s.len(),
    ensures
        s.update(i, v).to_multiset() == s.to_multiset().remove(s[i]).insert(v),
{
    assert(s.update(i, v) =~= s.remove(i).insert(i, v));
    vstd::seq_lib::to_multiset_remove(s, i);
    vstd::seq_lib::to_multiset_insert(s.remove(i), i, v);
}

/// Exchanging two values of a sequence keeps the values it holds.
pub proof fn lemma_swap_multiset<T>(s: Seq<T>, a: int, b: int)
    requires
        0 <= a < s.len(),
        0 <= b < s.len(),
    ensures
        swapped(s, a, b).to_multiset() == s.to_multiset(),
{
    broadcast use vstd::seq_lib::group_to_multiset_ensures;

    let mid = s.update(a, s[b]);
    lemma_update_multiset(s, a, s[b]);
    lemma_update_multiset(mid, b, s[a]);
    assert(s.to_multiset().contains(s[a])) by {
        assert(s.contains(s[a]));
    }
    assert(mid.to_multiset().contains(mid[b])) by {
        assert(mid.contains(mid[b]));
    }
    assert(swapped(s, a, b).to_multiset() =~= s.to_multiset());
}

/// Under a strict weak order, no value of a sequence in heap order is
/// strictly better than the first.
pub proof fn lemma_first_best<T: PartialOrd>(s: Seq<T>, policy: HeapType, i: int)
    requires
        policy.strict_weak::<T>(),
        heap_ordered(s, policy),
        0 <= i < s.len(),
    ensures
        !policy.better(s[i], s[0]),
    decreases i,
{
    if i == 0 {
        assert(policy.better(s[0], s[0]) ==> !policy.better(s[0], s[0]));
    } else {
        lemma_first_best(s, policy, parent(i));
        assert(!policy.better(s[i], s[parent(i)]));
    }
}

/// Under a strict weak order, the first value of a sequence in heap order
/// is a best value of the sequence.
pub proof fn lemma_first_is_best<T: PartialOrd>(s: Seq<T>, policy: HeapType)
    requires
        policy.strict_weak::<T>(),
        heap_ordered(s, policy),
        s.len() > 0,
    ensures
        is_best(policy, s[0], s.to_multiset()),
{
    broadcast use vstd::seq_lib::group_to_multiset_ensures;

    assert forall|y: T| s.to_multiset().contains(y) implies !policy.better(y, s[0]) by {
        assert(s.contains(y));
        let i = choose|i: int| 0 <= i < s.len() && s[i] == y;
        lemma_first_best(s, policy, i);
    }
}

/// A binary heap laid out in a vector: the values below position `i` are at
/// `2 * i + 1` and `2 * i + 2`.
pub struct BinaryHeap<T: PartialOrd + Clone> {
    elements: Vec<T>,
    h_type: HeapType,
}

impl<T: PartialOrd + Clone> BinaryHeap<T> {
    /// The values in the order in which the vector holds them.
    pub closed spec fn items(&self) -> Seq<T> {
        self.elements@
    }

    /// An empty heap that orders its values as `heap_type` says.
    pub fn new(heap_type: HeapType) -> (r: Self)
        ensures
            r.wf(),
            r.policy() == heap_type,
            r@ == Multiset::<T>::empty(),
            r.items() == Seq::<T>::empty(),
    {
        let r = Self { elements: Vec::new(), h_type: heap_type };
        proof {
            assert(r.elements@.to_multiset() =~= Multiset::<T>::empty()) by {
                broadcast use vstd::seq_lib::group_to_multiset_ensures;

                assert(r.elements@.to_multiset().len() == 0);
            }
        }
        r
    }

    /// The heap of the values of `elements` that hands out the least first.
    pub fn build_min(elements: Vec<T>) -> (r: Self)
        ensures
            r.wf(),
            r.policy() == HeapType::Min,
            r@ == elements@.to_multiset(),
    {
        let mut result = Self { elements, h_type: HeapType::Min };
        result.rebuild_heap();
        result
    }

    /// The heap of the values of `elements` that hands out the greatest first.
    pub fn build_max(elements: Vec<T>) -> (r: Self)
        ensures
            r.wf(),
            r.policy() == HeapType::Max,
            r@ == elements@.to_multiset(),
    {
        let mut result = Self { elements, h_type: HeapType::Max };
        result.rebuild_heap();
        result
    }

    /// In a heap that keeps its invariant, over values with a lawful order,
    /// no value is strictly better than the one above it.
    pub proof fn lemma_heap_order(&self)
        requires
            self.wf(),
            lawful_order::<T>(),
        ensures
            heap_ordered(self.items(), self.policy()),
    {
    }

    /// The heap counts the values that it holds.
    pub proof fn lemma_len(&self)
        ensures
            self.spec_len() == self@.len(),
            self.spec_len() == self.items().len(),
            self@ == self.items().to_multiset(),
    {
        vstd::seq_lib::to_multiset_len(self.elements@);
    }

    /// The number of values held.
    pub fn len(&self) -> (n: usize)
        ensures
            n == self.items().len(),
            n == self@.len(),
    {
        proof {
            vstd::seq_lib::to_multiset_len(self.elements@);
        }
        self.elements.len()
    }

    /// Whether the heap holds nothing.
    pub fn is_empty(&self) -> (b: bool)
        ensures
            b <==> self@.len() == 0,
    {
        self.len() == 0
    }

    /// Brings the whole vector into heap order, from the last position that
    /// has one below it up to the first.
    fn rebuild_heap(&mut self)
        ensures
            final(self).wf(),
            final(self).h_type == old(self).h_type,
            final(self).elements@.to_multiset() == old(self).elements@.to_multiset(),
            final(self).elements@.len() == old(self).elements@.len(),
    {
        proof {
            lemma2_to64();
            lemma_usize_shr_is_div(self.elements.len(), 1);
        }
        let mut index: usize = self.len() >> 1;
        while index > 0
            invariant
                index <= self.elements@.len() / 2,
                self.h_type == old(self).h_type,
                self.elements@.to_multiset() == old(self).elements@.to_multiset(),
                self.elements@.len() == old(self).elements@.len(),
                lawful_order::<T>() ==> ordered_from(self.elements@, self.h_type, index as int),
            decreases index,
        {
            index -= 1;
            self.heapify(index, Ghost(index as int));
        }
    }

    /// Lets the value at `index` sink until neither value below it is
    /// strictly better.
    fn heapify(&mut self, index: usize, Ghost(lo): Ghost<int>)
        requires
            0 <= lo <= index,
            lawful_order::<T>() ==> sink_ready(old(self).elements@, old(self).h_type, lo, index as int),
        ensures
            final(self).h_type == old(self).h_type,
            final(self).elements@.to_multiset() == old(self).elements@.to_multiset(),
            final(self).elements@.len() == old(self).elements@.len(),
            lawful_order::<T>() ==> ordered_from(final(self).elements@, final(self).h_type, lo),
        decreases old(self).elements@.len() - index,
    {
        proof {
            lemma2_to64();
            lemma_usize_shr_is_div(self.elements.len(), 1);
        }
        if index >= self.len() >> 1 {
            return;
        }
        proof {
            lemma_usize_shl_is_mul(index, 1);
        }
        let mut temp = index;
        let left_index = (index << 1) + 1;
        let right_index = (index << 1) + 2;

        if (left_index < self.len()) && !(self.h_type.is_correct(
            &self.elements[temp],
            &self.elements[left_index],
        )) {
            temp = left_index;
        }
        if (right_index < self.len()) && !(self.h_type.is_correct(
            &self.elements[temp],
            &self.elements[right_index],
        )) {
            temp = right_index;
        }
        if temp != index {
            let ghost before = self.elements@;
            self.elements.swap(index, temp);
            proof {
                lemma_swap_multiset(before, index as int, temp as int);
                if lawful_order::<T>() {
                    lemma_sink_step(before, self.h_type, lo, index as int, temp as int);
                }
            }
            self.heapify(temp, Ghost(lo));
        }
    }

    /// Lets the value at `index` rise until the one above it is strictly
    /// better.
    fn fix_heap(&mut self, index: usize)
        requires
            index < old(self).elements@.len(),
            lawful_order::<T>() ==> rise_ready(old(self).elements@, old(self).h_type, index as int),
        ensures
            final(self).h_type == old(self).h_type,
            final(self).elements@.to_multiset() == old(self).elements@.to_multiset(),
            final(self).elements@.len() == old(self).elements@.len(),
            lawful_order::<T>() ==> heap_ordered(final(self).elements@, final(self).h_type),
        decreases index,
    {
        if index > 0 {
            proof {
                lemma2_to64();
                lemma_usize_shr_is_div((index - 1) as usize, 1);
            }
            let parent = (index - 1) >> 1;
            if !self.h_type.is_correct(&self.elements[parent], &self.elements[index]) {
                let ghost before = self.elements@;
                self.elements.swap(index, parent);
                proof {
                    lemma_swap_multiset(before, index as int, parent as int);
                    if lawful_order::<T>() {
                        lemma_rise_step(before, self.h_type, index as int);
                    }
                }
                self.fix_heap(parent);
            }
        }
    }
}

/// After the better of the values below `k` has changed places with the
/// value at `k`, the value that went down can sink on from there.
proof fn lemma_sink_step<T: PartialOrd>(s: Seq<T>, policy: HeapType, lo: int, k: int, c: int)
    requires
        policy.strict_weak::<T>(),
        0 <= lo <= k,
        sink_ready(s, policy, lo, k),
        0 < c < s.len(),
        parent(c) == k,
        !policy.better(s[k], s[c]),
        forall|i: int| 0 < i < s.len() && parent(i) == k && i != c ==> !policy.better(#[trigger] s[i], s[c]),
    ensures
        sink_ready(swapped(s, k, c), policy, lo, c),
{
    let t = swapped(s, k, c);
    assert forall|i: int| 0 < i < t.len() && parent(i) >= lo && parent(i) != c implies !policy.better(
        #[trigger] t[i],
        t[parent(i)],
    ) by {
        if i == c {
        } else if i == k {
            assert(!policy.better(s[c], s[parent(k)]));
        } else if parent(i) == k {
            assert(!policy.better(s[i], s[c]));
        } else {
            assert(!policy.better(s[i], s[parent(i)]));
        }
    }
    assert forall|i: int| 0 < i < t.len() && parent(i) == c implies !policy.better(#[trigger] t[i], t[parent(c)]) by {
        assert(!policy.better(s[i], s[parent(i)]));
    }
}

/// After the value at `k` has changed places with the one above it, it can
/// rise on from there.
proof fn lemma_rise_step<T: PartialOrd>(s: Seq<T>, policy: HeapType, k: int)
    requires
        policy.strict_weak::<T>(),
        0 < k < s.len(),
        rise_ready(s, policy, k),
        !policy.better(s[parent(k)], s[k]),
    ensures
        rise_ready(swapped(s, k, parent(k)), policy, parent(k)),
{
    let p = parent(k);
    let t = swapped(s, k, p);
    assert forall|i: int| 0 < i < t.len() && i != p implies !policy.better(#[trigger] t[i], t[parent(i)]) by {
        if i == k {
        } else if parent(i) == k {
            assert(!policy.better(s[i], s[p]));
        } else if parent(i) == p {
            assert(!policy.better(s[i], s[p]));
            assert(!policy.better(s[p], s[k]));
        } else {
            assert(!policy.better(s[i], s[parent(i)]));
        }
    }
    if p > 0 {
        assert forall|i: int| 0 < i < t.len() && parent(i) == p implies !policy.better(
            #[trigger] t[i],
            t[parent(p)],
        ) by {
            assert(!policy.better(s[p], s[parent(p)]));
            if i != k {
                assert(!policy.better(s[i], s[p]));
            }
        }
    }
}

impl<T: PartialOrd + Clone> Clone for BinaryHeap<T> {
    /// The clone has the direction of the heap and, place by place, a clone
    /// of each of its values. Where cloning a `T` is faithful, it holds the
    /// values of the heap in the same places and keeps the invariant.
    fn clone(&self) -> (r: Self)
        ensures
            r.policy() == self.policy(),
            r.items().len() == self.items().len(),
            forall|i: int| 0 <= i < self.items().len() ==> cloned(#[trigger] self.items()[i], r.items()[i]),
            faithful_clone::<T>() ==> r.items() == self.items() && r@ == self@ && (self.wf() ==> r.wf()),
    {
        let r = BinaryHeap { elements: self.elements.clone(), h_type: self.h_type };
        proof {
            if faithful_clone::<T>() {
                assert forall|i: int| 0 <= i < self.elements@.len() implies r.elements@[i]
                    == self.elements@[i] by {
                    assert(cloned(self.elements@[i], r.elements@[i]));
                }
                assert(r.elements@ =~= self.elements@);
            }
        }
        r
    }
}

impl<T: PartialOrd + Clone> HasLength for BinaryHeap<T> {
    closed spec fn spec_len(&self) -> nat {
        self.elements@.len()
    }

    fn len(&self) -> (n: usize) {
        self.elements.len()
    }
}

impl<T: PartialOrd + Clone> Heap<T> for BinaryHeap<T> {
    closed spec fn wf(&self) -> bool {
        lawful_order::<T>() ==> heap_ordered(self.elements@, self.h_type)
    }

    closed spec fn policy(&self) -> HeapType {
        self.h_type
    }

    closed spec fn view(&self) -> Multiset<T> {
        self.elements@.to_multiset()
    }

    fn peek(&self) -> (r: Option<&T>)
        ensures
            r is Some ==> *r.unwrap() == self.items()[0],
    {
        broadcast use vstd::seq_lib::group_to_multiset_ensures;

        if self.is_empty() {
            None
        } else {
            proof {
                assert(self.elements@.contains(self.elements@[0]));
                if lawful_order::<T>() {
                    lemma_first_is_best(self.elements@, self.h_type);
                }
            }
            Some(&self.elements[0])
        }
    }

    fn push(&mut self, value: T) {
        proof {
            vstd::seq_lib::to_multiset_build(self.elements@, value);
        }
        self.elements.push(value);
        let index = self.elements.len() - 1;
        self.fix_heap(index);
    }

    fn pop(&mut self) -> (r: Option<T>)
        ensures
            r is Some ==> r.unwrap() == old(self).items()[0],
    {
        broadcast use vstd::seq_lib::group_to_multiset_ensures;

        if self.is_empty() {
            None
        } else {
            let ghost before = self.elements@;
            let last = self.len() - 1;
            self.elements.swap(0, last);
            let ghost mid = self.elements@;
            let result = self.elements.pop();
            proof {
                lemma_swap_multiset(before, 0, last as int);
                assert(self.elements@ =~= mid.remove(last as int));
                vstd::seq_lib::to_multiset_remove(mid, last as int);
                assert(before.contains(before[0]));
                if lawful_order::<T>() {
                    lemma_first_is_best(before, self.h_type);
                }
            }
            if !self.is_empty() {
                self.heapify(0, Ghost(0));
            }
            result
        }
    }

    fn meld(&mut self, other: &mut Self)
        ensures
            final(self).spec_len() == old(self).spec_len() + old(other).spec_len(),
            final(other).spec_len() == 0,
    {
        proof {
            vstd::seq_lib::lemma_multiset_commutative(self.elements@, other.elements@);
            vstd::seq_lib::to_multiset_len(self.elements@);
            vstd::seq_lib::to_multiset_len(other.elements@);
            vstd::seq_lib::to_multiset_len(Seq::<T>::empty());
        }
        self.elements.append(&mut other.elements);
        self.rebuild_heap();
        proof {
            assert(other.elements@.to_multiset() =~= Multiset::<T>::empty());
        }
    }

    fn merge(self, other: Self, new_heap_type: HeapType) -> (r: Self) {
        proof {
            vstd::seq_lib::lemma_multiset_commutative(self.elements@, other.elements@);
            vstd::seq_lib::to_multiset_len(self.elements@);
            vstd::seq_lib::to_multiset_len(other.elements@);
        }
        let mut result = Self {
            elements: Vec::with_capacity(self.len() + other.len()),
            h_type: new_heap_type,
        };
        let mut first = self.elements;
        let mut second = other.elements;
        result.elements.append(&mut first);
        result.elements.append(&mut second);
        result.rebuild_heap();
        result
    }
}

} // verus!
