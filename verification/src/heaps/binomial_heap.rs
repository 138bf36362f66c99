use crate::container::HasLength;
use crate::heaps::binomial_tree::BinomialTree;
use crate::heaps::forest::{
    best_slot, lemma_best_root, lemma_slots_fill, lemma_slots_flat_elems, lemma_slots_member,
    lemma_slots_mirror, lemma_slots_of_forest, lemma_slots_push, lemma_slots_take,
    lemma_slots_vacant, lemma_slots_weight, slot_elems, slot_mirrors, slots_elems, slots_flat,
    slots_ordered, slots_shaped, slots_weight,
};
use crate::heaps::heap::{faithful_clone, lawful_order, obeys_order, Heap, HeapType};
use vstd::arithmetic::power2::{lemma2_to64, lemma2_to64_rest, lemma_pow2_strictly_increases, pow2};
use vstd::multiset::Multiset;
use vstd::prelude::*;

verus! {

/// A binomial heap: a forest with at most one binomial tree of each rank,
/// the tree of rank `i` in slot `i`.
pub struct BinomialHeap<T: PartialOrd + Clone> {
    pointer: usize,
    h_type: HeapType,
    length: usize,
    trees: Vec<Option<Box<BinomialTree<T>>>>,
}

impl<T: PartialOrd + Clone> BinomialHeap<T> {
    /// The forest, slot by slot.
    pub closed spec fn forest(&self) -> Seq<Option<Box<BinomialTree<T>>>> {
        self.trees@
    }

    /// The slot whose root `peek` and `pop` hand out.
    pub closed spec fn best(&self) -> int {
        self.pointer as int
    }

    /// What holds of the forest whatever the slot of the best root is.
    pub closed spec fn forest_wf(&self) -> bool {
        &&& slots_shaped(self.trees@)
        &&& self.length == slots_elems(self.trees@).len()
        &&& lawful_order::<T>() ==> slots_ordered(self.trees@, self.h_type)
    }

    /// What holds of the slot of the best root in a heap that is not empty.
    pub closed spec fn pointer_wf(&self) -> bool {
        self.length > 0 ==> {
            &&& self.pointer < self.trees@.len()
            &&& self.trees@[self.pointer as int] is Some
            &&& lawful_order::<T>() ==> best_slot(self.trees@, self.h_type, self.pointer as int)
        }
    }

    /// In a heap that keeps its invariant, slot `i` holds no tree or a
    /// binomial tree of rank `i`, and the heap counts `2^i` values for each
    /// occupied slot `i`: as many as it holds.
    pub proof fn lemma_forest_rank(&self)
        requires
            self.wf(),
        ensures
            slots_shaped(self.forest()),
            self.spec_len() == slots_weight(self.forest()),
            self.spec_len() == self@.len(),
            self@ == slots_elems(self.forest()),
    {
        lemma_slots_weight(self.trees@);
    }

    /// In a heap that keeps its invariant, over values with a lawful order,
    /// no tree holds a value that is strictly better than the one above it.
    pub proof fn lemma_heap_order(&self)
        requires
            self.wf(),
            lawful_order::<T>(),
        ensures
            slots_ordered(self.forest(), self.policy()),
    {
    }

    /// In a heap that keeps its invariant and is not empty, the best slot is
    /// occupied; over values with a lawful order its root is strictly better
    /// than every root before it, and no root after it is strictly better.
    pub proof fn lemma_best_slot(&self)
        requires
            self.wf(),
            self@.len() > 0,
        ensures
            0 <= self.best() < self.forest().len(),
            self.forest()[self.best()] is Some,
            lawful_order::<T>() ==> best_slot(self.forest(), self.policy(), self.best()),
    {
    }

    /// An empty heap that orders its values as `heap_type` says.
    pub fn new(heap_type: HeapType) -> (r: Self)
        ensures
            r.wf(),
            r.policy() == heap_type,
            r@ == Multiset::<T>::empty(),
    {
        Self { pointer: 0, h_type: heap_type, length: 0, trees: Vec::new() }
    }

    /// Joins two trees of one rank into a tree of the next rank: the root
    /// that is not strictly worse stays on top, the other tree becomes its
    /// last subtree.
    pub fn merge_trees(mut first: BinomialTree<T>, mut second: BinomialTree<T>, heap_type: HeapType) -> (result:
        BinomialTree<T>)
        requires
            first.shaped(),
            second.shaped(),
            first.rank == second.rank,
            first.rank < usize::MAX,
        ensures
            result.shaped(),
            result.rank == first.rank + 1,
            result.elems() == first.elems().add(second.elems()),
            obeys_order::<T>() ==> (if heap_type.better(first.value, second.value) {
                result.value == first.value && result.subtrees@ == first.subtrees@.push(Box::new(second))
            } else {
                result.value == second.value && result.subtrees@ == second.subtrees@.push(Box::new(first))
            }),
            lawful_order::<T>() && first.ordered(heap_type) && second.ordered(heap_type) ==> result.ordered(
                heap_type,
            ),
    {
        let mut result;
        if heap_type.is_correct(&first.value, &second.value) {
            proof {
                BinomialTree::lemma_forest_push(first.subtrees@, Box::new(second));
            }
            first.subtrees.push(Box::new(second));
            result = first;
        } else {
            proof {
                BinomialTree::lemma_forest_push(second.subtrees@, Box::new(first));
            }
            second.subtrees.push(Box::new(first));
            result = second;
        }
        result.rank += 1;
        result
    }
}

impl<T: PartialOrd + Clone> BinomialHeap<T> {
    /// Finds the slot of the best root: the first one whose root no other
    /// root is strictly better than.
    fn update_pointer(&mut self)
        requires
            old(self).forest_wf(),
        ensures
            final(self).forest_wf(),
            final(self).pointer_wf(),
            final(self).trees@ == old(self).trees@,
            final(self).h_type == old(self).h_type,
            final(self).length == old(self).length,
    {
        let mut best_idx: Option<usize> = None;
        let mut i: usize = 0;
        while i < self.trees.len()
            invariant
                i <= self.trees@.len(),
                self.trees@ == old(self).trees@,
                self.h_type == old(self).h_type,
                self.length == old(self).length,
                best_idx is None ==> forall|j: int| 0 <= j < i ==> (#[trigger] self.trees@[j]) is None,
                best_idx is Some ==> best_idx.unwrap() < i && self.trees@[best_idx.unwrap() as int] is Some,
                best_idx is Some && lawful_order::<T>() ==> forall|j: int|
                    0 <= j < best_idx.unwrap() && (#[trigger] self.trees@[j]) is Some
                        ==> self.h_type.better(
                        self.trees@[best_idx.unwrap() as int].unwrap().value,
                        self.trees@[j].unwrap().value,
                    ),
                best_idx is Some && lawful_order::<T>() ==> forall|j: int|
                    best_idx.unwrap() < j < i && (#[trigger] self.trees@[j]) is Some
                        ==> !self.h_type.better(
                        self.trees@[j].unwrap().value,
                        self.trees@[best_idx.unwrap() as int].unwrap().value,
                    ),
            decreases self.trees@.len() - i,
        {
            if let Some(tree) = self.trees[i].as_ref() {
                if let Some(bi) = best_idx {
                    let best_val = &self.trees[bi].as_ref().unwrap().value;
                    if self.h_type.is_correct(&tree.value, best_val) {
                        best_idx = Some(i);
                    }
                } else {
                    best_idx = Some(i);
                }
            }
            i += 1;
        }
        proof {
            if best_idx is None {
                lemma_slots_vacant(self.trees@);
            }
        }
        self.pointer = best_idx.unwrap_or(0);
    }
}

impl<T: PartialOrd + Clone> BinomialHeap<T> {
    /// Takes every value out of the heap, in the order of `slots_flat`.
    pub fn to_vec(&mut self) -> (result: Vec<T>)
        requires
            old(self).wf(),
        ensures
            final(self).wf(),
            final(self).policy() == old(self).policy(),
            final(self)@ == Multiset::<T>::empty(),
            result@ == slots_flat(old(self).forest()),
            result@.to_multiset() == old(self)@,
    {
        let mut result = Vec::with_capacity(self.len());
        let mut trees: Vec<Option<Box<BinomialTree<T>>>> = Vec::new();
        core::mem::swap(&mut trees, &mut self.trees);
        self.length = 0;
        self.pointer = 0;
        proof {
            lemma_slots_flat_elems(trees@);
        }
        for slot in it: trees
            invariant
                result@ == slots_flat(trees@.take(it.index())),
        {
            let ghost i = it.index();
            proof {
                assert(trees@.take(i + 1).drop_last() =~= trees@.take(i));
            }
            if let Some(tree) = slot {
                let mut part = (*tree).to_vec();
                result.append(&mut part);
            }
        }
        proof {
            assert(trees@.take(trees@.len() as int) =~= trees@);
        }
        result
    }

    /// Puts every value of `values` into the heap, first to last.
    pub fn push_all(&mut self, values: Vec<T>)
        requires
            old(self).wf(),
            old(self)@.len() + values@.len() <= usize::MAX,
        ensures
            final(self).wf(),
            final(self).policy() == old(self).policy(),
            final(self)@ == old(self)@.add(values@.to_multiset()),
        decreases 2int,
    {
        broadcast use vstd::seq_lib::group_to_multiset_ensures;

        proof {
            assert(values@.take(0) =~= Seq::<T>::empty());
            assert(old(self)@.add(Seq::<T>::empty().to_multiset()) =~= old(self)@);
        }
        for value in it: values
            invariant
                self.wf(),
                self.policy() == old(self).policy(),
                self@ == old(self)@.add(values@.take(it.index()).to_multiset()),
                old(self)@.len() + values@.len() <= usize::MAX,
        {
            let ghost i = it.index();
            proof {
                assert(0 <= i < values@.len());
                assert(values@.take(i + 1) =~= values@.take(i).push(value));
                vstd::seq_lib::to_multiset_len(values@.take(i));
                vstd::seq_lib::to_multiset_build(values@.take(i), value);
                assert(old(self)@.add(values@.take(i).to_multiset()).insert(value) =~= old(self)@.add(
                    values@.take(i).push(value).to_multiset(),
                ));
            }
            self.push(value);
        }
        proof {
            assert(values@.take(values@.len() as int) =~= values@);
        }
    }
}

/// A forest that was lengthened by vacant slots holds what it held before.
proof fn lemma_slots_padded<T: PartialOrd + Clone>(
    before: Seq<Option<Box<BinomialTree<T>>>>,
    after: Seq<Option<Box<BinomialTree<T>>>>,
)
    requires
        before.len() <= after.len(),
        after.subrange(0, before.len() as int) == before,
        forall|i: int| before.len() <= i < after.len() ==> (#[trigger] after[i]) is None,
    ensures
        slots_elems(after) == slots_elems(before),
        slots_shaped(before) ==> slots_shaped(after),
        forall|policy: HeapType| slots_ordered(before, policy) ==> slots_ordered(after, policy),
    decreases after.len(),
{
    if before.len() == after.len() {
        assert(after =~= before);
    } else {
        assert(after.drop_last().subrange(0, before.len() as int) =~= after.subrange(0, before.len() as int));
        lemma_slots_padded(before, after.drop_last());
        assert(slots_elems(after) =~= slots_elems(after.drop_last()));
    }
    assert forall|i: int| 0 <= i < before.len() implies after[i] == before[i] by {
        assert(after.subrange(0, before.len() as int)[i] == after[i]);
    }
}

/// A tree whose `2^k` values can be counted in a `usize` has a rank that a
/// shift of a `usize` accepts.
proof fn lemma_rank_fits(k: nat)
    requires
        pow2(k) <= usize::MAX,
    ensures
        k < usize::BITS,
        k <= usize::MAX,
        (1usize << (k as usize)) == pow2(k),
{
    lemma2_to64();
    lemma2_to64_rest();
    if k >= usize::BITS {
        if k > usize::BITS {
            lemma_pow2_strictly_increases(usize::BITS as nat, k);
        }
        assert(false);
    }
    vstd::bits::lemma_usize_shl_is_mul(1usize, k as usize);
}

/// What a sequence of at most three trees holds, tree by tree.
proof fn lemma_forest_elems_small<T: PartialOrd + Clone>(s: Seq<Box<BinomialTree<T>>>)
    requires
        s.len() <= 3,
    ensures
        s.len() == 0 ==> BinomialTree::forest_elems(s) == Multiset::<T>::empty(),
        s.len() == 1 ==> BinomialTree::forest_elems(s) == s[0].elems(),
        s.len() == 2 ==> BinomialTree::forest_elems(s) == s[0].elems().add(s[1].elems()),
        s.len() == 3 ==> BinomialTree::forest_elems(s) == s[0].elems().add(s[1].elems()).add(s[2].elems()),
    decreases s.len(),
{
    if s.len() > 0 {
        lemma_forest_elems_small(s.drop_last());
        if s.len() == 1 {
            assert(BinomialTree::forest_elems(s) =~= s[0].elems());
        }
    }
}

/// What a bucket holds after the trees of three slots were put into it.
proof fn lemma_bucket_elems<T: PartialOrd + Clone>(
    held: Seq<Box<BinomialTree<T>>>,
    a: Option<Box<BinomialTree<T>>>,
    b: Option<Box<BinomialTree<T>>>,
    c: Option<Box<BinomialTree<T>>>,
)
    requires
        held == slot_seq(a) + slot_seq(b) + slot_seq(c),
    ensures
        BinomialTree::forest_elems(held) == slot_elems(a).add(slot_elems(b)).add(slot_elems(c)),
{
    lemma_forest_elems_small(held);
    assert(BinomialTree::forest_elems(held) =~= slot_elems(a).add(slot_elems(b)).add(slot_elems(c)));
}

/// The tree of a slot as a sequence of one, or of none.
spec fn slot_seq<T: PartialOrd + Clone>(slot: Option<Box<BinomialTree<T>>>) -> Seq<Box<BinomialTree<T>>> {
    match slot {
        Some(t) => seq![t],
        None => Seq::empty(),
    }
}

impl<T: PartialOrd + Clone> Clone for BinomialHeap<T> {
    /// The clone has the direction and the count of the heap, and in each
    /// slot a clone of the tree that the heap has there. Where cloning a `T`
    /// is faithful, it holds the values of the heap and keeps the invariant.
    fn clone(&self) -> (r: Self)
        ensures
            r.policy() == self.policy(),
            r.spec_len() == self.spec_len(),
            r.best() == self.best(),
            r.forest().len() == self.forest().len(),
            forall|i: int| 0 <= i < self.forest().len() ==> slot_mirrors(#[trigger] r.forest()[i], self.forest()[i]),
            faithful_clone::<T>() && self.wf() ==> r.wf() && r@ == self@,
    {
        let r = BinomialHeap {
            pointer: self.pointer,
            h_type: self.h_type,
            length: self.length,
            trees: self.trees.clone(),
        };
        proof {
            assert forall|i: int| 0 <= i < self.trees@.len() implies slot_mirrors(
                #[trigger] r.trees@[i],
                self.trees@[i],
            ) by {
                assert(cloned(self.trees@[i], r.trees@[i]));
            }
            if faithful_clone::<T>() && self.wf() {
                lemma_slots_mirror(r.trees@, self.trees@);
            }
        }
        r
    }
}

impl<T: PartialOrd + Clone> HasLength for BinomialHeap<T> {
    closed spec fn spec_len(&self) -> nat {
        self.length as nat
    }

    fn len(&self) -> (n: usize) {
        self.length
    }
}

/// Which of two heaps already have the ordering wanted of their merge.
#[derive(Clone, Copy, PartialEq, Eq, Structural, Debug)]
pub enum HeapTypeMatch {
    All,
    First,
    Second,
    Neither,
}

/// Tells which of `first_type` and `second_type` are `main_type`.
pub fn heap_type_match(main_type: HeapType, first_type: HeapType, second_type: HeapType) -> (r:
    HeapTypeMatch)
    ensures
        r == (if first_type == main_type && second_type == main_type {
            HeapTypeMatch::All
        } else if first_type == main_type {
            HeapTypeMatch::First
        } else if second_type == main_type {
            HeapTypeMatch::Second
        } else {
            HeapTypeMatch::Neither
        }),
{
    if (first_type == main_type) && (second_type == main_type) {
        HeapTypeMatch::All
    } else if first_type == main_type {
        HeapTypeMatch::First
    } else if second_type == main_type {
        HeapTypeMatch::Second
    } else {
        HeapTypeMatch::Neither
    }
}

/// Holds up to three trees of one rank while two forests are combined at
/// that rank; the last one put in is the first one taken out.
pub struct MergeBucket<T: PartialOrd + Clone> {
    bucket: [Option<Box<BinomialTree<T>>>; 3],
    pointer: isize,
}

impl<T: PartialOrd + Clone> MergeBucket<T> {
    /// The bucket holds its trees in its first places, and `pointer` is the
    /// place of the last one.
    pub closed spec fn wf(&self) -> bool {
        &&& -1 <= self.pointer <= 2
        &&& forall|i: int| 0 <= i < 3 ==> ((#[trigger] self.bucket@[i]) is Some <==> i <= self.pointer)
    }

    /// The trees held, oldest first.
    pub closed spec fn view(&self) -> Seq<Box<BinomialTree<T>>> {
        Seq::new((self.pointer + 1) as nat, |i: int| self.bucket@[i].unwrap())
    }

    /// An empty bucket.
    pub fn new() -> (r: Self)
        ensures
            r.wf(),
            r@ == Seq::<Box<BinomialTree<T>>>::empty(),
    {
        let r = Self { bucket: [None, None, None], pointer: -1 };
        assert(r@ =~= Seq::<Box<BinomialTree<T>>>::empty());
        r
    }

    /// The number of trees held.
    pub fn len(&self) -> (n: usize)
        requires
            self.wf(),
        ensures
            n == self@.len(),
    {
        (self.pointer + 1) as usize
    }

    /// Puts `value` in, unless the bucket holds three trees already: then
    /// `value` is dropped.
    pub fn push(&mut self, value: Box<BinomialTree<T>>)
        requires
            old(self).wf(),
        ensures
            final(self).wf(),
            old(self)@.len() < 3 ==> final(self)@ == old(self)@.push(value),
            old(self)@.len() >= 3 ==> final(self)@ == old(self)@,
    {
        if self.pointer <= 1 {
            self.pointer += 1;
            self.bucket[self.pointer as usize] = Some(value);
            assert(self@ =~= old(self)@.push(value));
        }
    }

    /// Takes out the tree that was put in last.
    pub fn pop(&mut self) -> (r: Option<Box<BinomialTree<T>>>)
        requires
            old(self).wf(),
        ensures
            final(self).wf(),
            old(self)@.len() == 0 ==> r is None && final(self)@ == old(self)@,
            old(self)@.len() > 0 ==> r == Some(old(self)@.last()) && final(self)@ == old(self)@.drop_last(),
    {
        if (self.pointer >= 0) && (self.pointer < 3) && self.bucket[self.pointer as usize].is_some() {
            let result = self.bucket[self.pointer as usize].take();
            self.pointer -= 1;
            assert(self@ =~= old(self)@.drop_last());
            return result;
        }
        None
    }
}

impl<T: PartialOrd + Clone> Heap<T> for BinomialHeap<T> {
    closed spec fn wf(&self) -> bool {
        self.forest_wf() && self.pointer_wf()
    }

    closed spec fn policy(&self) -> HeapType {
        self.h_type
    }

    closed spec fn view(&self) -> Multiset<T> {
        slots_elems(self.trees@)
    }

    fn peek(&self) -> (r: Option<&T>)
        ensures
            r is Some ==> *r.unwrap() == self.forest()[self.best()].unwrap().value,
    {
        if self.is_empty() {
            None
        } else {
            let root = &(self.trees[self.pointer].as_ref().unwrap().value);
            proof {
                let p = self.pointer as int;
                lemma_slots_member(self.trees@, p, *root);
                if lawful_order::<T>() {
                    assert forall|y: T| self@.contains(y) implies !#[trigger] self.h_type.better(y, *root) by {
                        lemma_best_root(self.trees@, self.h_type, p, y);
                    }
                }
            }
            Some(root)
        }
    }

    fn pop(&mut self) -> (r: Option<T>)
        ensures
            r is Some ==> r.unwrap() == old(self).forest()[old(self).best()].unwrap().value,
    {
        if self.is_empty() {
            return None;
        }
        let ghost before = self.trees@;
        let ghost p = self.pointer as int;
        let tree = self.trees[self.pointer].take().unwrap();
        let ghost whole = *tree;
        let BinomialTree { rank: k, value, subtrees } = *tree;
        proof {
            lemma_slots_take(before, p);
            assert(self.trees@ =~= before.update(p, None));
            whole.lemma_size();
            lemma_rank_fits(k as nat);
            lemma_slots_member(before, p, value);
            if lawful_order::<T>() {
                assert forall|y: T| old(self)@.contains(y) implies !#[trigger] self.h_type.better(y, value) by {
                    lemma_best_root(before, self.h_type, p, y);
                }
            }
        }
        let tree_size = 1usize << k;
        self.length = self.length.saturating_sub(tree_size);
        let mut other = BinomialHeap {
            length: (1usize << k) - 1,
            pointer: 0,
            h_type: self.h_type,
            trees: vec![None; k],
        };
        for child in it: subtrees
            invariant
                subtrees == whole.subtrees,
                whole.shaped(),
                k == whole.rank,
                other.trees@.len() == k,
                other.h_type == self.h_type,
                other.length == pow2(k as nat) - 1,
                forall|j: int| 0 <= j < it.index() ==> #[trigger] other.trees@[j] == Some(subtrees@[j]),
                forall|j: int| it.index() <= j < k ==> (#[trigger] other.trees@[j]) is None,
        {
            let r = child.rank;
            other.trees[r] = Some(child);
        }
        proof {
            lemma_slots_of_forest(other.trees@, subtrees@);
            assert(old(self)@ =~= self@.add(other@).insert(value));
            assert(old(self)@.remove(value) =~= self@.add(other@));
        }
        other.update_pointer();
        self.update_pointer();
        self.meld(&mut other);
        Some(value)
    }

    fn push(&mut self, value: T)
        decreases 1int,
    {
        let tree = BinomialTree::from(value);
        let mut single = BinomialHeap {
            pointer: 0,
            h_type: self.h_type,
            length: 1,
            trees: vec![Some(Box::new(tree))],
        };
        proof {
            let s = single.trees@;
            assert(s.len() == 1);
            assert(s.drop_last() =~= Seq::<Option<Box<BinomialTree<T>>>>::empty());
            assert(s.last() == Some(Box::new(tree)));
            assert(BinomialTree::forest_elems(tree.subtrees@) == Multiset::<T>::empty());
            assert(tree.elems() =~= Multiset::singleton(value));
            assert(slots_elems(s.drop_last()) == Multiset::<T>::empty());
            assert(slots_elems(s) =~= Multiset::singleton(value));
            assert(old(self)@.add(single@) =~= old(self)@.insert(value));
        }
        self.meld(&mut single);
    }

    fn meld(&mut self, other: &mut Self)
        ensures
            final(self).spec_len() == old(self).spec_len() + old(other).spec_len(),
            final(other).spec_len() == 0,
        decreases
            (if old(self).policy() == old(other).policy() {
                0int
            } else {
                3int
            }),
    {
        if self.h_type == other.h_type {
            let ghost total = self@.add(other@);
            let heap_type = self.h_type;
            let max_len = self.trees.len().max(other.trees.len());
            proof {
                assert(self.trees@.subrange(0, self.trees@.len() as int) =~= self.trees@);
                assert(other.trees@.subrange(0, other.trees@.len() as int) =~= other.trees@);
            }
            self.trees.resize(max_len, None);
            other.trees.resize(max_len, None);
            let mut new_trees: Vec<Option<Box<BinomialTree<T>>>> = Vec::with_capacity(max_len);
            new_trees.resize(max_len, None);
            let mut carry: Option<Box<BinomialTree<T>>> = None;
            proof {
                lemma_slots_vacant(new_trees@);
                lemma_slots_padded(old(self).trees@, self.trees@);
                lemma_slots_padded(old(other).trees@, other.trees@);
                assert(slots_elems(new_trees@).add(slot_elems(carry)).add(slots_elems(self.trees@)).add(
                    slots_elems(other.trees@),
                ) =~= total);
            }
            let mut i: usize = 0;
            while i < max_len
                invariant
                    i <= max_len,
                    self.trees@.len() == max_len,
                    other.trees@.len() == max_len,
                    new_trees@.len() == max_len,
                    self.h_type == heap_type,
                    self.length == old(self).length,
                    other.length == old(other).length,
                    other.h_type == old(other).h_type,
                    slots_shaped(self.trees@),
                    slots_shaped(other.trees@),
                    slots_shaped(new_trees@),
                    forall|j: int| i <= j < max_len ==> (#[trigger] new_trees@[j]) is None,
                    forall|j: int| 0 <= j < i ==> (#[trigger] self.trees@[j]) is None,
                    forall|j: int| 0 <= j < i ==> (#[trigger] other.trees@[j]) is None,
                    carry is Some ==> carry.unwrap().rank == i && carry.unwrap().shaped(),
                    lawful_order::<T>() ==> {
                        &&& slots_ordered(self.trees@, heap_type)
                        &&& slots_ordered(other.trees@, heap_type)
                        &&& slots_ordered(new_trees@, heap_type)
                        &&& carry is Some ==> carry.unwrap().ordered(heap_type)
                    },
                    slots_elems(new_trees@).add(slot_elems(carry)).add(slots_elems(self.trees@)).add(
                        slots_elems(other.trees@),
                    ) == total,
                decreases max_len - i,
            {
                let ghost mine = self.trees@;
                let ghost theirs = other.trees@;
                let ghost done = new_trees@;
                let ghost carried = carry;
                let mut bucket = MergeBucket::new();
                if let Some(t) = self.trees[i].take() {
                    bucket.push(t);
                }
                if let Some(t) = other.trees[i].take() {
                    bucket.push(t);
                }
                if let Some(t) = carry.take() {
                    bucket.push(t);
                }
                proof {
                    lemma_slots_take(mine, i as int);
                    lemma_slots_take(theirs, i as int);
                    assert(self.trees@ =~= mine.update(i as int, None));
                    assert(other.trees@ =~= theirs.update(i as int, None));
                    assert(bucket@ =~= slot_seq(mine[i as int]) + slot_seq(theirs[i as int]) + slot_seq(
                        carried,
                    ));
                    lemma_bucket_elems(bucket@, mine[i as int], theirs[i as int], carried);
                    assert(slots_elems(done).add(BinomialTree::forest_elems(bucket@)).add(
                        slots_elems(self.trees@),
                    ).add(slots_elems(other.trees@)) =~= total);
                }
                let ghost held = bucket@;
                match bucket.len() {
                    1 => {
                        new_trees[i] = Some(bucket.pop().unwrap());
                        proof {
                            lemma_slots_fill(done, i as int, Some(held[0]));
                            assert(new_trees@ =~= done.update(i as int, Some(held[0])));
                            lemma_forest_elems_small(held);
                        }
                    },
                    2 => {
                        let b = *bucket.pop().unwrap();
                        let a = *bucket.pop().unwrap();
                        let merged = Self::merge_trees(a, b, heap_type);
                        carry = Some(Box::new(merged));
                        proof {
                            lemma_forest_elems_small(held);
                        }
                    },
                    3 => {
                        let keep = bucket.pop().unwrap();
                        let b = *bucket.pop().unwrap();
                        let a = *bucket.pop().unwrap();
                        new_trees[i] = Some(keep);
                        let merged = Self::merge_trees(a, b, heap_type);
                        carry = Some(Box::new(merged));
                        proof {
                            lemma_slots_fill(done, i as int, Some(held[2]));
                            assert(new_trees@ =~= done.update(i as int, Some(held[2])));
                            lemma_forest_elems_small(held);
                        }
                    },
                    _ => {
                        proof {
                            lemma_forest_elems_small(held);
                        }
                    },
                }
                proof {
                    assert(slots_elems(new_trees@).add(slot_elems(carry)) =~= slots_elems(done).add(
                        BinomialTree::forest_elems(held),
                    ));
                    assert(slots_elems(new_trees@).add(slot_elems(carry)).add(slots_elems(self.trees@)).add(
                        slots_elems(other.trees@),
                    ) =~= total);
                }
                i += 1;
            }
            if let Some(t) = carry {
                proof {
                    lemma_slots_push(new_trees@, Some(t));
                }
                new_trees.push(Some(t));
            }
            proof {
                lemma_slots_vacant(self.trees@);
                lemma_slots_vacant(other.trees@);
                assert(slots_elems(new_trees@) =~= total);
            }
            self.trees = new_trees;
            self.length += other.length;
            other.length = 0;
            other.trees.clear();
        } else {
            let values = other.to_vec();
            proof {
                vstd::seq_lib::to_multiset_len(values@);
            }
            self.push_all(values);
        }
        self.update_pointer();
    }

    fn merge(self, other: Self, new_heap_type: HeapType) -> (r: Self) {
        let mut first = self;
        let mut second = other;
        match heap_type_match(new_heap_type, first.h_type, second.h_type) {
            HeapTypeMatch::All => {
                first.meld(&mut second);
                first
            },
            HeapTypeMatch::First => {
                let values = second.to_vec();
                proof {
                    vstd::seq_lib::to_multiset_len(values@);
                }
                first.push_all(values);
                first
            },
            HeapTypeMatch::Second => {
                let mut result = second;
                let values = first.to_vec();
                proof {
                    vstd::seq_lib::to_multiset_len(values@);
                    assert(other@.add(self@) =~= self@.add(other@));
                }
                result.push_all(values);
                result
            },
            HeapTypeMatch::Neither => {
                let mut heap = Self::new(new_heap_type);
                let theirs = second.to_vec();
                let mine = first.to_vec();
                proof {
                    vstd::seq_lib::to_multiset_len(theirs@);
                    vstd::seq_lib::to_multiset_len(mine@);
                    assert(Multiset::<T>::empty().add(other@).add(self@) =~= self@.add(other@));
                }
                heap.push_all(theirs);
                heap.push_all(mine);
                heap
            },
        }
    }
}

} // verus!
