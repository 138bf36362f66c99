use crate::heaps::heap::{faithful_clone, HeapType};
use vstd::arithmetic::power2::{lemma2_to64, lemma_pow2_unfold, pow2};
use vstd::multiset::Multiset;
use vstd::prelude::*;

verus! {

/// A binomial tree: a root value above `rank` subtrees, the subtree at
/// position `i` being itself a binomial tree of rank `i`.
pub struct BinomialTree<T: PartialOrd + Clone> {
    pub rank: usize,
    pub value: T,
    pub subtrees: Vec<Box<BinomialTree<T>>>,
}

impl<T: PartialOrd + Clone> BinomialTree<T> {
    /// Every value held by the tree, the root included.
    pub open spec fn elems(self) -> Multiset<T>
        decreases self,
    {
        Multiset::singleton(self.value).add(Self::forest_elems(self.subtrees@))
    }

    /// Every value held by a sequence of trees.
    pub open spec fn forest_elems(s: Seq<Box<BinomialTree<T>>>) -> Multiset<T>
        decreases s,
    {
        if s.len() == 0 {
            Multiset::empty()
        } else {
            Self::forest_elems(s.drop_last()).add(s.last().elems())
        }
    }

    /// The values of the tree in the order in which it is walked: the root,
    /// then each subtree in turn.
    pub open spec fn flat(self) -> Seq<T>
        decreases self,
    {
        seq![self.value] + Self::forest_flat(self.subtrees@)
    }

    /// The values of a sequence of trees, each tree walked in turn.
    pub open spec fn forest_flat(s: Seq<Box<BinomialTree<T>>>) -> Seq<T>
        decreases s,
    {
        if s.len() == 0 {
            Seq::empty()
        } else {
            Self::forest_flat(s.drop_last()) + s.last().flat()
        }
    }

    /// `self` has the shape of `src`, and each of its values is a clone of the
    /// value at the same place in `src`.
    pub open spec fn mirrors(self, src: Self) -> bool
        decreases self,
    {
        &&& self.rank == src.rank
        &&& cloned(src.value, self.value)
        &&& self.subtrees@.len() == src.subtrees@.len()
        &&& forall|i: int|
            0 <= i < self.subtrees@.len() ==> (#[trigger] self.subtrees@[i]).mirrors(*src.subtrees@[i])
    }

    /// The binomial shape: `rank` subtrees, the one at position `i` of rank `i`
    /// and itself of binomial shape.
    pub open spec fn shaped(self) -> bool
        decreases self,
    {
        &&& self.subtrees@.len() == self.rank
        &&& forall|i: int|
            0 <= i < self.subtrees@.len() ==> {
                &&& (#[trigger] self.subtrees@[i]).rank == i
                &&& self.subtrees@[i].shaped()
            }
    }

    /// Heap order under `policy`: no subtree's root is strictly better than
    /// the root above it, at every level of the tree.
    pub open spec fn ordered(self, policy: HeapType) -> bool
        decreases self,
    {
        forall|i: int|
            0 <= i < self.subtrees@.len() ==> {
                &&& !policy.better((#[trigger] self.subtrees@[i]).value, self.value)
                &&& self.subtrees@[i].ordered(policy)
            }
    }
}

impl<T: PartialOrd + Clone> BinomialTree<T> {
    /// Appending a tree to a sequence adds its values to those of the sequence.
    pub proof fn lemma_forest_push(s: Seq<Box<BinomialTree<T>>>, t: Box<BinomialTree<T>>)
        ensures
            Self::forest_elems(s.push(t)) == Self::forest_elems(s).add(t.elems()),
    {
        assert(s.push(t).drop_last() =~= s);
    }

    /// The first `n` subtrees of a tree of binomial shape hold `2^n - 1` values.
    pub proof fn lemma_prefix_size(self, n: nat)
        requires
            self.shaped(),
            n <= self.rank,
        ensures
            Self::forest_elems(self.subtrees@.take(n as int)).len() == pow2(n) - 1,
        decreases self, n,
    {
        let s = self.subtrees@.take(n as int);
        if n == 0 {
            lemma2_to64();
        } else {
            let m = (n - 1) as nat;
            self.lemma_prefix_size(m);
            assert(s.drop_last() =~= self.subtrees@.take(m as int));
            assert(s.last() == self.subtrees@[m as int]);
            self.subtrees@[m as int].lemma_size();
            lemma_pow2_unfold(n);
        }
    }

    /// A tree of binomial shape holds exactly `2^rank` values.
    pub proof fn lemma_size(self)
        requires
            self.shaped(),
        ensures
            self.elems().len() == pow2(self.rank as nat),
        decreases self, self.rank + 1,
    {
        self.lemma_prefix_size(self.rank as nat);
        assert(self.subtrees@.take(self.rank as int) =~= self.subtrees@);
    }

    /// Under a strict weak order, nothing in a sequence of ordered trees is
    /// strictly better than `top` when no root of the sequence is.
    pub proof fn lemma_forest_bounded(s: Seq<Box<BinomialTree<T>>>, policy: HeapType, top: T, x: T)
        requires
            policy.strict_weak::<T>(),
            forall|i: int| 0 <= i < s.len() ==> (#[trigger] s[i]).ordered(policy),
            forall|i: int| 0 <= i < s.len() ==> !policy.better((#[trigger] s[i]).value, top),
            Self::forest_elems(s).contains(x),
        ensures
            !policy.better(x, top),
        decreases s,
    {
        if s.len() > 0 {
            let last = s.last();
            if last.elems().contains(x) {
                last.lemma_root_best(policy, x);
                assert(!policy.better(x, last.value));
                assert(!policy.better(last.value, top));
            } else {
                Self::lemma_forest_bounded(s.drop_last(), policy, top, x);
            }
        }
    }

    /// Under a strict weak order, nothing in an ordered tree is strictly
    /// better than its root.
    pub proof fn lemma_root_best(self, policy: HeapType, x: T)
        requires
            policy.strict_weak::<T>(),
            self.ordered(policy),
            self.elems().contains(x),
        ensures
            !policy.better(x, self.value),
        decreases self,
    {
        if Self::forest_elems(self.subtrees@).contains(x) {
            Self::lemma_forest_bounded(self.subtrees@, policy, self.value, x);
        } else {
            assert(x == self.value);
            assert(policy.better(x, x) ==> !policy.better(x, x));
        }
    }
}

impl<T: PartialOrd + Clone> BinomialTree<T> {
    /// Walking a sequence of trees meets exactly the values it holds.
    pub proof fn lemma_forest_flat_elems(s: Seq<Box<BinomialTree<T>>>)
        ensures
            Self::forest_flat(s).to_multiset() == Self::forest_elems(s),
        decreases s,
    {
        broadcast use vstd::seq_lib::group_to_multiset_ensures;

        if s.len() == 0 {
            assert(Self::forest_flat(s).to_multiset() =~= Multiset::<T>::empty());
        } else {
            Self::lemma_forest_flat_elems(s.drop_last());
            s.last().lemma_flat_elems();
            vstd::seq_lib::lemma_multiset_commutative(Self::forest_flat(s.drop_last()), s.last().flat());
        }
    }

    /// Walking a tree meets exactly the values it holds.
    pub proof fn lemma_flat_elems(self)
        ensures
            self.flat().to_multiset() == self.elems(),
        decreases self,
    {
        broadcast use vstd::seq_lib::group_to_multiset_ensures;

        Self::lemma_forest_flat_elems(self.subtrees@);
        vstd::seq_lib::lemma_multiset_commutative(seq![self.value], Self::forest_flat(self.subtrees@));
        assert(seq![self.value] =~= Seq::<T>::empty().push(self.value));
        assert(seq![self.value].to_multiset() =~= Multiset::singleton(self.value));
    }

    /// Takes the tree apart into its values, in the order of `flat`.
    pub fn to_vec(self) -> (result: Vec<T>)
        ensures
            result@ == self.flat(),
    {
        let mut result = Vec::new();
        self.fill_vec(&mut result);
        result
    }

    /// Appends the values of the tree to `result`, in the order of `flat`.
    pub fn fill_vec(self, result: &mut Vec<T>)
        ensures
            final(result)@ == old(result)@ + self.flat(),
        decreases self,
    {
        let ghost whole = self;
        let BinomialTree { rank: _, value, subtrees } = self;
        result.push(value);
        for subtree in it: subtrees
            invariant
                whole == self,
                subtrees == whole.subtrees,
                value == whole.value,
                result@ == old(result)@ + seq![value] + Self::forest_flat(subtrees@.take(it.index())),
        {
            let ghost i = it.index();
            proof {
                assert(subtrees@.take(i + 1).drop_last() =~= subtrees@.take(i));
            }
            let tree: BinomialTree<T> = *subtree;
            tree.fill_vec(result);
        }
        proof {
            assert(subtrees@.take(subtrees@.len() as int) =~= subtrees@);
        }
    }
}

impl<T: PartialOrd + Clone> BinomialTree<T> {
    /// Where cloning is faithful, the first `n` subtrees of a mirror hold the
    /// values of the first `n` subtrees of its source.
    pub proof fn lemma_mirror_prefix(self, src: Self, n: nat)
        requires
            faithful_clone::<T>(),
            self.mirrors(src),
            n <= self.subtrees@.len(),
        ensures
            Self::forest_elems(self.subtrees@.take(n as int)) == Self::forest_elems(
                src.subtrees@.take(n as int),
            ),
        decreases self, n,
    {
        let a = self.subtrees@.take(n as int);
        let b = src.subtrees@.take(n as int);
        if n > 0 {
            let m = (n - 1) as nat;
            self.lemma_mirror_prefix(src, m);
            assert(a.drop_last() =~= self.subtrees@.take(m as int));
            assert(b.drop_last() =~= src.subtrees@.take(m as int));
            self.subtrees@[m as int].lemma_mirror(*src.subtrees@[m as int]);
        }
    }

    /// Where cloning is faithful, a mirror has the root, the values and the
    /// shape of its source, and is in heap order wherever the source is.
    pub proof fn lemma_mirror(self, src: Self)
        requires
            faithful_clone::<T>(),
            self.mirrors(src),
        ensures
            self.value == src.value,
            self.rank == src.rank,
            self.elems() == src.elems(),
            src.shaped() ==> self.shaped(),
            forall|policy: HeapType| src.ordered(policy) ==> self.ordered(policy),
        decreases self, self.subtrees@.len() + 1,
    {
        let n = self.subtrees@.len();
        self.lemma_mirror_prefix(src, n);
        assert(self.subtrees@.take(n as int) =~= self.subtrees@);
        assert(src.subtrees@.take(n as int) =~= src.subtrees@);
        assert forall|i: int| 0 <= i < n implies {
            &&& (#[trigger] self.subtrees@[i]).value == src.subtrees@[i].value
            &&& self.subtrees@[i].rank == src.subtrees@[i].rank
            &&& (src.subtrees@[i].shaped() ==> self.subtrees@[i].shaped())
            &&& (forall|policy: HeapType|
                src.subtrees@[i].ordered(policy) ==> self.subtrees@[i].ordered(policy))
        } by {
            self.subtrees@[i].lemma_mirror(*src.subtrees@[i]);
        }
        assert forall|policy: HeapType| src.ordered(policy) implies self.ordered(policy) by {
            assert forall|i: int| 0 <= i < n implies {
                &&& !policy.better((#[trigger] self.subtrees@[i]).value, self.value)
                &&& self.subtrees@[i].ordered(policy)
            } by {
                let theirs = src.subtrees@[i];
                assert(theirs.ordered(policy));
                assert(self.subtrees@[i].value == theirs.value);
            }
        }
    }
}

impl<T: PartialOrd + Clone> Clone for BinomialTree<T> {
    fn clone(&self) -> (r: Self)
        ensures
            r.mirrors(*self),
        decreases self,
    {
        let mut subtrees: Vec<Box<BinomialTree<T>>> = Vec::with_capacity(self.subtrees.len());
        let mut i: usize = 0;
        while i < self.subtrees.len()
            invariant
                i <= self.subtrees@.len(),
                subtrees@.len() == i,
                forall|j: int| 0 <= j < i ==> (#[trigger] subtrees@[j]).mirrors(*self.subtrees@[j]),
            decreases self.subtrees@.len() - i,
        {
            let child: &BinomialTree<T> = &self.subtrees[i];
            subtrees.push(Box::new(child.clone()));
            i += 1;
        }
        BinomialTree { rank: self.rank, value: self.value.clone(), subtrees }
    }
}

/// A tree holds a vector and so cannot be written down as a value: what
/// `from` returns is stated by its own `ensures`.
impl<T: PartialOrd + Clone> vstd::std_specs::convert::FromSpecImpl<T> for BinomialTree<T> {
    open spec fn obeys_from_spec() -> bool {
        false
    }

    open spec fn from_spec(value: T) -> Self {
        arbitrary()
    }
}

impl<T: PartialOrd + Clone> From<T> for BinomialTree<T> {
    /// The tree of rank 0 that holds `value` alone.
    fn from(value: T) -> (r: Self)
        ensures
            r.rank == 0,
            r.value == value,
            r.subtrees@ == Seq::<Box<BinomialTree<T>>>::empty(),
    {
        Self { rank: 0, value, subtrees: Vec::new() }
    }
}

} // verus!
