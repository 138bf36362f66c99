use crate::heaps::binomial_tree::BinomialTree;
use crate::heaps::heap::{faithful_clone, HeapType};
use vstd::arithmetic::power2::pow2;
use vstd::multiset::Multiset;
use vstd::prelude::*;

verus! {

/// The values held by one slot of a forest: those of its tree, if it has one.
pub open spec fn slot_elems<T: PartialOrd + Clone>(slot: Option<Box<BinomialTree<T>>>) -> Multiset<T> {
    match slot {
        Some(t) => t.elems(),
        None => Multiset::empty(),
    }
}

/// The values held by a forest, slot by slot.
pub open spec fn slots_elems<T: PartialOrd + Clone>(s: Seq<Option<Box<BinomialTree<T>>>>) -> Multiset<T>
    decreases s.len(),
{
    if s.len() == 0 {
        Multiset::empty()
    } else {
        slots_elems(s.drop_last()).add(slot_elems(s.last()))
    }
}

/// The values of a forest in the order in which it is walked: slot by slot,
/// each tree as its `flat` says.
pub open spec fn slots_flat<T: PartialOrd + Clone>(s: Seq<Option<Box<BinomialTree<T>>>>) -> Seq<T>
    decreases s.len(),
{
    if s.len() == 0 {
        Seq::empty()
    } else {
        slots_flat(s.drop_last()) + match s.last() {
            Some(t) => t.flat(),
            None => Seq::empty(),
        }
    }
}

/// Every occupied slot `i` holds a tree of binomial shape and of rank `i`.
pub open spec fn slots_shaped<T: PartialOrd + Clone>(s: Seq<Option<Box<BinomialTree<T>>>>) -> bool {
    forall|i: int|
        0 <= i < s.len() ==> match #[trigger] s[i] {
            Some(t) => t.rank == i && t.shaped(),
            None => true,
        }
}

/// Every tree of the forest is in heap order under `policy`.
pub open spec fn slots_ordered<T: PartialOrd + Clone>(
    s: Seq<Option<Box<BinomialTree<T>>>>,
    policy: HeapType,
) -> bool {
    forall|i: int|
        0 <= i < s.len() ==> match #[trigger] s[i] {
            Some(t) => t.ordered(policy),
            None => true,
        }
}

/// The sum of `2^i` over the occupied slots `i`.
pub open spec fn slots_weight<T: PartialOrd + Clone>(s: Seq<Option<Box<BinomialTree<T>>>>) -> nat
    decreases s.len(),
{
    if s.len() == 0 {
        0
    } else {
        slots_weight(s.drop_last()) + if s.last() is Some {
            pow2((s.len() - 1) as nat)
        } else {
            0
        }
    }
}

/// Slot `p` is occupied, its root is strictly better than every root before
/// it, and no root after it is strictly better.
pub open spec fn best_slot<T: PartialOrd + Clone>(
    s: Seq<Option<Box<BinomialTree<T>>>>,
    policy: HeapType,
    p: int,
) -> bool {
    &&& 0 <= p < s.len()
    &&& s[p] is Some
    &&& forall|j: int|
        0 <= j < p && (#[trigger] s[j]) is Some ==> policy.better(s[p].unwrap().value, s[j].unwrap().value)
    &&& forall|j: int|
        p < j < s.len() && (#[trigger] s[j]) is Some ==> !policy.better(
            s[j].unwrap().value,
            s[p].unwrap().value,
        )
}

/// Slot `copy` is vacant where `src` is, and holds a mirror of the tree of
/// `src`, or that tree itself, where `src` holds one.
pub open spec fn slot_mirrors<T: PartialOrd + Clone>(
    copy: Option<Box<BinomialTree<T>>>,
    src: Option<Box<BinomialTree<T>>>,
) -> bool {
    match (copy, src) {
        (None, None) => true,
        (Some(c), Some(s)) => c.mirrors(*s) || c == s,
        _ => false,
    }
}

/// Where cloning is faithful, a forest of mirrors has the occupied slots,
/// the roots, the values and the shape of its source, and is in heap order
/// wherever the source is.
pub proof fn lemma_slots_mirror<T: PartialOrd + Clone>(
    copy: Seq<Option<Box<BinomialTree<T>>>>,
    src: Seq<Option<Box<BinomialTree<T>>>>,
)
    requires
        faithful_clone::<T>(),
        copy.len() == src.len(),
        forall|i: int| 0 <= i < src.len() ==> slot_mirrors(#[trigger] copy[i], src[i]),
    ensures
        slots_elems(copy) == slots_elems(src),
        slots_shaped(src) ==> slots_shaped(copy),
        forall|policy: HeapType| slots_ordered(src, policy) ==> slots_ordered(copy, policy),
        forall|i: int| 0 <= i < src.len() ==> ((#[trigger] copy[i]) is Some <==> src[i] is Some),
        forall|i: int|
            0 <= i < src.len() && (#[trigger] copy[i]) is Some ==> copy[i].unwrap().value
                == src[i].unwrap().value,
    decreases src.len(),
{
    assert forall|i: int| 0 <= i < src.len() && (#[trigger] copy[i]) is Some implies {
        &&& src[i] is Some
        &&& copy[i].unwrap().value == src[i].unwrap().value
        &&& copy[i].unwrap().rank == src[i].unwrap().rank
        &&& copy[i].unwrap().elems() == src[i].unwrap().elems()
        &&& (src[i].unwrap().shaped() ==> copy[i].unwrap().shaped())
        &&& (forall|policy: HeapType| src[i].unwrap().ordered(policy) ==> copy[i].unwrap().ordered(policy))
    } by {
        assert(slot_mirrors(copy[i], src[i]));
        if copy[i].unwrap().mirrors(*src[i].unwrap()) {
            copy[i].unwrap().lemma_mirror(*src[i].unwrap());
        }
    }
    assert forall|i: int| 0 <= i < src.len() implies ((#[trigger] copy[i]) is Some <==> src[i] is Some) by {
        assert(slot_mirrors(copy[i], src[i]));
    }
    if src.len() > 0 {
        assert forall|i: int| 0 <= i < src.drop_last().len() implies slot_mirrors(
            #[trigger] copy.drop_last()[i],
            src.drop_last()[i],
        ) by {
            assert(slot_mirrors(copy[i], src[i]));
        }
        lemma_slots_mirror(copy.drop_last(), src.drop_last());
        assert(slot_mirrors(copy[src.len() - 1], src[src.len() - 1]));
    }
    assert forall|policy: HeapType| slots_ordered(src, policy) implies slots_ordered(copy, policy) by {
        assert forall|i: int| 0 <= i < copy.len() implies match #[trigger] copy[i] {
            Some(t) => t.ordered(policy),
            None => true,
        } by {
            if copy[i] is Some {
                let theirs = src[i];
                assert(theirs.unwrap().ordered(policy));
            }
        }
    }
    if slots_shaped(src) {
        assert forall|i: int| 0 <= i < copy.len() implies match #[trigger] copy[i] {
            Some(t) => t.rank == i && t.shaped(),
            None => true,
        } by {
            if copy[i] is Some {
                let theirs = src[i];
                assert(theirs.unwrap().shaped());
            }
        }
    }
}

/// A forest without trees holds no value.
pub proof fn lemma_slots_vacant<T: PartialOrd + Clone>(s: Seq<Option<Box<BinomialTree<T>>>>)
    requires
        forall|i: int| 0 <= i < s.len() ==> (#[trigger] s[i]) is None,
    ensures
        slots_elems(s) == Multiset::<T>::empty(),
    decreases s.len(),
{
    if s.len() > 0 {
        lemma_slots_vacant(s.drop_last());
        assert(slots_elems(s) =~= Multiset::<T>::empty());
    }
}

/// Appending a slot adds its values.
pub proof fn lemma_slots_push<T: PartialOrd + Clone>(
    s: Seq<Option<Box<BinomialTree<T>>>>,
    x: Option<Box<BinomialTree<T>>>,
)
    ensures
        slots_elems(s.push(x)) == slots_elems(s).add(slot_elems(x)),
{
    assert(s.push(x).drop_last() =~= s);
}

/// Replacing the content of slot `i` trades the values of the old content
/// for those of the new one.
pub proof fn lemma_slots_update<T: PartialOrd + Clone>(
    s: Seq<Option<Box<BinomialTree<T>>>>,
    i: int,
    x: Option<Box<BinomialTree<T>>>,
)
    requires
        0 <= i < s.len(),
    ensures
        slots_elems(s.update(i, x)).add(slot_elems(s[i])) == slots_elems(s).add(slot_elems(x)),
    decreases s.len(),
{
    let u = s.update(i, x);
    assert(u.len() == s.len());
    if i == s.len() - 1 {
        assert(u.drop_last() =~= s.drop_last());
        assert(u.last() == x);
        let a = slots_elems(s.drop_last());
        assert(a.add(slot_elems(x)).add(slot_elems(s[i])) =~= a.add(slot_elems(s[i])).add(slot_elems(x)));
    } else {
        lemma_slots_update(s.drop_last(), i, x);
        assert(u.drop_last() =~= s.drop_last().update(i, x));
        assert(u.last() == s.last());
        assert(s.drop_last()[i] == s[i]);
        let a = slots_elems(u.drop_last());
        let b = slots_elems(s.drop_last());
        let l = slot_elems(s.last());
        assert(a.add(l).add(slot_elems(s[i])) =~= a.add(slot_elems(s[i])).add(l));
        assert(b.add(l).add(slot_elems(x)) =~= b.add(slot_elems(x)).add(l));
    }
}

/// Emptying slot `i` takes the values of its tree out of the forest.
pub proof fn lemma_slots_take<T: PartialOrd + Clone>(s: Seq<Option<Box<BinomialTree<T>>>>, i: int)
    requires
        0 <= i < s.len(),
    ensures
        slots_elems(s) == slots_elems(s.update(i, None)).add(slot_elems(s[i])),
{
    lemma_slots_update(s, i, None);
    assert(slots_elems(s).add(slot_elems::<T>(None)) =~= slots_elems(s));
}

/// Filling the vacant slot `i` adds the values of the new tree to the forest.
pub proof fn lemma_slots_fill<T: PartialOrd + Clone>(
    s: Seq<Option<Box<BinomialTree<T>>>>,
    i: int,
    x: Option<Box<BinomialTree<T>>>,
)
    requires
        0 <= i < s.len(),
        s[i] is None,
    ensures
        slots_elems(s.update(i, x)) == slots_elems(s).add(slot_elems(x)),
{
    lemma_slots_update(s, i, x);
    assert(slots_elems(s.update(i, x)).add(slot_elems(s[i])) =~= slots_elems(s.update(i, x)));
}

/// Each value of a forest lies in the tree of one of its slots.
pub proof fn lemma_slots_locate<T: PartialOrd + Clone>(s: Seq<Option<Box<BinomialTree<T>>>>, x: T) -> (i:
    int)
    requires
        slots_elems(s).contains(x),
    ensures
        0 <= i < s.len(),
        s[i] is Some,
        s[i].unwrap().elems().contains(x),
    decreases s.len(),
{
    if slot_elems(s.last()).contains(x) {
        s.len() - 1
    } else {
        lemma_slots_locate(s.drop_last(), x)
    }
}

/// The values of the tree in a slot are values of the forest.
pub proof fn lemma_slots_member<T: PartialOrd + Clone>(s: Seq<Option<Box<BinomialTree<T>>>>, i: int, x: T)
    requires
        0 <= i < s.len(),
        s[i] is Some,
        s[i].unwrap().elems().contains(x),
    ensures
        slots_elems(s).contains(x),
    decreases s.len(),
{
    if i < s.len() - 1 {
        lemma_slots_member(s.drop_last(), i, x);
    }
}

/// A forest of binomial shape holds as many values as its occupied slots weigh.
pub proof fn lemma_slots_weight<T: PartialOrd + Clone>(s: Seq<Option<Box<BinomialTree<T>>>>)
    requires
        slots_shaped(s),
    ensures
        slots_elems(s).len() == slots_weight(s),
    decreases s.len(),
{
    if s.len() > 0 {
        lemma_slots_weight(s.drop_last());
        match s.last() {
            Some(t) => {
                t.lemma_size();
            },
            None => {},
        }
    }
}

/// A forest whose slot `i` holds the `i`-th tree of a sequence holds the
/// values of that sequence.
pub proof fn lemma_slots_of_forest<T: PartialOrd + Clone>(
    s: Seq<Option<Box<BinomialTree<T>>>>,
    f: Seq<Box<BinomialTree<T>>>,
)
    requires
        s.len() == f.len(),
        forall|i: int| 0 <= i < s.len() ==> #[trigger] s[i] == Some(f[i]),
    ensures
        slots_elems(s) == BinomialTree::forest_elems(f),
    decreases s.len(),
{
    if s.len() > 0 {
        lemma_slots_of_forest(s.drop_last(), f.drop_last());
    }
}

/// Walking a forest meets exactly the values it holds.
pub proof fn lemma_slots_flat_elems<T: PartialOrd + Clone>(s: Seq<Option<Box<BinomialTree<T>>>>)
    ensures
        slots_flat(s).to_multiset() == slots_elems(s),
    decreases s.len(),
{
    broadcast use vstd::seq_lib::group_to_multiset_ensures;

    if s.len() == 0 {
        assert(slots_flat(s).to_multiset() =~= Multiset::<T>::empty());
    } else {
        lemma_slots_flat_elems(s.drop_last());
        match s.last() {
            Some(t) => {
                t.lemma_flat_elems();
                vstd::seq_lib::lemma_multiset_commutative(slots_flat(s.drop_last()), t.flat());
            },
            None => {
                assert(slots_flat(s) =~= slots_flat(s.drop_last()));
                assert(slots_elems(s) =~= slots_elems(s.drop_last()));
            },
        }
    }
}

/// Under a strict weak order, nothing in an ordered forest is strictly
/// better than the root of its best slot.
pub proof fn lemma_best_root<T: PartialOrd + Clone>(
    s: Seq<Option<Box<BinomialTree<T>>>>,
    policy: HeapType,
    p: int,
    y: T,
)
    requires
        policy.strict_weak::<T>(),
        slots_ordered(s, policy),
        best_slot(s, policy, p),
        slots_elems(s).contains(y),
    ensures
        !policy.better(y, s[p].unwrap().value),
{
    let j = lemma_slots_locate(s, y);
    s[j].unwrap().lemma_root_best(policy, y);
    let rj = s[j].unwrap().value;
    let rp = s[p].unwrap().value;
    if j < p {
        assert(policy.better(rp, rj));
        assert(!policy.better(rj, rp));
    } else if j > p {
        assert(!policy.better(rj, rp));
    }
    assert(!policy.better(y, rj));
}

} // verus!
