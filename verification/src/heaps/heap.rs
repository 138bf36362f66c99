use core::cmp::Ordering;
use vstd::multiset::Multiset;
use vstd::prelude::*;
use vstd::std_specs::cmp::PartialOrdSpec;

verus! {

/// The direction in which a heap orders its elements.
#[derive(Clone, Copy, PartialEq, Eq, Structural, Debug)]
pub enum HeapType {
    Min,
    Max,
}

/// `a` compares strictly greater than `b`.
pub open spec fn exceeds<T: PartialOrd>(a: T, b: T) -> bool {
    a.partial_cmp_spec(&b) == Some(Ordering::Greater)
}

/// `a` compares strictly less than `b`.
pub open spec fn precedes<T: PartialOrd>(a: T, b: T) -> bool {
    a.partial_cmp_spec(&b) == Some(Ordering::Less)
}

/// The comparison operators of `T` compute what its `partial_cmp_spec` says.
pub open spec fn obeys_order<T: PartialOrd>() -> bool {
    T::obeys_partial_cmp_spec()
}

/// The comparison operators of `T` compute what `partial_cmp_spec` says, and
/// both `<` and `>` are strict weak orders. Every total order is one.
pub open spec fn lawful_order<T: PartialOrd>() -> bool {
    &&& obeys_order::<T>()
    &&& HeapType::Min.strict_weak::<T>()
    &&& HeapType::Max.strict_weak::<T>()
}

/// The comparison of `u8` is lawful.
pub proof fn lemma_lawful_order_u8()
    ensures
        lawful_order::<u8>(),
{
}

/// The comparison of `u16` is lawful.
pub proof fn lemma_lawful_order_u16()
    ensures
        lawful_order::<u16>(),
{
}

/// The comparison of `u32` is lawful.
pub proof fn lemma_lawful_order_u32()
    ensures
        lawful_order::<u32>(),
{
}

/// The comparison of `u64` is lawful.
pub proof fn lemma_lawful_order_u64()
    ensures
        lawful_order::<u64>(),
{
}

/// The comparison of `u128` is lawful.
pub proof fn lemma_lawful_order_u128()
    ensures
        lawful_order::<u128>(),
{
}

/// The comparison of `usize` is lawful.
pub proof fn lemma_lawful_order_usize()
    ensures
        lawful_order::<usize>(),
{
}

/// The comparison of `i8` is lawful.
pub proof fn lemma_lawful_order_i8()
    ensures
        lawful_order::<i8>(),
{
}

/// The comparison of `i16` is lawful.
pub proof fn lemma_lawful_order_i16()
    ensures
        lawful_order::<i16>(),
{
}

/// The comparison of `i32` is lawful.
pub proof fn lemma_lawful_order_i32()
    ensures
        lawful_order::<i32>(),
{
}

/// The comparison of `i64` is lawful.
pub proof fn lemma_lawful_order_i64()
    ensures
        lawful_order::<i64>(),
{
}

/// The comparison of `i128` is lawful.
pub proof fn lemma_lawful_order_i128()
    ensures
        lawful_order::<i128>(),
{
}

/// The comparison of `isize` is lawful.
pub proof fn lemma_lawful_order_isize()
    ensures
        lawful_order::<isize>(),
{
}

/// Cloning a `T` gives back the value that was cloned.
pub open spec fn faithful_clone<T: Clone>() -> bool {
    forall|a: T, b: T| #[trigger] cloned(a, b) ==> a == b
}

/// Cloning a `u8` is faithful.
pub proof fn lemma_faithful_clone_u8()
    ensures
        faithful_clone::<u8>(),
{
}

/// Cloning a `u16` is faithful.
pub proof fn lemma_faithful_clone_u16()
    ensures
        faithful_clone::<u16>(),
{
}

/// Cloning a `u32` is faithful.
pub proof fn lemma_faithful_clone_u32()
    ensures
        faithful_clone::<u32>(),
{
}

/// Cloning a `u64` is faithful.
pub proof fn lemma_faithful_clone_u64()
    ensures
        faithful_clone::<u64>(),
{
}

/// Cloning a `u128` is faithful.
pub proof fn lemma_faithful_clone_u128()
    ensures
        faithful_clone::<u128>(),
{
}

/// Cloning a `usize` is faithful.
pub proof fn lemma_faithful_clone_usize()
    ensures
        faithful_clone::<usize>(),
{
}

/// Cloning a `i8` is faithful.
pub proof fn lemma_faithful_clone_i8()
    ensures
        faithful_clone::<i8>(),
{
}

/// Cloning a `i16` is faithful.
pub proof fn lemma_faithful_clone_i16()
    ensures
        faithful_clone::<i16>(),
{
}

/// Cloning a `i32` is faithful.
pub proof fn lemma_faithful_clone_i32()
    ensures
        faithful_clone::<i32>(),
{
}

/// Cloning a `i64` is faithful.
pub proof fn lemma_faithful_clone_i64()
    ensures
        faithful_clone::<i64>(),
{
}

/// Cloning a `i128` is faithful.
pub proof fn lemma_faithful_clone_i128()
    ensures
        faithful_clone::<i128>(),
{
}

/// Cloning a `isize` is faithful.
pub proof fn lemma_faithful_clone_isize()
    ensures
        faithful_clone::<isize>(),
{
}

impl HeapType {
    /// Whether `parent` is strictly better than `child` in this direction:
    /// the child is greater under `Min`, and less under `Max`.
    pub open spec fn better<T: PartialOrd>(self, parent: T, child: T) -> bool {
        match self {
            HeapType::Min => exceeds(child, parent),
            HeapType::Max => precedes(child, parent),
        }
    }

    /// `better` is a strict weak order on `T`: it never holds both ways, and
    /// "not better" carries over a middle value.
    pub open spec fn strict_weak<T: PartialOrd>(self) -> bool {
        &&& forall|a: T, b: T| #[trigger] self.better(a, b) ==> !self.better(b, a)
        &&& forall|a: T, b: T, c: T|
            #![trigger self.better(a, b), self.better(b, c)]
            !self.better(a, b) && !self.better(b, c) ==> !self.better(a, c)
    }

    /// Whether `child` may stay below `parent`: it is greater under `Min`,
    /// less under `Max`.
    pub fn is_correct<T: PartialOrd>(&self, parent: &T, child: &T) -> (r: bool)
        ensures
            obeys_order::<T>() ==> r == self.better(*parent, *child),
    {
        match self {
            HeapType::Min => child > parent,
            HeapType::Max => child < parent,
        }
    }
}

/// No value of `m` is strictly better than `x` under `policy`.
pub open spec fn is_best<T: PartialOrd>(policy: HeapType, x: T, m: Multiset<T>) -> bool {
    forall|y: T|
        #![trigger m.contains(y)]
        #![trigger policy.better(y, x)]
        m.contains(y) ==> !policy.better(y, x)
}

/// Taking the values of `out` from a heap that holds `start`, one `pop`
/// after the other, empties the heap: each value is in what is left when its
/// turn comes, and nothing left then is strictly better.
pub open spec fn drains<T: PartialOrd>(policy: HeapType, start: Multiset<T>, out: Seq<T>) -> bool
    decreases out.len(),
{
    if out.len() == 0 {
        start.len() == 0
    } else {
        &&& start.contains(out[0])
        &&& is_best(policy, out[0], start)
        &&& drains(policy, start.remove(out[0]), out.drop_first())
    }
}

/// No value of `out` is strictly better than one that stands before it:
/// under `Min` the values never fall, under `Max` they never rise.
pub open spec fn sorted_by<T: PartialOrd>(policy: HeapType, out: Seq<T>) -> bool {
    forall|i: int, j: int| 0 <= i < j < out.len() ==> !policy.better(out[j], out[i])
}

/// Popping a heap until it is empty hands out exactly the values it held,
/// in sorted order.
pub proof fn lemma_drains_sorted<T: PartialOrd>(policy: HeapType, start: Multiset<T>, out: Seq<T>)
    requires
        drains(policy, start, out),
    ensures
        out.to_multiset() == start,
        sorted_by(policy, out),
    decreases out.len(),
{
    broadcast use vstd::seq_lib::group_to_multiset_ensures;

    if out.len() == 0 {
        assert(start =~= Multiset::<T>::empty());
        assert(out.to_multiset() =~= Multiset::<T>::empty());
    } else {
        let rest = out.drop_first();
        let left = start.remove(out[0]);
        lemma_drains_sorted(policy, left, rest);
        assert(out =~= seq![out[0]] + rest);
        vstd::seq_lib::lemma_multiset_commutative(seq![out[0]], rest);
        assert(seq![out[0]] =~= Seq::<T>::empty().push(out[0]));
        assert(seq![out[0]].to_multiset() =~= Multiset::singleton(out[0]));
        assert(out.to_multiset() =~= start);
        assert forall|i: int, j: int| 0 <= i < j < out.len() implies !policy.better(out[j], out[i]) by {
            if i == 0 {
                assert(rest[j - 1] == out[j]);
                assert(rest.to_multiset().contains(rest[j - 1]));
                assert(start.contains(out[j]));
            } else {
                assert(rest[i - 1] == out[i]);
                assert(rest[j - 1] == out[j]);
            }
        }
    }
}

/// What a heap that held `start` holds after the values of `values` were
/// pushed, first to last.
pub open spec fn pushed<T>(start: Multiset<T>, values: Seq<T>) -> Multiset<T>
    decreases values.len(),
{
    if values.len() == 0 {
        start
    } else {
        pushed(start, values.drop_last()).insert(values.last())
    }
}

/// Pushing values into a heap adds exactly those values to it.
pub proof fn lemma_pushed<T>(start: Multiset<T>, values: Seq<T>)
    ensures
        pushed(start, values) == start.add(values.to_multiset()),
        pushed(start, values).len() == start.len() + values.len(),
    decreases values.len(),
{
    broadcast use vstd::seq_lib::group_to_multiset_ensures;

    if values.len() == 0 {
        assert(values.to_multiset() =~= Multiset::<T>::empty());
        assert(start.add(values.to_multiset()) =~= start);
    } else {
        lemma_pushed(start, values.drop_last());
        assert(values =~= values.drop_last().push(values.last()));
        vstd::seq_lib::to_multiset_build(values.drop_last(), values.last());
        assert(pushed(start, values) =~= start.add(values.to_multiset()));
    }
}

/// Pushing values into an empty heap and popping until it is empty hands
/// out exactly those values, as many as went in, in sorted order.
pub proof fn lemma_round_trip<T: PartialOrd>(policy: HeapType, values: Seq<T>, out: Seq<T>)
    requires
        drains(policy, pushed(Multiset::empty(), values), out),
    ensures
        out.to_multiset() == values.to_multiset(),
        out.len() == values.len(),
        sorted_by(policy, out),
{
    broadcast use vstd::seq_lib::group_to_multiset_ensures;

    lemma_pushed(Multiset::<T>::empty(), values);
    lemma_drains_sorted(policy, pushed(Multiset::empty(), values), out);
    assert(Multiset::<T>::empty().add(values.to_multiset()) =~= values.to_multiset());
}

/// A priority queue that hands out its best value first: the least under
/// `Min`, the greatest under `Max`.
pub trait Heap<T: PartialOrd + Clone>: Sized {
    /// The invariant that every operation keeps.
    spec fn wf(&self) -> bool;

    /// The direction in which the heap orders its values.
    spec fn policy(&self) -> HeapType;

    /// The values held, each as often as it was put in.
    spec fn view(&self) -> Multiset<T>;

    /// The best value, which stays in the heap.
    fn peek(&self) -> (r: Option<&T>)
        requires
            self.wf(),
        ensures
            r is None <==> self@.len() == 0,
            r is Some ==> self@.contains(*r.unwrap()),
            r is Some && lawful_order::<T>() ==> is_best(self.policy(), *r.unwrap(), self@),
    ;

    /// Takes the best value out.
    fn pop(&mut self) -> (r: Option<T>)
        requires
            old(self).wf(),
        ensures
            final(self).wf(),
            final(self).policy() == old(self).policy(),
            r is None <==> old(self)@.len() == 0,
            r is None ==> final(self)@ == old(self)@,
            r is Some ==> old(self)@.contains(r.unwrap()) && final(self)@ == old(self)@.remove(r.unwrap()),
            r is Some && lawful_order::<T>() ==> is_best(old(self).policy(), r.unwrap(), old(self)@),
    ;

    /// Puts one value in.
    fn push(&mut self, value: T)
        requires
            old(self).wf(),
            old(self)@.len() < usize::MAX,
        ensures
            final(self).wf(),
            final(self).policy() == old(self).policy(),
            final(self)@ == old(self)@.insert(value),
    ;

    /// Moves every value of `other` into `self`.
    fn meld(&mut self, other: &mut Self)
        requires
            old(self).wf(),
            old(other).wf(),
            old(self)@.len() + old(other)@.len() <= usize::MAX,
        ensures
            final(self).wf(),
            final(other).wf(),
            final(self).policy() == old(self).policy(),
            final(other).policy() == old(other).policy(),
            final(self)@ == old(self)@.add(old(other)@),
            final(self)@.len() == old(self)@.len() + old(other)@.len(),
            final(other)@ == Multiset::<T>::empty(),
            final(other)@.len() == 0,
    ;

    /// Joins two heaps into one that orders its values as `new_heap_type` says.
    fn merge(self, other: Self, new_heap_type: HeapType) -> (r: Self)
        requires
            self.wf(),
            other.wf(),
            self@.len() + other@.len() <= usize::MAX,
        ensures
            r.wf(),
            r.policy() == new_heap_type,
            r@ == self@.add(other@),
    ;
}

} // verus!
