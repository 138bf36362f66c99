use crate::container::HasLength;
use crate::probalistic::mask::Mask;
use vstd::prelude::*;
use vstd::std_specs::cmp::PartialEqSpec;

verus! {

/// What `murmur2::murmur2` computes from a run of bytes and a seed.
pub uninterp spec fn murmur2_of(data: Seq<u8>, seed: u32) -> u32;

/// What `murmur2::murmur64a` computes from a run of bytes and a seed.
pub uninterp spec fn murmur64a_of(data: Seq<u8>, seed: u64) -> u64;

/// `murmur2::murmur2`: the 32-bit MurmurHash2 that reads its input in
/// little-endian order on every machine. Its result depends on the bytes and
/// the seed alone, and it returns on every input.
pub assume_specification[ murmur2::murmur2 ](data: &[u8], seed: u32) -> (h: u32)
    ensures
        h == murmur2_of(data@, seed),
;

/// `murmur2::murmur64a`: the 64-bit MurmurHash64A that reads its input in
/// little-endian order on every machine. Its result depends on the bytes and
/// the seed alone, and it returns on every input.
pub assume_specification[ murmur2::murmur64a ](data: &[u8], seed: u64) -> (h: u64)
    ensures
        h == murmur64a_of(data@, seed),
;

/// A family of hash functions over runs of bytes, one for each seed.
pub trait HasherWithSeed {
    /// The hash of `data` under `seed`.
    spec fn spec_hash(&self, data: Seq<u8>, seed: usize) -> usize;

    fn hash(&self, data: &[u8], seed: usize) -> (h: usize)
        ensures
            h == self.spec_hash(data@, seed),
    ;
}

/// The MurmurHash2 family, in the width of a `usize`.
pub struct MurmurHash;

impl HasherWithSeed for MurmurHash {
    open spec fn spec_hash(&self, data: Seq<u8>, seed: usize) -> usize {
        if usize::BITS == 32 {
            murmur2_of(data, seed as u32) as usize
        } else {
            murmur64a_of(data, seed as u64) as usize
        }
    }

    fn hash(&self, data: &[u8], seed: usize) -> (h: usize) {
        if usize::BITS == 32 {
            murmur2::murmur2(data, seed as u32) as usize
        } else {
            murmur2::murmur64a(data, seed as u64) as usize
        }
    }
}

/// Some value of `s` equals `v`.
pub open spec fn holds<T: PartialEq>(s: Seq<T>, v: T) -> bool {
    exists|i: int| 0 <= i < s.len() && #[trigger] s[i].eq_spec(&v)
}

/// The store of a filter: it keeps every value that the filter took in.
pub trait BloomFilterContainer<T: PartialEq>: HasLength + Sized {
    /// The values kept, in the order in which they came.
    spec fn items(&self) -> Seq<T>;

    /// The store counts what it keeps.
    proof fn lemma_len(&self)
        ensures
            self.spec_len() == self.items().len(),
    ;

    fn new() -> (r: Self)
        ensures
            r.items() == Seq::<T>::empty(),
    ;

    fn contains(&self, value: &T) -> (b: bool)
        ensures
            T::obeys_eq_spec() ==> b == holds(self.items(), *value),
    ;

    fn insert(&mut self, value: T)
        ensures
            final(self).items() == old(self).items().push(value),
    ;
}

impl<T> HasLength for Vec<T> {
    open spec fn spec_len(&self) -> nat {
        self@.len()
    }

    fn len(&self) -> (n: usize) {
        Vec::<T>::len(&self)
    }
}

impl<T: PartialEq> BloomFilterContainer<T> for Vec<T> {
    open spec fn items(&self) -> Seq<T> {
        self@
    }

    proof fn lemma_len(&self) {
    }

    fn new() -> (r: Self) {
        vec![]
    }

    fn contains(&self, value: &T) -> (b: bool) {
        let mut i: usize = 0;
        while i < self.len()
            invariant
                i <= self@.len(),
                T::obeys_eq_spec() ==> forall|j: int| 0 <= j < i ==> !(#[trigger] self@[j]).eq_spec(value),
            decreases self@.len() - i,
        {
            if self[i] == *value {
                return true;
            }
            i += 1;
        }
        false
    }

    fn insert(&mut self, value: T) {
        self.push(value);
    }
}

/// A filter that remembers the values it took in: a row of bits that the
/// hashes of each value set, and a store that keeps the values themselves.
/// A value is handed over together with the bytes that are hashed for it.
pub struct BloomFilter<T: PartialEq, H: HasherWithSeed = MurmurHash, C: BloomFilterContainer<T> = Vec<T>> {
    capacity: usize,
    mask: Mask,
    hasher: H,
    container: C,
    hasher_number: usize,
    _marker: core::marker::PhantomData<T>,
}

impl<T: PartialEq, H: HasherWithSeed, C: BloomFilterContainer<T>> BloomFilter<T, H, C> {
    /// The row of bits keeps its invariant.
    pub closed spec fn wf(&self) -> bool {
        self.mask.wf()
    }

    /// The values kept, in the order in which they came.
    pub closed spec fn items(&self) -> Seq<T> {
        self.container.items()
    }

    /// The places of the bits that are set.
    pub closed spec fn bits(&self) -> Set<int> {
        self.mask@
    }

    /// The number of bits of the row.
    pub closed spec fn bit_count(&self) -> nat {
        self.mask.spec_len()
    }

    /// The number of hashes taken of each value.
    pub closed spec fn rounds(&self) -> nat {
        self.hasher_number as nat
    }

    /// The number of values from which on the filter takes no more.
    pub closed spec fn limit(&self) -> nat {
        self.capacity as nat
    }

    /// The hash family in use.
    pub closed spec fn hasher(&self) -> H {
        self.hasher
    }

    /// The place in the row that the hash of round `k` gives to `bytes`.
    pub open spec fn place(&self, bytes: Seq<u8>, k: usize) -> int {
        (self.hasher().spec_hash(bytes, k) as nat % self.bit_count()) as int
    }

    /// The places that the hashes of all rounds give to `bytes`.
    pub open spec fn places(&self, bytes: Seq<u8>) -> Set<int> {
        Set::new(|p: int| exists|k: usize| k < self.rounds() && p == #[trigger] self.place(bytes, k))
    }

    /// The bit of every round is set for `bytes`.
    pub open spec fn passes(&self, bytes: Seq<u8>) -> bool {
        forall|k: usize| k < self.rounds() ==> self.bits().contains(#[trigger] self.place(bytes, k))
    }

    /// Whether `insert` takes `value` in: an empty filter takes any value, a
    /// filter below its limit takes a value that `contains` does not find.
    pub open spec fn admits(&self, value: T, bytes: Seq<u8>) -> bool {
        self.items().len() == 0 || (self.items().len() < self.limit() && !(self.passes(bytes) && holds(
            self.items(),
            value,
        )))
    }

    /// The filter keeps what `before` kept and `value` after it, and has the
    /// bits of `before` and those of `bytes` set.
    pub open spec fn took_in(&self, before: Self, value: T, bytes: Seq<u8>) -> bool {
        &&& self.items() == before.items().push(value)
        &&& self.bits() == before.bits().union(before.places(bytes))
    }

    /// The filter keeps what `before` kept and has the bits of `before` set.
    pub open spec fn same_as(&self, before: Self) -> bool {
        &&& self.items() == before.items()
        &&& self.bits() == before.bits()
    }

    /// An empty filter for up to `capacity` values, with a row of
    /// `size_mask` bits rounded up to whole bytes and one byte more, and
    /// `hasher_number` hashes for each value.
    pub fn with_sizes(capacity: usize, size_mask: usize, hasher_number: usize, hasher: H) -> (r: Self)
        requires
            size_mask / 8 < usize::MAX / 8,
        ensures
            r.wf(),
            r.limit() == capacity,
            r.rounds() == hasher_number,
            r.bit_count() == (size_mask / 8 + 1) * 8,
            r.hasher() == hasher,
            r.items() == Seq::<T>::empty(),
            r.bits() == Set::<int>::empty(),
    {
        Self {
            capacity,
            mask: Mask::with_size(size_mask),
            hasher,
            container: C::new(),
            hasher_number,
            _marker: core::marker::PhantomData,
        }
    }

    /// Whether the filter holds `value`, whose bytes are `bytes`: the bit of
    /// every round is set, and the store has a value equal to it.
    pub fn contains(&self, value: &T, bytes: &[u8]) -> (b: bool)
        requires
            self.wf(),
        ensures
            b ==> self.passes(bytes@),
            T::obeys_eq_spec() ==> b == (self.passes(bytes@) && holds(self.items(), *value)),
    {
        let mut k: usize = 0;
        while k < self.hasher_number
            invariant
                self.wf(),
                k <= self.hasher_number,
                forall|j: usize| j < k ==> self.bits().contains(#[trigger] self.place(bytes@, j)),
            decreases self.hasher_number - k,
        {
            if !self.mask.check(self.hasher.hash(bytes, k) % self.mask.len()) {
                proof {
                    assert(!self.bits().contains(self.place(bytes@, k)));
                }
                return false;
            }
            k += 1;
        }
        self.container.contains(value)
    }

    /// Sets the bit of every round for `bytes`.
    fn mark(&mut self, bytes: &[u8])
        requires
            old(self).wf(),
        ensures
            final(self).wf(),
            final(self).limit() == old(self).limit(),
            final(self).rounds() == old(self).rounds(),
            final(self).bit_count() == old(self).bit_count(),
            final(self).hasher() == old(self).hasher(),
            final(self).container == old(self).container,
            final(self).bits() == old(self).bits().union(old(self).places(bytes@)),
    {
        let mut k: usize = 0;
        while k < self.hasher_number
            invariant
                self.wf(),
                k <= self.hasher_number,
                self.capacity == old(self).capacity,
                self.hasher_number == old(self).hasher_number,
                self.hasher == old(self).hasher,
                self.container == old(self).container,
                self.mask.spec_len() == old(self).mask.spec_len(),
                forall|p: int|
                    self.mask@.contains(p) <==> (old(self).mask@.contains(p) || exists|j: usize|
                        j < k && p == #[trigger] old(self).place(bytes@, j)),
            decreases self.hasher_number - k,
        {
            let ghost before = self.mask@;
            let bit = self.hasher.hash(bytes, k) % self.mask.len();
            self.mask.update(bit);
            proof {
                assert(bit as int == old(self).place(bytes@, k));
                assert forall|p: int|
                    self.mask@.contains(p) <==> (old(self).mask@.contains(p) || exists|j: usize|
                        j < k + 1 && p == #[trigger] old(self).place(bytes@, j)) by {
                    if p == bit as int {
                    } else if self.mask@.contains(p) {
                        assert(before.contains(p));
                    } else {
                        assert(!before.contains(p));
                    }
                }
            }
            k += 1;
        }
        proof {
            assert(self.bits() =~= old(self).bits().union(old(self).places(bytes@)));
        }
    }

    /// Takes `value` in, whose bytes are `bytes`, where the filter admits
    /// it; otherwise the filter stays as it is.
    pub fn insert(&mut self, value: T, bytes: &[u8])
        requires
            old(self).wf(),
        ensures
            final(self).wf(),
            final(self).limit() == old(self).limit(),
            final(self).rounds() == old(self).rounds(),
            final(self).bit_count() == old(self).bit_count(),
            final(self).hasher() == old(self).hasher(),
            final(self).took_in(*old(self), value, bytes@) || final(self).same_as(*old(self)),
            old(self).items().len() == 0 ==> final(self).took_in(*old(self), value, bytes@),
            old(self).items().len() >= old(self).limit() && old(self).items().len() > 0 ==> final(self).same_as(
                *old(self),
            ),
            T::obeys_eq_spec() ==> (if old(self).admits(value, bytes@) {
                final(self).took_in(*old(self), value, bytes@)
            } else {
                final(self).same_as(*old(self))
            }),
            final(self).took_in(*old(self), value, bytes@) ==> final(self).passes(bytes@),
    {
        proof {
            self.container.lemma_len();
        }
        if self.is_empty() {
            self.mark(bytes);
            self.container.insert(value);
        } else if (self.len() < self.capacity) && (!self.contains(&value, bytes) || !self.container.contains(
            &value,
        )) {
            self.mark(bytes);
            self.container.insert(value);
        }
        proof {
            if self.took_in(*old(self), value, bytes@) {
                assert forall|k: usize| k < self.rounds() implies self.bits().contains(
                    #[trigger] self.place(bytes@, k),
                ) by {
                    assert(self.place(bytes@, k) == old(self).place(bytes@, k));
                    assert(old(self).places(bytes@).contains(old(self).place(bytes@, k)));
                }
            }
        }
    }
}

impl<T: PartialEq, H: HasherWithSeed, C: BloomFilterContainer<T>> HasLength for BloomFilter<T, H, C> {
    closed spec fn spec_len(&self) -> nat {
        self.container.spec_len()
    }

    fn len(&self) -> (n: usize) {
        self.container.len()
    }
}

impl<T: PartialEq, H: HasherWithSeed, C: BloomFilterContainer<T>> BloomFilter<T, H, C> {
    /// The filter counts the values that it keeps.
    pub proof fn lemma_len(&self)
        ensures
            self.spec_len() == self.items().len(),
    {
        self.container.lemma_len();
    }
}

} // verus!
