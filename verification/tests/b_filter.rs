use containers::container::HasLength;
use containers::probalistic::bloom_filter::{BloomFilter, BloomFilterContainer, HasherWithSeed, MurmurHash};
use containers::probalistic::mask::Mask;

#[test]
fn insert_and_contains() {
    let ln_2 = std::f32::consts::LN_2;
    let abs_error_rate_ln: f32 = 2.9957323;
    let capacity: usize = 5;
    let size_mask = ((abs_error_rate_ln * (capacity as f32)) / (ln_2 * ln_2)) as usize;
    let k = (abs_error_rate_ln / ln_2) as usize;
    let hasher_number = if k > 0 { k } else { 1 };
    assert_eq!(size_mask, 31);
    assert_eq!(hasher_number, 4);

    let mut bf: BloomFilter<u8> = BloomFilter::with_sizes(capacity, size_mask, hasher_number, MurmurHash);
    bf.insert(10u8, &[10]);
    bf.insert(12, &[12]);
    bf.insert(13, &[13]);
    bf.insert(14, &[14]);
    bf.insert(15, &[15]);
    bf.insert(16, &[16]);
    assert!(bf.contains(&10, &[10]));
    assert!(!bf.contains(&7, &[7]));
    assert!(!bf.contains(&16, &[16]));
}

#[test]
fn filter_counts_what_it_keeps() {
    let mut bf: BloomFilter<u8> = BloomFilter::with_sizes(3, 64, 2, MurmurHash);
    assert!(bf.is_empty());
    bf.insert(1, &[1]);
    bf.insert(1, &[1]);
    assert_eq!(bf.len(), 1);
    bf.insert(2, &[2]);
    bf.insert(3, &[3]);
    assert_eq!(bf.len(), 3);
    bf.insert(4, &[4]);
    assert_eq!(bf.len(), 3);
    assert!(bf.contains(&1, &[1]));
    assert!(bf.contains(&2, &[2]));
    assert!(bf.contains(&3, &[3]));
    assert!(!bf.contains(&4, &[4]));
}

#[test]
fn empty_filter_takes_a_value_even_at_limit_zero() {
    let mut bf: BloomFilter<u8> = BloomFilter::with_sizes(0, 8, 1, MurmurHash);
    bf.insert(9, &[9]);
    assert_eq!(bf.len(), 1);
    assert!(bf.contains(&9, &[9]));
    bf.insert(8, &[8]);
    assert_eq!(bf.len(), 1);
    assert!(!bf.contains(&8, &[8]));
}

#[test]
fn murmur_hash_is_the_hash_of_the_crate() {
    let data = "murmur2".as_bytes();
    let all: Vec<u8> = (1..255).collect();
    if usize::BITS == 32 {
        let seed = 0x9747b28cu32 as usize;
        assert_eq!(MurmurHash.hash(&[], seed), 275646681);
        assert_eq!(MurmurHash.hash(data, seed), 1394823152);
        assert_eq!(MurmurHash.hash(&all, seed), 2950539382u32 as usize);
    } else {
        let seed = 0x12345678_9747b28cu64 as usize;
        assert_eq!(MurmurHash.hash(&[], seed), 4971528555162033992u64 as usize);
        assert_eq!(MurmurHash.hash(data, seed), 443646041180781888u64 as usize);
        assert_eq!(MurmurHash.hash(&all, seed), 528696902255405805u64 as usize);
    }
}

#[test]
fn mask_sets_and_checks_single_bits() {
    let mut mask = Mask::with_size(20);
    assert_eq!(mask.len(), 24);
    for bit in 0..24 {
        assert!(!mask.check(bit));
    }
    mask.update(0);
    mask.update(7);
    mask.update(8);
    mask.update(23);
    mask.update(7);
    for bit in 0..24 {
        assert_eq!(mask.check(bit), bit == 0 || bit == 7 || bit == 8 || bit == 23);
    }
    assert_eq!(Mask::with_size(0).len(), 8);
    assert_eq!(Mask::with_size(8).len(), 16);
}

#[test]
fn vec_is_a_store_for_the_filter() {
    let mut store: Vec<u16> = BloomFilterContainer::new();
    assert_eq!(HasLength::len(&store), 0);
    assert!(HasLength::is_empty(&store));
    BloomFilterContainer::insert(&mut store, 5);
    BloomFilterContainer::insert(&mut store, 6);
    assert_eq!(HasLength::len(&store), 2);
    assert!(BloomFilterContainer::contains(&store, &5));
    assert!(BloomFilterContainer::contains(&store, &6));
    assert!(!BloomFilterContainer::contains(&store, &7));
}
