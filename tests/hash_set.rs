use std::collections::HashSet;

use dense_sort::{count_unique_by_hashed_sort, count_unique_by_u64_hash, MulSwapMulHasher, MurmurHasher, NoopHasher, U64HashSet};

fn new_set<H: dense_sort::StatelessU64Hasher>(capacity: usize) -> U64HashSet<H> {
    match U64HashSet::<H>::with_capacity(capacity) {
        Ok(set) => set,
        Err(_) => panic!("capacity {} should be addressable", capacity),
    }
}

#[test]
fn hash_set_scenario_with_zero_and_repeats() {
    let mut set = new_set::<MurmurHasher>(16);
    for k in [0u64, 5, 0, 21, 5] {
        set.insert(k);
    }
    assert_eq!(set.len(), 3);
}

#[test]
fn hash_set_same_key_twice() {
    let mut set = new_set::<MulSwapMulHasher>(8);
    set.insert(77);
    assert_eq!(set.len(), 1);
    set.insert(77);
    assert_eq!(set.len(), 1);
}

#[test]
fn hash_set_distinct_keys_count_each() {
    let n = 1000usize;
    let mut set = new_set::<MurmurHasher>(n);
    for k in 1..=n as u64 {
        set.insert(k * 0x9e37_79b9);
    }
    assert_eq!(set.len(), n);
}

#[test]
fn hash_set_zero_counts_once() {
    let mut set = new_set::<NoopHasher>(4);
    for _ in 0..10 {
        set.insert(0);
    }
    assert_eq!(set.len(), 1);
    set.insert(3);
    assert_eq!(set.len(), 2);
}

#[test]
fn hash_set_empty() {
    let set = new_set::<NoopHasher>(0);
    assert_eq!(set.len(), 0);
}

#[test]
fn hash_set_probes_past_a_full_bucket() {
    // With no mixing, multiples of the bucket count share the home bucket
    // and the first slot, so later keys spill into the following buckets.
    let mut set = new_set::<NoopHasher>(16);
    for k in 1..=20u64 {
        set.insert(k * 4);
    }
    assert_eq!(set.len(), 20);
    for k in 1..=20u64 {
        set.insert(k * 4);
    }
    assert_eq!(set.len(), 20);
}

#[test]
fn hash_set_capacity_overflow_is_an_error() {
    assert!(U64HashSet::<NoopHasher>::with_capacity(usize::MAX).is_err());
    assert!(U64HashSet::<NoopHasher>::with_capacity(usize::MAX / 2).is_err());
}

#[test]
fn count_unique_by_u64_hash_matches_reference_set() {
    let mut rng = fastrand::Rng::with_seed(5);
    let data: Vec<u64> = (0..20_000).map(|_| rng.u64(0..5000)).collect();
    let expected = data.iter().copied().collect::<HashSet<u64>>().len();
    match count_unique_by_u64_hash::<MulSwapMulHasher>(&data, 5000) {
        Ok(n) => assert_eq!(n, expected),
        Err(_) => panic!("a set for 5000 keys fits"),
    }
}

#[test]
fn count_unique_by_hashed_sort_counts_mixed_keys() {
    assert_eq!(count_unique_by_hashed_sort::<NoopHasher>(&[1, 2, 1, 3, 2, 1]), 3);
    assert_eq!(count_unique_by_hashed_sort::<MurmurHasher>(&[]), 0);
    let mut rng = fastrand::Rng::with_seed(8);
    let data: Vec<u64> = (0..50_000).map(|_| rng.u64(0..20_000)).collect();
    let expected = data.iter().copied().collect::<HashSet<u64>>().len();
    assert_eq!(count_unique_by_hashed_sort::<MulSwapMulHasher>(&data), expected);
}

#[test]
fn hash_set_fills_every_slot() {
    // Capacity 4 makes one bucket of eight slots; eight nonzero keys fill
    // it, and the key 0 needs no slot.
    let mut set = new_set::<MurmurHasher>(4);
    for k in 1..=8u64 {
        set.insert(k);
    }
    set.insert(0);
    assert_eq!(set.len(), 9);
    for k in 1..=8u64 {
        set.insert(k);
    }
    assert_eq!(set.len(), 9);
}
