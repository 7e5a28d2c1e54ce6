use std::collections::HashSet;
use std::hash::{BuildHasherDefault, Hasher};

use dense_sort::{MulSwapMulHasher, MurmurHasher, NoopHasher, StatelessU64Hasher, U64Hasher};

#[test]
fn noop_hasher_is_identity() {
    for v in [0u64, 1, 42, u64::MAX, 0xdead_beef] {
        assert_eq!(NoopHasher::hash(v), v);
    }
}

#[test]
fn murmur_finalizer_known_values() {
    assert_eq!(MurmurHasher::hash_u64(0), 0);
    assert_eq!(MurmurHasher::hash_u64(1), 0xb456bcfc34c2cb2c);
    assert_eq!(MurmurHasher::hash_u64(42), 0x810879608e4259cc);
    assert_eq!(MurmurHasher::hash(0xdeadbeef), 0xd24bd59f862a1dac);
}

#[test]
fn mul_swap_mul_known_values() {
    assert_eq!(MulSwapMulHasher::hash(0), 0);
    assert_eq!(MulSwapMulHasher::hash(1), 0xde50f12da34e33c2);
    assert_eq!(MulSwapMulHasher::hash(42), 0x6ae6d088d047e99b);
    assert_eq!(MulSwapMulHasher::hash(0xdeadbeef), 0xddcfd2cdea1cd100);
}

#[test]
fn mixes_keep_distinct_keys_distinct() {
    let mut murmur = HashSet::new();
    let mut swap = HashSet::new();
    for v in 0u64..10_000 {
        assert!(murmur.insert(MurmurHasher::hash(v)));
        assert!(swap.insert(MulSwapMulHasher::hash(v << 7)));
    }
}

#[test]
fn u64_hasher_finishes_with_the_mixed_key() {
    let mut h = U64Hasher::<MurmurHasher>::default();
    h.write_u64(42);
    assert_eq!(h.finish(), MurmurHasher::hash(42));
    let mut b = U64Hasher::<MurmurHasher>::default();
    b.write(&42u64.to_le_bytes());
    assert_eq!(b.finish(), MurmurHasher::hash(42));
    let fresh = U64Hasher::<NoopHasher>::default();
    assert_eq!(fresh.finish(), 0);
}

#[test]
fn u64_hasher_serves_std_hash_set() {
    let mut set: HashSet<u64, BuildHasherDefault<U64Hasher<MulSwapMulHasher>>> = HashSet::default();
    for v in [5u64, 3, 3, 1, 2, 1, 0, 0] {
        set.insert(v);
    }
    assert_eq!(set.len(), 5);
    assert!(set.contains(&3));
    assert!(!set.contains(&4));
}
