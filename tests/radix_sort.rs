use std::collections::HashSet;

use dense_sort::dlsd::num_passes;
use dense_sort::radix::{compute_counts, read_radix};
use dense_sort::{
    dlsd_sort, dlsd_sort_and_count, MulSwapMulHasher, MurmurHasher, NoopHasher, StatelessU64Hasher,
};

fn reference_sorted<H: StatelessU64Hasher>(data: &[u64]) -> Vec<u64> {
    let mut v: Vec<u64> = data.iter().map(|&x| H::hash(x)).collect();
    v.sort();
    v
}

fn reference_count<H: StatelessU64Hasher>(data: &[u64]) -> usize {
    data.iter().map(|&x| H::hash(x)).collect::<HashSet<u64>>().len()
}

/// Random keys of which about `dup_percent` percent repeat an earlier one.
fn keys(n: usize, dup_percent: u64, seed: u64) -> Vec<u64> {
    let mut rng = fastrand::Rng::with_seed(seed);
    let mut out: Vec<u64> = Vec::with_capacity(n);
    for _ in 0..n {
        if !out.is_empty() && rng.u64(0..100) < dup_percent {
            let j = rng.usize(0..out.len());
            out.push(out[j]);
        } else {
            out.push(rng.u64(..));
        }
    }
    out
}

#[test]
fn radix_sort_small_scenario() {
    let data = [5u64, 3, 3, 1, 2, 1];
    assert_eq!(dlsd_sort::<NoopHasher>(&data), vec![1, 1, 2, 3, 3, 5]);
}

#[test]
fn count_distinct_small_scenario() {
    let data = [5u64, 3, 3, 1, 2, 1];
    assert_eq!(dlsd_sort_and_count::<NoopHasher>(&data), 4);
}

#[test]
fn radix_sort_returns_mixed_keys_in_order() {
    let data = keys(5000, 30, 1);
    assert_eq!(dlsd_sort::<MurmurHasher>(&data), reference_sorted::<MurmurHasher>(&data));
    assert_eq!(dlsd_sort::<MulSwapMulHasher>(&data), reference_sorted::<MulSwapMulHasher>(&data));
    assert_eq!(dlsd_sort::<NoopHasher>(&data), reference_sorted::<NoopHasher>(&data));
}

#[test]
fn radix_sort_edge_sizes() {
    for (k, &n) in [0usize, 1, 2, 3, 1023, 1024, 1025, 4097].iter().enumerate() {
        let data = keys(n, 50, 10 + k as u64);
        assert_eq!(dlsd_sort::<MurmurHasher>(&data), reference_sorted::<MurmurHasher>(&data));
        assert_eq!(dlsd_sort::<NoopHasher>(&data), reference_sorted::<NoopHasher>(&data));
    }
}

#[test]
fn radix_sort_large_input() {
    let data = keys(300_000, 50, 3);
    assert_eq!(dlsd_sort::<MulSwapMulHasher>(&data), reference_sorted::<MulSwapMulHasher>(&data));
}

#[test]
fn radix_sort_keys_differing_only_in_low_bits() {
    let data: Vec<u64> = (0..3000u64).rev().map(|x| x * 3 % 1000).collect();
    assert_eq!(dlsd_sort::<NoopHasher>(&data), reference_sorted::<NoopHasher>(&data));
}

#[test]
fn radix_sort_extreme_keys() {
    let data = [u64::MAX, 0, u64::MAX, 1 << 63, 0, 1];
    assert_eq!(dlsd_sort::<NoopHasher>(&data), vec![0, 0, 1, 1 << 63, u64::MAX, u64::MAX]);
}

#[test]
fn count_distinct_matches_reference_set_across_densities() {
    for (k, &dup) in [0u64, 50, 99].iter().enumerate() {
        for (j, &n) in [0usize, 1, 1024, 1025, 20_000].iter().enumerate() {
            let data = keys(n, dup, 100 + 10 * k as u64 + j as u64);
            assert_eq!(dlsd_sort_and_count::<MurmurHasher>(&data), reference_count::<MurmurHasher>(&data));
            assert_eq!(dlsd_sort_and_count::<NoopHasher>(&data), reference_count::<NoopHasher>(&data));
        }
    }
}

#[test]
fn count_distinct_million_keys() {
    let data = keys(1_000_000, 50, 7);
    assert_eq!(dlsd_sort_and_count::<MulSwapMulHasher>(&data), reference_count::<MulSwapMulHasher>(&data));
}

#[test]
fn count_distinct_groups_that_repeat_after_a_new_group() {
    // Keys whose high bits form several groups inside one bucket, each with
    // repeats, arriving after keys of a lower group.
    let mut data: Vec<u64> = Vec::new();
    for g in 0..4u64 {
        for r in 0..300u64 {
            data.push((g << 40) | (r % 7));
        }
    }
    assert_eq!(dlsd_sort_and_count::<NoopHasher>(&data), 28);
    assert_eq!(dlsd_sort_and_count::<NoopHasher>(&data), reference_count::<NoopHasher>(&data));
}

#[test]
fn count_distinct_all_equal() {
    let data = vec![9u64; 5000];
    assert_eq!(dlsd_sort_and_count::<MurmurHasher>(&data), 1);
}

#[test]
fn pass_count_follows_the_input_size() {
    assert_eq!(num_passes(0), 1);
    assert_eq!(num_passes(1), 1);
    assert_eq!(num_passes(6), 1);
    assert_eq!(num_passes(1024), 1);
    assert_eq!(num_passes(1025), 2);
    assert_eq!(num_passes(1 << 20), 2);
    assert_eq!(num_passes((1 << 20) + 1), 3);
    assert_eq!(num_passes(usize::MAX), 6);
}

#[test]
fn compute_counts_with_no_passes_only_mixes() {
    let (mixed, counts) = compute_counts::<MurmurHasher>(&[1, 42], 0);
    assert_eq!(mixed, vec![MurmurHasher::hash(1), MurmurHasher::hash(42)]);
    assert!(counts.is_empty());
}

#[test]
fn compute_counts_histogram_rows() {
    let data = [0u64, 1 << 54, 3 << 54, 3 << 54, u64::MAX];
    let (mixed, counts) = compute_counts::<NoopHasher>(&data, 1);
    assert_eq!(mixed, data.to_vec());
    assert_eq!(counts.len(), 1024);
    assert_eq!(counts[0], 1);
    assert_eq!(counts[1], 1);
    assert_eq!(counts[3], 2);
    assert_eq!(counts[1023], 1);
    assert_eq!(counts.iter().sum::<usize>(), 5);
}

#[test]
fn read_radix_depends_on_passes_left() {
    let word = 0xABCD_EF01_2345_6789u64;
    assert_eq!(read_radix(word, 0, 1), (word >> 54) as usize);
    assert_eq!(read_radix(word, 3, 8), ((word >> 14) & 1023) as usize);
    assert_eq!(read_radix(word, 0, 5), ((word >> 14) & 1023) as usize);
}
