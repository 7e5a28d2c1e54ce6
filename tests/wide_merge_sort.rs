use dense_sort::{count_unique_in_sorted, wide_merge_sort};

fn random_keys(n: usize, seed: u64) -> Vec<u64> {
    let mut rng = fastrand::Rng::with_seed(seed);
    (0..n).map(|_| rng.u64(..)).collect()
}

fn check_against_reference(data: Vec<u64>) {
    let mut expected = data.clone();
    expected.sort();
    let mut got = data;
    wide_merge_sort(&mut got);
    assert_eq!(got, expected);
}

#[test]
fn merge_sort_matches_reference_for_random_trials() {
    for seed in 0..30u64 {
        check_against_reference(random_keys(2000, seed));
    }
}

#[test]
fn merge_sort_edge_sizes() {
    for (k, &n) in [0usize, 1, 2, 1024, 1025, 5000].iter().enumerate() {
        check_against_reference(random_keys(n, 40 + k as u64));
    }
}

#[test]
fn merge_sort_large_input() {
    check_against_reference(random_keys(300_000, 9));
}

#[test]
fn merge_sort_descending_becomes_strictly_ascending() {
    let mut data: Vec<u64> = (0..5000u64).rev().collect();
    wide_merge_sort(&mut data);
    assert_eq!(data.len(), 5000);
    for i in 1..data.len() {
        assert!(data[i - 1] < data[i]);
    }
    assert_eq!(data[0], 0);
    assert_eq!(data[4999], 4999);
}

#[test]
fn merge_sort_sorted_input_is_unchanged() {
    let mut data: Vec<u64> = (0..3000u64).map(|x| x * 2).collect();
    let before = data.clone();
    wide_merge_sort(&mut data);
    assert_eq!(data, before);
}

#[test]
fn merge_sort_keeps_maximum_keys() {
    let mut data = random_keys(4000, 77);
    for i in (0..data.len()).step_by(3) {
        data[i] = u64::MAX;
    }
    check_against_reference(data);
}

#[test]
fn merge_sort_many_duplicates() {
    let mut rng = fastrand::Rng::with_seed(11);
    let data: Vec<u64> = (0..10_000).map(|_| rng.u64(0..10)).collect();
    check_against_reference(data);
}

#[test]
fn merge_sort_small_input_uses_std_sort() {
    let mut data = vec![9u64, 1, 8, 2, 7, 3];
    wide_merge_sort(&mut data);
    assert_eq!(data, vec![1, 2, 3, 7, 8, 9]);
}

#[test]
fn count_unique_in_sorted_examples() {
    assert_eq!(count_unique_in_sorted(&[]), 0);
    assert_eq!(count_unique_in_sorted(&[4]), 1);
    assert_eq!(count_unique_in_sorted(&[1, 1, 2, 3, 3, 5]), 4);
    assert_eq!(count_unique_in_sorted(&[7, 7, 7]), 1);
}

#[test]
fn count_unique_in_sorted_counts_changes_on_any_input() {
    assert_eq!(count_unique_in_sorted(&[1, 2, 1]), 3);
    assert_eq!(count_unique_in_sorted(&[3, 3, 1, 1, 3]), 3);
}
