//! Fast sorting and distinct counting for large arrays of 64-bit keys.
//!
//! Three hand-built algorithms live here, each with a machine-checked contract:
//! an adaptive radix sort that finishes every bucket with insertion sort (and a
//! variant that counts distinct values while it sorts), an open-addressing set
//! over cache-line-sized buckets of 64-bit keys, and a 256-way merge sort that
//! merges through a tournament ("loser") tree.
use vstd::prelude::*;

pub mod counting;
pub mod dlsd;
pub mod dlsd_and_count;
pub mod hashers;
pub mod loser_tree;
pub mod radix;
pub mod seq_facts;
pub mod u64_hash_set;
pub mod wide_merge_sort;

pub use counting::{count_unique_by_hashed_sort, count_unique_by_u64_hash, count_unique_in_sorted};
pub use dlsd::dlsd_sort;
pub use dlsd_and_count::dlsd_sort_and_count;
pub use hashers::{MulSwapMulHasher, MurmurHasher, NoopHasher, StatelessU64Hasher, U64Hasher};
pub use u64_hash_set::{CapacityOverflow, U64HashSet};
pub use wide_merge_sort::wide_merge_sort;
