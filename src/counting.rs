//! Counting distinct keys with the library's structures.
use vstd::prelude::*;
use vstd::seq_lib::*;
use vstd::set_lib::*;

use voracious_radix_sort::RadixSort;

use crate::hashers::StatelessU64Hasher;
use crate::radix::hashed;
use crate::seq_facts::sorted;
use crate::u64_hash_set::{buckets_for, lemma_buckets_for, CapacityOverflow, U64HashSet};

verus! {

/// How many neighbouring pairs of `s` hold different keys.
pub open spec fn count_changes(s: Seq<u64>) -> nat
    decreases s.len(),
{
    if s.len() <= 1 {
        0
    } else {
        count_changes(s.drop_last()) + if s.last() != s[s.len() - 2] {
            1nat
        } else {
            0
        }
    }
}

/// One, plus one for every key that differs from the key before it; zero for
/// an empty slice. On a sorted slice that is the number of distinct keys.
pub fn count_unique_in_sorted(sorted_data: &[u64]) -> (r: usize)
    ensures
        r == if sorted_data@.len() == 0 {
            0
        } else {
            1 + count_changes(sorted_data@)
        },
        sorted(sorted_data@) ==> r == sorted_data@.to_set().len(),
{
    let ghost s = sorted_data@;
    let n = sorted_data.len();
    if n == 0 {
        proof {
            assert(s.to_set() =~= Set::<u64>::empty());
        }
        return 0;
    }
    let mut count: usize = 1;
    let mut prev = sorted_data[0];
    let mut i: usize = 1;
    proof {
        assert(s.take(1) =~= Seq::<u64>::empty().push(s[0]));
        Seq::<u64>::empty().lemma_push_to_set_commute(s[0]);
        assert(Seq::<u64>::empty().to_set() =~= Set::<u64>::empty());
        assert(Set::<u64>::empty().insert(s[0]).len() == 1);
        assert(count_changes(s.take(1)) == 0);
    }
    while i < n
        invariant
            s == sorted_data@,
            n == s.len(),
            1 <= i <= n,
            count <= i,
            prev == s[i - 1],
            count == 1 + count_changes(s.take(i as int)),
            sorted(s) ==> count == s.take(i as int).to_set().len(),
        decreases n - i,
    {
        let current = sorted_data[i];
        proof {
            let t = s.take(i as int);
            assert(s.take(i + 1) =~= t.push(current));
            assert(s.take(i + 1).drop_last() =~= t);
            t.lemma_push_to_set_commute(current);
            seq_to_set_is_finite(t);
            if sorted(s) {
                if current != prev {
                    assert(!t.to_set().contains(current)) by {
                        if t.to_set().contains(current) {
                            let k = choose|k: int| 0 <= k < t.len() && t[k] == current;
                            assert(s[k] <= s[i - 1]);
                        }
                    }
                } else {
                    assert(t[i - 1] == current);
                    assert(t.to_set().contains(current));
                }
            }
        }
        if current != prev {
            count += 1;
        }
        prev = current;
        i += 1;
    }
    proof {
        assert(s.take(n as int) =~= s);
    }
    count
}

/// The number of distinct keys of `data`, counted by inserting every key into
/// a dense hash set sized for `domain_size` distinct keys. Fails when that set
/// cannot be built.
pub fn count_unique_by_u64_hash<H: StatelessU64Hasher>(data: &[u64], domain_size: usize) -> (r: Result<
    usize,
    CapacityOverflow,
>)
    requires
        data@.to_set().len() <= domain_size,
    ensures
        match r {
            Ok(count) => count == data@.to_set().len(),
            Err(_) => buckets_for(domain_size as nat) * 8 > usize::MAX,
        },
{
    let ghost s = data@;
    let mut set = match U64HashSet::<H>::with_capacity(domain_size) {
        Ok(set) => set,
        Err(e) => {
            return Err(e);
        },
    };
    proof {
        lemma_buckets_for(domain_size as nat);
        assert(s.take(0).to_set() =~= Set::<u64>::empty());
    }
    let n = data.len();
    let mut i: usize = 0;
    while i < n
        invariant
            s == data@,
            n == s.len(),
            i <= n,
            set.wf(),
            set@ == s.take(i as int).to_set(),
            set.slot_count() == 8 * buckets_for(domain_size as nat),
            buckets_for(domain_size as nat) * 8 >= 2 * domain_size,
            buckets_for(domain_size as nat) >= 1,
            s.to_set().len() <= domain_size,
        decreases n - i,
    {
        let d = data[i];
        proof {
            let t = s.take(i as int);
            assert(s.take(i + 1) =~= t.push(d));
            t.lemma_push_to_set_commute(d);
            seq_to_set_is_finite(s);
            assert(t.to_set().insert(d).subset_of(s.to_set())) by {
                assert forall|k: u64| t.to_set().insert(d).contains(k) implies s.to_set().contains(k) by {
                    if k != d {
                        let j = choose|j: int| 0 <= j < t.len() && t[j] == k;
                        assert(s[j] == k);
                    } else {
                        assert(s[i as int] == d);
                    }
                }
            }
            lemma_len_subset(t.to_set().insert(d), s.to_set());
            seq_to_set_is_finite(t);
        }
        set.insert(d);
        i += 1;
    }
    proof {
        assert(s.take(n as int) =~= s);
    }
    Ok(set.len())
}

/// Relies on voracious_radix_sort's `RadixSort::voracious_sort`: a sort, which
/// leaves the keys in ascending order and only reorders them.
#[verifier::external_body]
fn voracious_sort_keys(v: &mut Vec<u64>)
    ensures
        sorted(final(v)@),
        final(v)@.to_multiset() == old(v)@.to_multiset(),
{
    v.voracious_sort();
}

/// The number of distinct mixed keys of `data`, counted by sorting the mixed
/// keys with a general-purpose radix sort and counting the changes.
pub fn count_unique_by_hashed_sort<H: StatelessU64Hasher>(data: &[u64]) -> (r: usize)
    ensures
        r == hashed::<H>(data@).to_set().len(),
{
    let n = data.len();
    let mut hashed_data: Vec<u64> = Vec::with_capacity(n);
    let mut i: usize = 0;
    while i < n
        invariant
            n == data@.len(),
            i <= n,
            hashed_data@ == hashed::<H>(data@.take(i as int)),
        decreases n - i,
    {
        let h = H::hash(data[i]);
        hashed_data.push(h);
        i += 1;
        proof {
            assert(data@.take(i as int) =~= data@.take(i - 1).push(data@[i - 1]));
            assert(hashed_data@ =~= hashed::<H>(data@.take(i as int)));
        }
    }
    let ghost before = hashed_data@;
    proof {
        assert(data@.take(n as int) =~= data@);
    }
    voracious_sort_keys(&mut hashed_data);
    proof {
        broadcast use group_to_multiset_ensures;

        assert(hashed_data@.to_set() =~= before.to_set()) by {
            assert forall|x: u64| hashed_data@.contains(x) <==> before.contains(x) by {
                assert(hashed_data@.to_multiset().count(x) == before.to_multiset().count(x));
            }
        }
    }
    count_unique_in_sorted(hashed_data.as_slice())
}

} // verus!
