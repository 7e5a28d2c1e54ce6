//! Facts about sequences of keys shared by the sorts.
use vstd::prelude::*;
use vstd::relations::{sorted_by, total_ordering};
use vstd::seq_lib::*;

verus! {

/// `s` is in non-decreasing order.
pub open spec fn sorted(s: Seq<u64>) -> bool {
    forall|i: int, j: int| 0 <= i < j < s.len() ==> s[i] <= s[j]
}

/// `s` is in non-decreasing order of `key`.
pub open spec fn sorted_by_key(s: Seq<u64>, key: spec_fn(u64) -> int) -> bool {
    forall|i: int, j: int| 0 <= i < j < s.len() ==> key(s[i]) <= key(s[j])
}

/// How many times `v` occurs in the part of `s` that `p` keeps.
pub proof fn lemma_filter_count<A>(s: Seq<A>, p: spec_fn(A) -> bool, v: A)
    ensures
        s.filter(p).to_multiset().count(v) == if p(v) {
            s.to_multiset().count(v)
        } else {
            0
        },
    decreases s.len(),
{
    broadcast use group_to_multiset_ensures;

    if s.len() == 0 {
        reveal(Seq::filter);
        assert(s.to_multiset().len() == 0);
        assert(s.filter(p).to_multiset().len() == 0);
    } else {
        let t = s.drop_last();
        lemma_filter_count(t, p, v);
        assert(s =~= t.push(s.last()));
        t.lemma_filter_push(s.last(), p);
    }
}

/// Filtering keeps what a multiset of the whole determines.
pub proof fn lemma_filter_permutation<A>(s1: Seq<A>, s2: Seq<A>, p: spec_fn(A) -> bool)
    requires
        s1.to_multiset() == s2.to_multiset(),
    ensures
        s1.filter(p).to_multiset() == s2.filter(p).to_multiset(),
        s1.filter(p).len() == s2.filter(p).len(),
{
    broadcast use group_to_multiset_ensures;

    assert forall|v: A| s1.filter(p).to_multiset().count(v) == s2.filter(p).to_multiset().count(v) by {
        lemma_filter_count(s1, p, v);
        lemma_filter_count(s2, p, v);
    }
    assert(s1.filter(p).to_multiset() =~= s2.filter(p).to_multiset());
    to_multiset_len(s1.filter(p));
    to_multiset_len(s2.filter(p));
}

/// A subsequence kept by a filter stays in order of `key`.
pub proof fn lemma_filter_sorted_by_key(s: Seq<u64>, p: spec_fn(u64) -> bool, key: spec_fn(u64) -> int)
    requires
        sorted_by_key(s, key),
    ensures
        sorted_by_key(s.filter(p), key),
    decreases s.len(),
{
    broadcast use group_filter_ensures;

    if s.len() > 0 {
        let t = s.drop_last();
        assert(sorted_by_key(t, key));
        lemma_filter_sorted_by_key(t, p, key);
        assert(s =~= t.push(s.last()));
        t.lemma_filter_push(s.last(), p);
        if p(s.last()) {
            let f = t.filter(p);
            assert forall|i: int| 0 <= i < f.len() implies key(f[i]) <= key(s.last()) by {
                t.lemma_filter_contains_rev(p, f[i]);
                assert(f.contains(f[i]));
                let k = choose|k: int| 0 <= k < t.len() && t[k] == f[i];
                assert(s[k] == t[k]);
            }
        }
    }
}

/// A sorted reordering is unique: two sorted sequences that hold the same keys
/// are equal. So sorting a sorted array leaves it as it was, and two correct
/// sorts of one array agree key for key.
pub proof fn lemma_sorted_permutation_unique(a: Seq<u64>, b: Seq<u64>)
    requires
        sorted(a),
        sorted(b),
        a.to_multiset() == b.to_multiset(),
    ensures
        a == b,
{
    let leq = |x: u64, y: u64| x <= y;
    assert(total_ordering(leq));
    assert(sorted_by(a, leq));
    assert(sorted_by(b, leq));
    lemma_sorted_unique(a, b, leq);
}

/// Sorting keys that are all different yields them in strictly ascending order.
pub proof fn lemma_sorted_distinct_strict(input: Seq<u64>, output: Seq<u64>)
    requires
        input.no_duplicates(),
        sorted(output),
        output.to_multiset() == input.to_multiset(),
    ensures
        forall|i: int, j: int| 0 <= i < j < output.len() ==> output[i] < output[j],
{
    input.lemma_multiset_has_no_duplicates();
    assert forall|x: u64| output.to_multiset().contains(x) implies output.to_multiset().count(x) == 1 by {
        assert(input.to_multiset().contains(x));
    }
    output.lemma_multiset_has_no_duplicates_conv();
    assert forall|i: int, j: int| 0 <= i < j < output.len() implies output[i] < output[j] by {
        assert(output[i] <= output[j]);
        assert(output[i] != output[j]);
    }
}

} // verus!
