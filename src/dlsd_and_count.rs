//! Distinct counting fused into the adaptive radix sort.
//!
//! The passes are those of the sort. The last pass does not keep a sorted
//! array: a bucket holds only the keys of its current group (equal bits from
//! the lowest digit read up to the top), because the keys of a bucket arrive
//! in order of those bits and a finished group is never seen again. A key is
//! counted when the key before it in its bucket differs from it.
use vstd::arithmetic::power2::lemma2_to64;
use vstd::bits::lemma_u64_shr_is_div;
use vstd::prelude::*;
use vstd::seq_lib::*;
use vstd::set_lib::*;

use crate::dlsd::{lemma_insert_sorted, num_passes};
use crate::hashers::StatelessU64Hasher;
use crate::radix::{
    bucket, bucket_start, bucket_starts, compute_counts, deal_pass, digit, has_digit, hashed,
    high_bits, histogram_of, lemma_deal_all, lemma_deal_stable, lemma_high_bits_order,
    lemma_high_is_low_key, lemma_histogram_permutation, lemma_low_key_step, lemma_prefix_bucket,
    lemma_start_bounds, lemma_start_mono, lemma_start_next, low_key, pass_shift, read_radix, zeroed,
    LG_RADIX, MAX_PASSES, RADIX, WORD_BITS,
};
use crate::seq_facts::{sorted, sorted_by_key};

verus! {

/// What a bucket's region `r` holds while the last pass runs, given the keys
/// `b` that have arrived in that bucket so far: one group's keys, sorted,
/// each once at least, and that group is the highest seen.
pub open spec fn region_summarizes(r: Seq<u64>, b: Seq<u64>, s0: nat) -> bool {
    &&& sorted(r)
    &&& (r.len() == 0 <==> b.len() == 0)
    &&& r.len() <= b.len()
    &&& r.len() > 0 ==> {
        &&& forall|q: int| 0 <= q < r.len() ==> high_bits(#[trigger] r[q], s0) == high_bits(r[0], s0)
        &&& forall|x: u64| #[trigger]
            r.contains(x) <==> (b.contains(x) && high_bits(x, s0) == high_bits(r[0], s0))
        &&& forall|x: u64| #[trigger] b.contains(x) ==> high_bits(x, s0) <= high_bits(r[0], s0)
    }
}

/// A new group begins: its first key `w` is new, and the region restarts
/// with `w` alone.
pub proof fn lemma_group_restart(r: Seq<u64>, b: Seq<u64>, s0: nat, w: u64, k: int)
    requires
        region_summarizes(r, b, s0),
        0 < k <= r.len(),
        high_bits(r[k - 1], s0) != high_bits(w, s0),
        forall|x: u64| #[trigger] b.contains(x) ==> high_bits(x, s0) <= high_bits(w, s0),
    ensures
        !b.contains(w),
        r[k - 1] != w,
        region_summarizes(seq![w], b.push(w), s0),
{
    assert(r.contains(r[0]));
    assert(high_bits(r[k - 1], s0) == high_bits(r[0], s0));
    let t = seq![w];
    assert(t[0] == w);
    assert(b.push(w)[b.len() as int] == w);
    assert forall|x: u64| #[trigger] t.contains(x) <==> (b.push(w).contains(x) && high_bits(x, s0) == high_bits(t[0], s0)) by {
        if t.contains(x) {
            let q = choose|q: int| 0 <= q < t.len() && t[q] == x;
            assert(q == 0);
        }
        if b.push(w).contains(x) && high_bits(x, s0) == high_bits(t[0], s0) {
            let q = choose|q: int| 0 <= q < b.push(w).len() && b.push(w)[q] == x;
            if q < b.len() {
                assert(b[q] == x);
                assert(b.contains(x));
                assert(high_bits(x, s0) <= high_bits(r[0], s0));
            }
        }
    }
    assert forall|x: u64| #[trigger] b.push(w).contains(x) implies high_bits(x, s0) <= high_bits(t[0], s0) by {
        let q = choose|q: int| 0 <= q < b.push(w).len() && b.push(w)[q] == x;
        if q < b.len() {
            assert(b.contains(x));
        }
    }
}

/// The key `w` joins the current group at position `k` of the region; it is
/// new exactly when the key before it differs.
pub proof fn lemma_group_insert(r: Seq<u64>, b: Seq<u64>, s0: nat, w: u64, k: int)
    requires
        region_summarizes(r, b, s0),
        0 <= k <= r.len(),
        forall|q: int| 0 <= q < k ==> r[q] <= w,
        forall|q: int| k <= q < r.len() ==> r[q] > w,
        k > 0 ==> high_bits(r[k - 1], s0) == high_bits(w, s0),
        forall|x: u64| #[trigger] b.contains(x) ==> high_bits(x, s0) <= high_bits(w, s0),
    ensures
        b.contains(w) <==> (k > 0 && r[k - 1] == w),
        region_summarizes(r.insert(k, w), b.push(w), s0),
{
    let t = r.insert(k, w);
    lemma_insert_sorted(r, k, w);
    assert(t.len() == r.len() + 1);
    if r.len() > 0 {
        assert(r.contains(r[0]));
        if k > 0 {
            assert(high_bits(r[k - 1], s0) == high_bits(r[0], s0));
        } else {
            assert(r[0] > w);
            if high_bits(r[0], s0) < high_bits(w, s0) {
                lemma_high_bits_order(r[0], w, s0);
            }
        }
        assert(high_bits(r[0], s0) == high_bits(w, s0));
    }
    assert(high_bits(t[0], s0) == high_bits(w, s0)) by {
        if k > 0 {
            assert(t[0] == r[0]);
        }
    }
    assert forall|q: int| 0 <= q < t.len() implies high_bits(#[trigger] t[q], s0) == high_bits(t[0], s0) by {
        if q < k {
            assert(t[q] == r[q]);
        } else if q > k {
            assert(t[q] == r[q - 1]);
        }
    }
    assert(b.push(w)[b.len() as int] == w);
    assert forall|x: u64| #[trigger] t.contains(x) <==> (b.push(w).contains(x) && high_bits(x, s0) == high_bits(t[0], s0)) by {
        if t.contains(x) {
            let q = choose|q: int| 0 <= q < t.len() && t[q] == x;
            assert(high_bits(t[q], s0) == high_bits(t[0], s0));
            if q != k {
                let m = if q < k { q } else { q - 1 };
                assert(r[m] == x);
                assert(r.contains(x));
                assert(b.contains(x));
                let n = choose|n: int| 0 <= n < b.len() && b[n] == x;
                assert(b.push(w)[n] == x);
            }
        }
        if b.push(w).contains(x) && high_bits(x, s0) == high_bits(t[0], s0) {
            let q = choose|q: int| 0 <= q < b.push(w).len() && b.push(w)[q] == x;
            if q < b.len() {
                assert(b[q] == x);
                assert(b.contains(x));
                assert(r.contains(x));
                let m = choose|m: int| 0 <= m < r.len() && r[m] == x;
                if m < k {
                    assert(t[m] == x);
                } else {
                    assert(t[m + 1] == x);
                }
            } else {
                assert(t[k] == w);
            }
        }
    }
    assert forall|x: u64| #[trigger] b.push(w).contains(x) implies high_bits(x, s0) <= high_bits(t[0], s0) by {
        let q = choose|q: int| 0 <= q < b.push(w).len() && b.push(w)[q] == x;
        if q < b.len() {
            assert(b.contains(x));
        }
    }
    if b.contains(w) {
        assert(r.len() > 0);
        assert(r.contains(w));
        let m = choose|m: int| 0 <= m < r.len() && r[m] == w;
        assert(m < k);
        assert(r[m] <= r[k - 1]);
    }
    if k > 0 && r[k - 1] == w {
        assert(r.contains(r[k - 1]));
    }
}

/// Keys that arrive in the same bucket of the last pass arrive in order of
/// their high bits, once the earlier passes have ordered the lower digits.
pub proof fn lemma_arrival(s: Seq<u64>, s0: nat, m: int, i: int)
    requires
        s0 <= 54,
        sorted_by_key(s, low_key(s0, (54 - s0) as nat)),
        0 <= m < i < s.len(),
        digit(s[m], 54) == digit(s[i], 54),
    ensures
        high_bits(s[m], s0) <= high_bits(s[i], s0),
{
    let b = (54 - s0) as nat;
    lemma_low_key_step(s[m], s0, b);
    lemma_low_key_step(s[i], s0, b);
    lemma_high_is_low_key(s[m], s0);
    lemma_high_is_low_key(s[i], s0);
    assert(b + 10 == 64 - s0);
    assert(s0 + b == 54);
}

/// A key in the bucket of a prefix stands in that prefix with that digit.
pub proof fn lemma_bucket_member(s: Seq<u64>, i: int, d: nat, x: u64) -> (m: int)
    requires
        0 <= i <= s.len(),
        bucket(s.take(i), 54, d).contains(x),
    ensures
        0 <= m < i,
        s[m] == x,
        digit(x, 54) == d,
{
    broadcast use group_filter_ensures;

    s.take(i).lemma_filter_contains_rev(has_digit(54, d), x);
    let k = choose|k: int| 0 <= k < bucket(s.take(i), 54, d).len() && bucket(s.take(i), 54, d)[k] == x;
    assert(has_digit(54, d)(bucket(s.take(i), 54, d)[k]));
    let m = choose|m: int| 0 <= m < i && s.take(i)[m] == x;
    m
}

/// The last pass of the counting sort: deals by the top digit, keeps in each
/// bucket the sorted keys of its current group, and counts every key that the
/// key before it in its bucket does not equal.
fn count_deal_pass(from: &Vec<u64>, to: &mut Vec<u64>, counts: &Vec<usize>, passes: usize) -> (count: usize)
    requires
        1 <= passes <= MAX_PASSES,
        old(to).len() == from.len(),
        histogram_of(counts@, from@, passes as nat),
        sorted_by_key(from@, low_key(pass_shift(0, passes as nat), (10 * (passes - 1)) as nat)),
    ensures
        count == from@.to_set().len(),
{
    let ghost s = from@;
    let ghost s0 = pass_shift(0, passes as nat);
    let n = from.len();
    let pass = passes - 1;
    let group_shift: u64 = WORD_BITS - (passes as u64) * LG_RADIX;
    proof {
        assert(pass_shift(pass as nat, passes as nat) == 54);
        assert(group_shift == s0);
        assert(54 - s0 == 10 * (passes - 1));
        assert forall|d: int| 0 <= d < 1024 implies #[trigger] counts[pass * RADIX + d] == bucket(s, 54, d as nat).len() by {
            assert(counts[pass * 1024 + d] == bucket(s, pass_shift(pass as nat, passes as nat), d as nat).len());
        }
    }
    let starts = bucket_starts(counts, pass * RADIX, Ghost(s), Ghost(54));
    let mut heads = bucket_starts(counts, pass * RADIX, Ghost(s), Ghost(54));
    let mut unique_count: usize = 0;
    let mut i: usize = 0;
    proof {
        assert forall|e: int| 0 <= e < 1024 implies #[trigger] bucket(s.take(0), 54, e as nat) =~= Seq::<u64>::empty() by {
            reveal(Seq::filter);
        }
        assert forall|e: int| 0 <= e < 1024 implies region_summarizes(
                #[trigger] to@.subrange(bucket_start(s, 54, e as nat) as int, heads[e] as int),
                bucket(s.take(0), 54, e as nat),
                s0,
            ) by {
            lemma_start_bounds(s, 54, e as nat);
            assert(to@.subrange(bucket_start(s, 54, e as nat) as int, heads[e] as int) =~= Seq::<u64>::empty());
        }
        assert(s.take(0).to_set() =~= Set::<u64>::empty());
    }
    while i < n
        invariant
            pass + 1 == passes <= MAX_PASSES,
            s == from@,
            s0 == pass_shift(0, passes as nat),
            s0 == group_shift,
            s0 <= 54,
            sorted_by_key(s, low_key(s0, (54 - s0) as nat)),
            n == s.len(),
            to.len() == n,
            i <= n,
            unique_count <= i,
            unique_count == s.take(i as int).to_set().len(),
            starts.len() == RADIX,
            heads.len() == RADIX,
            forall|e: int| 0 <= e < 1024 ==> #[trigger] starts[e] == bucket_start(s, 54, e as nat),
            forall|e: int| 0 <= e < 1024 ==> #[trigger] heads[e] >= bucket_start(s, 54, e as nat),
            forall|e: int|
                0 <= e < 1024 ==> #[trigger] heads[e] <= bucket_start(s, 54, e as nat) + bucket(
                    s.take(i as int),
                    54,
                    e as nat,
                ).len(),
            forall|e: int|
                0 <= e < 1024 ==> region_summarizes(
                    #[trigger] to@.subrange(bucket_start(s, 54, e as nat) as int, heads[e] as int),
                    bucket(s.take(i as int), 54, e as nat),
                    s0,
                ),
        decreases n - i,
    {
        let w = from[i];
        let dd = read_radix(w, pass, passes);
        let st = starts[dd];
        let pos = heads[dd];
        let ghost b = bucket(s.take(i as int), 54, dd as nat);
        let ghost old_to = to@;
        let ghost old_heads = heads@;
        let ghost r = old_to.subrange(st as int, pos as int);
        proof {
            lemma_prefix_bucket(s, 54, dd as nat, i as int);
            lemma_start_bounds(s, 54, dd as nat);
            lemma_start_next(s, 54, dd as nat);
            assert(w == s[i as int]);
            assert(region_summarizes(r, b, s0));
            assert forall|e: int| 0 <= e < 1024 implies #[trigger] heads[e] <= bucket_start(s, 54, (e + 1) as nat) by {
                lemma_prefix_bucket(s, 54, e as nat, i as int);
                lemma_start_next(s, 54, e as nat);
            }
            assert forall|x: u64| #[trigger] b.contains(x) implies high_bits(x, s0) <= high_bits(w, s0) by {
                let m = lemma_bucket_member(s, i as int, dd as nat, x);
                lemma_arrival(s, s0, m, i as int);
            }
        }
        let mut j = pos;
        while j > st && to[j - 1] > w
            invariant
                st <= j <= pos < n,
                to.len() == n,
                forall|q: int| 0 <= q < n && !(j < q <= pos) ==> #[trigger] to@[q] == old_to[q],
                forall|q: int| j < q <= pos ==> #[trigger] to@[q] == old_to[q - 1],
                forall|q: int| j < q <= pos ==> #[trigger] to@[q] > w,
            decreases j,
        {
            let v = to[j - 1];
            to[j] = v;
            j -= 1;
        }
        to[j] = w;
        let ghost k = j - st;
        proof {
            assert(to@.subrange(st as int, pos + 1) =~= r.insert(k, w));
            assert forall|q: int| 0 <= q < k implies r[q] <= w by {
                assert(r[k - 1] == old_to[j - 1]);
                assert(r[q] <= r[k - 1]);
            }
            assert forall|q: int| k <= q < r.len() implies r[q] > w by {
                assert(to@[st + q + 1] == old_to[st + q]);
            }
        }
        if j > st {
            let prev = to[j - 1];
            proof {
                assert(prev == r[k - 1]);
                lemma_u64_shr_is_div(prev, group_shift);
                lemma_u64_shr_is_div(w, group_shift);
            }
            if prev < w {
                unique_count += 1;
            }
            if (prev >> group_shift) != (w >> group_shift) {
                // A new group begins: the keys of the finished one are no longer needed.
                to[st] = w;
                heads[dd] = st + 1;
                proof {
                    lemma_group_restart(r, b, s0, w, k);
                    assert(to@.subrange(st as int, st + 1) =~= seq![w]);
                }
            } else {
                heads[dd] = pos + 1;
                proof {
                    lemma_group_insert(r, b, s0, w, k);
                }
            }
        } else {
            unique_count += 1;
            heads[dd] = pos + 1;
            proof {
                lemma_group_insert(r, b, s0, w, k);
            }
        }
        i += 1;
        proof {
            let t0 = s.take(i - 1);
            assert(s.take(i as int) =~= t0.push(w));
            t0.lemma_push_to_set_commute(w);
            assert(t0.contains(w) <==> b.contains(w)) by {
                if t0.contains(w) {
                    let m = choose|m: int| 0 <= m < t0.len() && t0[m] == w;
                    t0.lemma_filter_contains(has_digit(54, dd as nat), m);
                }
                if b.contains(w) {
                    t0.lemma_filter_contains_rev(has_digit(54, dd as nat), w);
                }
            }
            seq_to_set_is_finite(t0);
            assert forall|e: int| 0 <= e < 1024 implies #[trigger] heads[e] <= bucket_start(s, 54, e as nat) + bucket(
                    s.take(i as int),
                    54,
                    e as nat,
                ).len() by {
                lemma_prefix_bucket(s, 54, e as nat, (i - 1) as int);
            }
            assert forall|e: int| 0 <= e < 1024 implies region_summarizes(
                    #[trigger] to@.subrange(bucket_start(s, 54, e as nat) as int, heads[e] as int),
                    bucket(s.take(i as int), 54, e as nat),
                    s0,
                ) by {
                lemma_prefix_bucket(s, 54, e as nat, (i - 1) as int);
                lemma_start_bounds(s, 54, e as nat);
                lemma_start_next(s, 54, e as nat);
                if e != dd as int {
                    let r0 = old_to.subrange(bucket_start(s, 54, e as nat) as int, old_heads[e] as int);
                    if e < dd {
                        lemma_start_mono(s, 54, (e + 1) as nat, dd as nat);
                    } else {
                        lemma_start_mono(s, 54, (dd + 1) as nat, e as nat);
                    }
                    assert(to@.subrange(bucket_start(s, 54, e as nat) as int, heads[e] as int) =~= r0);
                } else {
                    assert(bucket(s.take(i as int), 54, e as nat) == b.push(w));
                    assert(region_summarizes(
                        to@.subrange(bucket_start(s, 54, e as nat) as int, heads[e] as int),
                        b.push(w),
                        s0,
                    ));
                }
            }
        }
    }
    proof {
        assert(s.take(n as int) =~= s);
    }
    unique_count
}

/// The number of distinct mixed keys of `orig_data`: how many different
/// values `H::hash(x)` takes over the input.
pub fn dlsd_sort_and_count<H: StatelessU64Hasher>(orig_data: &[u64]) -> (r: usize)
    ensures
        r == hashed::<H>(orig_data@).to_set().len(),
{
    let n = orig_data.len();
    let passes = num_passes(n);
    let (data, counts) = compute_counts::<H>(orig_data, passes);
    let ghost mixed = data@;
    let ghost s0 = pass_shift(0, passes as nat);
    let mut from = data;
    let mut to = zeroed(n, 0u64);
    let mut pass: usize = 0;
    proof {
        // Keyed by zero bits, every order is sorted.
        lemma2_to64();
        assert forall|i: int, j: int| 0 <= i < j < from@.len() implies low_key(s0, 0)(from@[i]) <= low_key(s0, 0)(
            from@[j],
        ) by {}
    }
    // Every pass but the last deals by its digit; the buffers then trade roles.
    while pass + 1 < passes
        invariant
            1 <= passes <= MAX_PASSES,
            pass < passes,
            s0 == pass_shift(0, passes as nat),
            mixed.len() == n,
            from.len() == n,
            to.len() == n,
            from@.to_multiset() == mixed.to_multiset(),
            histogram_of(counts@, mixed, passes as nat),
            sorted_by_key(from@, low_key(s0, (10 * pass) as nat)),
        decreases passes - pass,
    {
        proof {
            lemma_histogram_permutation(counts@, mixed, from@, passes as nat);
            assert forall|d: int| 0 <= d < 1024 implies #[trigger] counts[pass * RADIX + d] == bucket(
                    from@,
                    pass_shift(pass as nat, passes as nat),
                    d as nat,
                ).len() by {
                assert(counts[pass * 1024 + d] == bucket(from@, pass_shift(pass as nat, passes as nat), d as nat).len());
            }
            assert(pass * RADIX + RADIX <= counts.len()) by (nonlinear_arith)
                requires pass + 1 < passes, counts.len() == passes * 1024;
            assert(pass_shift(pass as nat, passes as nat) == s0 + 10 * pass);
            lemma_deal_stable(from@, s0, (10 * pass) as nat, 1024);
        }
        deal_pass(&from, &mut to, &counts, pass, passes);
        proof {
            lemma_deal_all(from@, pass_shift(pass as nat, passes as nat));
            assert((10 * pass) as nat + 10 == (10 * (pass + 1)) as nat);
        }
        let dealt = to;
        to = from;
        from = dealt;
        pass += 1;
    }
    proof {
        lemma_histogram_permutation(counts@, mixed, from@, passes as nat);
    }
    let count = count_deal_pass(&from, &mut to, &counts, passes);
    proof {
        broadcast use group_to_multiset_ensures;

        assert(from@.to_set() =~= mixed.to_set()) by {
            assert forall|x: u64| from@.contains(x) <==> mixed.contains(x) by {
                assert(from@.to_multiset().count(x) == mixed.to_multiset().count(x));
            }
        }
    }
    count
}

} // verus!
