//! Adaptive radix sort of mixed keys that finishes each bucket by insertion.
//!
//! Only as many 10-bit digits of the top of the mixed keys are dealt as it
//! takes to split `n` keys into buckets of expected constant size. The last
//! pass deals by the top digit and insertion-sorts every key into its bucket,
//! which settles the order of the bits that no pass read.
use vstd::arithmetic::div_mod::*;
use vstd::arithmetic::power2::*;
use vstd::prelude::*;
use vstd::seq_lib::*;

use crate::hashers::StatelessU64Hasher;
use crate::radix::{
    bucket, bucket_start, bucket_starts, compute_counts, deal, deal_pass, digit, hashed,
    histogram_of, lemma_deal_all, lemma_histogram_permutation, lemma_prefix_bucket,
    lemma_start_bounds, lemma_start_mono, lemma_start_next, pass_shift, read_radix, zeroed,
    MAX_PASSES, RADIX,
};
use crate::seq_facts::sorted;

verus! {

/// The number of bits of `m`: the bits needed to address `m + 1` keys.
pub open spec fn bit_len(m: nat) -> nat
    decreases m,
{
    if m == 0 {
        0
    } else {
        1 + bit_len(m / 2)
    }
}

/// The passes that a sort of `n` keys makes: one 10-bit digit for every ten
/// bits it takes to address `n` keys (`n` rounded up to a power of two), at
/// least one pass and at most `MAX_PASSES`.
pub open spec fn passes_for(n: nat) -> nat {
    let digits = (bit_len((if n == 0 { 0 } else { n - 1 }) as nat) + 9) / 10;
    if digits == 0 {
        1
    } else if digits > MAX_PASSES {
        MAX_PASSES as nat
    } else {
        digits
    }
}

proof fn lemma_bit_len_bound(x: nat, k: nat)
    requires
        x < pow2(k),
    ensures
        bit_len(x) <= k,
    decreases k,
{
    if x > 0 {
        if k == 0 {
            lemma2_to64();
        } else {
            lemma_pow2_unfold(k);
            lemma_bit_len_bound(x / 2, (k - 1) as nat);
        }
    }
}

pub fn num_passes(n: usize) -> (passes: usize)
    ensures
        passes == passes_for(n as nat),
        1 <= passes <= MAX_PASSES,
{
    // Bits needed to address n keys: ceil(log2(n)).
    let mut lg: usize = 0;
    let mut m: usize = if n == 0 {
        0
    } else {
        n - 1
    };
    let ghost m0 = m as nat;
    proof {
        lemma2_to64_rest();
        lemma_bit_len_bound(m0, 64);
    }
    while m > 0
        invariant
            lg + bit_len(m as nat) == bit_len(m0),
            bit_len(m0) <= 64,
        decreases m,
    {
        m = m / 2;
        lg += 1;
    }
    let digits = (lg + 9) / 10;
    if digits == 0 {
        1
    } else if digits > MAX_PASSES {
        MAX_PASSES
    } else {
        digits
    }
}

/// Keys whose top digits differ are ordered by them.
pub proof fn lemma_top_digit_order(x: u64, y: u64)
    requires
        digit(x, 54) < digit(y, 54),
    ensures
        x < y,
{
    lemma2_to64_rest();
    lemma_pow2_pos(54);
    assert(pow2(54) * 1024 == 0x1_0000_0000_0000_0000);
    lemma_multiply_divide_lt(x as int, pow2(54) as int, 1024);
    lemma_multiply_divide_lt(y as int, pow2(54) as int, 1024);
    lemma_small_mod((x as nat / pow2(54)) as nat, 1024);
    lemma_small_mod((y as nat / pow2(54)) as nat, 1024);
    if x >= y {
        lemma_div_is_ordered(y as int, x as int, pow2(54) as int);
    }
}

/// Every key of `r` has digit `e` at `sh`.
pub open spec fn all_have_digit(r: Seq<u64>, sh: nat, e: nat) -> bool {
    forall|q: int| 0 <= q < r.len() ==> digit(#[trigger] r[q], sh) == e
}

/// The bucket that holds position `q` of a dealt sequence.
pub proof fn lemma_region_of(s: Seq<u64>, sh: nat, q: int, d: nat) -> (e: nat)
    requires
        d <= 1024,
        0 <= q < bucket_start(s, sh, d),
    ensures
        e < d,
        bucket_start(s, sh, e) <= q < bucket_start(s, sh, e + 1),
    decreases d,
{
    let e0 = (d - 1) as nat;
    if bucket_start(s, sh, e0) <= q {
        e0
    } else {
        lemma_region_of(s, sh, q, e0)
    }
}

/// Sorted buckets, laid out in order of the top digit, make a sorted whole.
pub proof fn lemma_regions_sorted(t: Seq<u64>, s: Seq<u64>)
    requires
        t.len() == s.len(),
        forall|e: nat|
            e < 1024 ==> sorted(
                #[trigger] t.subrange(bucket_start(s, 54, e) as int, bucket_start(s, 54, e + 1) as int),
            ),
        forall|e: nat|
            e < 1024 ==> all_have_digit(
                #[trigger] t.subrange(bucket_start(s, 54, e) as int, bucket_start(s, 54, e + 1) as int),
                54,
                e,
            ),
    ensures
        sorted(t),
{
    lemma_deal_all(s, 54);
    assert forall|q1: int, q2: int| 0 <= q1 < q2 < t.len() implies t[q1] <= t[q2] by {
        let e1 = lemma_region_of(s, 54, q1, 1024);
        let e2 = lemma_region_of(s, 54, q2, 1024);
        lemma_start_mono(s, 54, e1 + 1, 1024);
        lemma_start_mono(s, 54, e2 + 1, 1024);
        if e1 == e2 {
            let r = t.subrange(bucket_start(s, 54, e1) as int, bucket_start(s, 54, e1 + 1) as int);
            assert(sorted(r));
            assert(r[q1 - bucket_start(s, 54, e1)] <= r[q2 - bucket_start(s, 54, e1)]);
        } else if e1 < e2 {
            let r1 = t.subrange(bucket_start(s, 54, e1) as int, bucket_start(s, 54, e1 + 1) as int);
            let r2 = t.subrange(bucket_start(s, 54, e2) as int, bucket_start(s, 54, e2 + 1) as int);
            assert(all_have_digit(r1, 54, e1));
            assert(all_have_digit(r2, 54, e2));
            assert(r1[q1 - bucket_start(s, 54, e1)] == t[q1]);
            assert(r2[q2 - bucket_start(s, 54, e2)] == t[q2]);
            lemma_top_digit_order(t[q1], t[q2]);
        } else {
            lemma_start_mono(s, 54, e2 + 1, e1);
        }
    }
}

/// A sequence whose bucket regions hold the buckets of `s`, in any order
/// within each, is a reordering of `s`.
pub proof fn lemma_regions_permutation(t: Seq<u64>, s: Seq<u64>, sh: nat, d: nat)
    requires
        d <= 1024,
        t.len() == s.len(),
        forall|e: nat|
            e < 1024 ==> (#[trigger] t.subrange(
                bucket_start(s, sh, e) as int,
                bucket_start(s, sh, e + 1) as int,
            )).to_multiset() == bucket(s, sh, e).to_multiset(),
    ensures
        t.subrange(0, bucket_start(s, sh, d) as int).to_multiset() == deal(s, sh, d).to_multiset(),
    decreases d,
{
    if d == 0 {
        assert(t.subrange(0, 0) =~= deal(s, sh, 0));
    } else {
        let e = (d - 1) as nat;
        lemma_regions_permutation(t, s, sh, e);
        lemma_start_mono(s, sh, e, d);
        lemma_start_mono(s, sh, d, 1024);
        lemma_deal_all(s, sh);
        let a = t.subrange(0, bucket_start(s, sh, e) as int);
        let b = t.subrange(bucket_start(s, sh, e) as int, bucket_start(s, sh, e + 1) as int);
        assert(t.subrange(0, bucket_start(s, sh, d) as int) =~= a + b);
        lemma_multiset_commutative(a, b);
        lemma_multiset_commutative(deal(s, sh, e), bucket(s, sh, e));
    }
}

/// Inserting `w` where everything before is no larger and everything after
/// is larger keeps a sorted sequence sorted.
pub proof fn lemma_insert_sorted(r: Seq<u64>, k: int, w: u64)
    requires
        sorted(r),
        0 <= k <= r.len(),
        forall|q: int| 0 <= q < k ==> r[q] <= w,
        forall|q: int| k <= q < r.len() ==> r[q] > w,
    ensures
        sorted(r.insert(k, w)),
{
    let t = r.insert(k, w);
    assert forall|q1: int, q2: int| 0 <= q1 < q2 < t.len() implies t[q1] <= t[q2] by {
        if q2 < k {
            assert(t[q1] == r[q1] && t[q2] == r[q2]);
        } else if q2 == k {
            assert(t[q1] == r[q1]);
        } else if q1 < k {
            assert(t[q1] == r[q1] && t[q2] == r[q2 - 1]);
        } else if q1 == k {
            assert(t[q2] == r[q2 - 1]);
        } else {
            assert(t[q1] == r[q1 - 1] && t[q2] == r[q2 - 1]);
        }
    }
}

/// The last pass: deals by the top digit and insertion-sorts every key into
/// its bucket, leaving `to` sorted.
fn insertion_deal_pass(from: &Vec<u64>, to: &mut Vec<u64>, counts: &Vec<usize>, passes: usize)
    requires
        1 <= passes <= MAX_PASSES,
        old(to).len() == from.len(),
        histogram_of(counts@, from@, passes as nat),
    ensures
        sorted(final(to)@),
        final(to)@.to_multiset() == from@.to_multiset(),
{
    let ghost s = from@;
    let n = from.len();
    let pass = passes - 1;
    proof {
        assert(pass_shift(pass as nat, passes as nat) == 54);
        assert forall|d: int| 0 <= d < 1024 implies #[trigger] counts[pass * RADIX + d] == bucket(s, 54, d as nat).len() by {
            assert(counts[pass * 1024 + d] == bucket(s, pass_shift(pass as nat, passes as nat), d as nat).len());
        }
    }
    let starts = bucket_starts(counts, pass * RADIX, Ghost(s), Ghost(54));
    let mut heads = bucket_starts(counts, pass * RADIX, Ghost(s), Ghost(54));
    let mut i: usize = 0;
    proof {
        assert forall|e: int| 0 <= e < 1024 implies #[trigger] bucket(s.take(0), 54, e as nat) =~= Seq::<u64>::empty() by {
            reveal(Seq::filter);
        }
        assert forall|e: int| 0 <= e < 1024 implies #[trigger] to@.subrange(bucket_start(s, 54, e as nat) as int, heads[e] as int)
                =~= Seq::<u64>::empty() by {
            lemma_start_bounds(s, 54, e as nat);
        }
    }
    while i < n
        invariant
            pass + 1 == passes <= MAX_PASSES,
            s == from@,
            n == s.len(),
            to.len() == n,
            i <= n,
            starts.len() == RADIX,
            heads.len() == RADIX,
            forall|e: int| 0 <= e < 1024 ==> #[trigger] starts[e] == bucket_start(s, 54, e as nat),
            forall|e: int|
                0 <= e < 1024 ==> #[trigger] heads[e] == bucket_start(s, 54, e as nat) + bucket(
                    s.take(i as int),
                    54,
                    e as nat,
                ).len(),
            forall|e: int|
                0 <= e < 1024 ==> {
                    let r = #[trigger] to@.subrange(bucket_start(s, 54, e as nat) as int, heads[e] as int);
                    &&& sorted(r)
                    &&& all_have_digit(r, 54, e as nat)
                    &&& r.to_multiset() == bucket(s.take(i as int), 54, e as nat).to_multiset()
                },
        decreases n - i,
    {
        let w = from[i];
        let dd = read_radix(w, pass, passes);
        let st = starts[dd];
        let pos = heads[dd];
        proof {
            lemma_prefix_bucket(s, 54, dd as nat, i as int);
            lemma_start_bounds(s, 54, dd as nat);
            lemma_start_next(s, 54, dd as nat);
            assert(w == s[i as int]);
            assert forall|e: int| 0 <= e < 1024 implies #[trigger] heads[e] <= bucket_start(s, 54, (e + 1) as nat) by {
                lemma_prefix_bucket(s, 54, e as nat, i as int);
                lemma_start_next(s, 54, e as nat);
            }
        }
        let ghost old_to = to@;
        let ghost old_heads = heads@;
        let mut j = pos;
        while j > st && to[j - 1] > w
            invariant
                st <= j <= pos < n,
                to.len() == n,
                forall|q: int| 0 <= q < n && !(j < q <= pos) ==> #[trigger] to@[q] == old_to[q],
                forall|q: int| j < q <= pos ==> #[trigger] to@[q] == old_to[q - 1],
                forall|q: int| j < q <= pos ==> #[trigger] to@[q] > w,
            decreases j,
        {
            let v = to[j - 1];
            to[j] = v;
            j -= 1;
        }
        to[j] = w;
        heads[dd] = pos + 1;
        i += 1;
        proof {
            let old_r = old_to.subrange(st as int, pos as int);
            let new_r = to@.subrange(st as int, pos + 1);
            let k = j - st;
            assert(new_r =~= old_r.insert(k, w));
            assert(sorted(old_r));
            assert forall|q: int| 0 <= q < k implies old_r[q] <= w by {
                assert(old_r[k - 1] == old_to[j - 1]);
                assert(old_r[q] <= old_r[k - 1]);
            }
            assert forall|q: int| k <= q < old_r.len() implies old_r[q] > w by {
                assert(to@[st + q + 1] == old_to[st + q]);
            }
            lemma_insert_sorted(old_r, k, w);
            to_multiset_insert(old_r, k, w);
            to_multiset_build(bucket(s.take(i - 1), 54, dd as nat), w);
            assert(all_have_digit(old_r, 54, dd as nat));
            assert forall|q: int| 0 <= q < new_r.len() implies digit(#[trigger] new_r[q], 54) == dd by {
                if q < k {
                    assert(new_r[q] == old_r[q]);
                } else if q > k {
                    assert(new_r[q] == old_r[q - 1]);
                }
            }
            assert forall|e: int| 0 <= e < 1024 implies #[trigger] heads[e] == bucket_start(s, 54, e as nat) + bucket(
                    s.take(i as int),
                    54,
                    e as nat,
                ).len() by {
                lemma_prefix_bucket(s, 54, e as nat, (i - 1) as int);
            }
            assert forall|e: int| 0 <= e < 1024 implies {
                    let r = #[trigger] to@.subrange(bucket_start(s, 54, e as nat) as int, heads[e] as int);
                    &&& sorted(r)
                    &&& all_have_digit(r, 54, e as nat)
                    &&& r.to_multiset() == bucket(s.take(i as int), 54, e as nat).to_multiset()
                } by {
                lemma_prefix_bucket(s, 54, e as nat, (i - 1) as int);
                lemma_start_bounds(s, 54, e as nat);
                lemma_start_next(s, 54, e as nat);
                if e != dd as int {
                    let r0 = old_to.subrange(bucket_start(s, 54, e as nat) as int, old_heads[e] as int);
                    if e < dd {
                        lemma_start_mono(s, 54, (e + 1) as nat, dd as nat);
                    } else {
                        lemma_start_mono(s, 54, (dd + 1) as nat, e as nat);
                    }
                    assert(to@.subrange(bucket_start(s, 54, e as nat) as int, heads[e] as int) =~= r0);
                }
            }
        }
    }
    proof {
        assert(s.take(n as int) =~= s);
        lemma_deal_all(s, 54);
        assert forall|e: nat| e < 1024 implies {
            let r = #[trigger] to@.subrange(bucket_start(s, 54, e) as int, bucket_start(s, 54, e + 1) as int);
            &&& sorted(r)
            &&& all_have_digit(r, 54, e)
            &&& r.to_multiset() == bucket(s, 54, e).to_multiset()
        } by {
            lemma_start_next(s, 54, e);
            assert(heads[e as int] == bucket_start(s, 54, e) + bucket(s.take(n as int), 54, e).len());
        }
        lemma_regions_sorted(to@, s);
        lemma_regions_permutation(to@, s, 54, 1024);
        assert(to@ =~= to@.subrange(0, bucket_start(s, 54, 1024) as int));
    }
}

/// Sorts the mixed keys of `orig_data`: the result holds `H::hash(x)` for
/// every `x` of the input, in non-decreasing order.
pub fn dlsd_sort<H: StatelessU64Hasher>(orig_data: &[u64]) -> (r: Vec<u64>)
    ensures
        sorted(r@),
        r@.to_multiset() == hashed::<H>(orig_data@).to_multiset(),
{
    let n = orig_data.len();
    let passes = num_passes(n);
    let (data, counts) = compute_counts::<H>(orig_data, passes);
    let ghost mixed = data@;
    let mut from = data;
    let mut to = zeroed(n, 0u64);
    let mut pass: usize = 0;
    // Every pass but the last deals by its digit; the buffers then trade roles.
    while pass + 1 < passes
        invariant
            1 <= passes <= MAX_PASSES,
            pass < passes,
            mixed.len() == n,
            from.len() == n,
            to.len() == n,
            from@.to_multiset() == mixed.to_multiset(),
            histogram_of(counts@, mixed, passes as nat),
        decreases passes - pass,
    {
        proof {
            lemma_histogram_permutation(counts@, mixed, from@, passes as nat);
            assert forall|d: int| 0 <= d < 1024 implies #[trigger] counts[pass * RADIX + d] == bucket(
                    from@,
                    pass_shift(pass as nat, passes as nat),
                    d as nat,
                ).len() by {
                assert(counts[pass * 1024 + d] == bucket(from@, pass_shift(pass as nat, passes as nat), d as nat).len());
            }
            assert(pass * RADIX + RADIX <= counts.len()) by (nonlinear_arith)
                requires pass + 1 < passes, counts.len() == passes * 1024;
        }
        deal_pass(&from, &mut to, &counts, pass, passes);
        proof {
            lemma_deal_all(from@, pass_shift(pass as nat, passes as nat));
        }
        let dealt = to;
        to = from;
        from = dealt;
        pass += 1;
    }
    proof {
        lemma_histogram_permutation(counts@, mixed, from@, passes as nat);
    }
    insertion_deal_pass(&from, &mut to, &counts, passes);
    to
}

} // verus!
