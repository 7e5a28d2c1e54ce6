//! Digits, buckets and the dealing pass shared by the two radix sorts.
//!
//! A key is read in 10-bit digits. A pass over the data deals every key into
//! the bucket of its digit, keeping the order of arrival within a bucket; the
//! result of a pass is the concatenation of the 1024 buckets, in digit order.
use vstd::arithmetic::div_mod::*;
use vstd::arithmetic::power2::*;
use vstd::bits::*;
use vstd::prelude::*;
use vstd::seq_lib::*;

use crate::hashers::StatelessU64Hasher;

use crate::seq_facts::{
    lemma_filter_count, lemma_filter_permutation, lemma_filter_sorted_by_key, sorted_by_key,
};

verus! {

pub const LG_RADIX: u64 = 10;

/// Number of distinct digit values.
pub const RADIX: usize = 1024;

pub const WORD_BITS: u64 = 64;

/// The most passes that a sort makes: six 10-bit digits reach down to bit 4.
pub const MAX_PASSES: usize = 6;

/// The 10-bit digit of `x` that starts at bit `shift`.
pub open spec fn digit(x: u64, shift: nat) -> nat {
    (x as nat / pow2(shift)) % 1024
}

pub open spec fn has_digit(shift: nat, d: nat) -> spec_fn(u64) -> bool {
    |x: u64| digit(x, shift) == d
}

/// The keys of `s` whose digit at `shift` is `d`, in their order in `s`.
pub open spec fn bucket(s: Seq<u64>, shift: nat, d: nat) -> Seq<u64> {
    s.filter(has_digit(shift, d))
}

/// The buckets of digits `0 .. d`, one after another.
pub open spec fn deal(s: Seq<u64>, shift: nat, d: nat) -> Seq<u64>
    decreases d,
{
    if d == 0 {
        Seq::empty()
    } else {
        deal(s, shift, (d - 1) as nat) + bucket(s, shift, (d - 1) as nat)
    }
}

/// Where the bucket of digit `d` begins once `s` is dealt.
pub open spec fn bucket_start(s: Seq<u64>, shift: nat, d: nat) -> nat {
    deal(s, shift, d).len()
}

/// The bit at which pass `pass` of `passes` reads its digit: the passes read
/// the top `10 * passes` bits, the last pass the top ten.
pub open spec fn pass_shift(pass: nat, passes: nat) -> nat {
    (64 - 10 * (passes - pass)) as nat
}

pub proof fn lemma_digit_bound(x: u64, shift: nat)
    ensures
        digit(x, shift) < 1024,
{
    lemma_pow2_pos(shift);
}

/// Reads the digit of `word` for pass `pass` of `passes`.
#[inline(always)]
pub fn read_radix(word: u64, pass: usize, passes: usize) -> (r: usize)
    requires
        pass < passes,
        passes - pass <= MAX_PASSES,
    ensures
        r == digit(word, pass_shift(pass as nat, passes as nat)),
        r < RADIX,
{
    let shift: u64 = WORD_BITS - ((passes - pass) as u64) * LG_RADIX;
    let v = (word >> shift) & 1023;
    proof {
        lemma_u64_shr_is_div(word, shift);
        lemma_u64_low_bits_mask_is_mod(word >> shift, 10);
        lemma_low_bits_mask_values();
        lemma2_to64();
        assert(v < 1024) by (bit_vector)
            requires
                v == (word >> shift) & 1023,
        ;
    }
    v as usize
}

/// How often `v` occurs once the buckets `0 .. d` are dealt.
pub proof fn lemma_deal_count(s: Seq<u64>, shift: nat, d: nat, v: u64)
    ensures
        deal(s, shift, d).to_multiset().count(v) == if digit(v, shift) < d {
            s.to_multiset().count(v)
        } else {
            0
        },
    decreases d,
{
    broadcast use group_to_multiset_ensures;

    if d == 0 {
        assert(deal(s, shift, d).to_multiset().len() == 0);
    } else {
        let e = (d - 1) as nat;
        lemma_deal_count(s, shift, e, v);
        lemma_multiset_commutative(deal(s, shift, e), bucket(s, shift, e));
        lemma_filter_count(s, has_digit(shift, e), v);
    }
}

/// Dealing all 1024 buckets reorders `s` and loses nothing.
pub proof fn lemma_deal_all(s: Seq<u64>, shift: nat)
    ensures
        deal(s, shift, 1024).to_multiset() == s.to_multiset(),
        deal(s, shift, 1024).len() == s.len(),
        bucket_start(s, shift, 1024) == s.len(),
{
    broadcast use group_to_multiset_ensures;

    assert forall|v: u64| deal(s, shift, 1024).to_multiset().count(v) == s.to_multiset().count(v) by {
        lemma_deal_count(s, shift, 1024, v);
        lemma_digit_bound(v, shift);
    }
    assert(deal(s, shift, 1024).to_multiset() =~= s.to_multiset());
    to_multiset_len(s);
    to_multiset_len(deal(s, shift, 1024));
}

/// Buckets begin in digit order.
pub proof fn lemma_start_mono(s: Seq<u64>, shift: nat, d1: nat, d2: nat)
    requires
        d1 <= d2,
    ensures
        bucket_start(s, shift, d1) <= bucket_start(s, shift, d2),
    decreases d2,
{
    if d1 < d2 {
        lemma_start_mono(s, shift, d1, (d2 - 1) as nat);
    }
}

/// A bucket ends where the next begins.
pub proof fn lemma_start_next(s: Seq<u64>, shift: nat, d: nat)
    ensures
        bucket_start(s, shift, d + 1) == bucket_start(s, shift, d) + bucket(s, shift, d).len(),
{
    assert(deal(s, shift, d + 1) == deal(s, shift, d) + bucket(s, shift, d));
}

/// Every bucket begins and ends within `s`.
pub proof fn lemma_start_bounds(s: Seq<u64>, shift: nat, d: nat)
    requires
        d < 1024,
    ensures
        bucket_start(s, shift, d) + bucket(s, shift, d).len() <= s.len(),
{
    lemma_start_next(s, shift, d);
    lemma_start_mono(s, shift, d + 1, 1024);
    lemma_deal_all(s, shift);
}

/// The keys of a prefix that fall in a bucket are no more than those of the whole.
pub proof fn lemma_prefix_bucket(s: Seq<u64>, shift: nat, d: nat, i: int)
    requires
        0 <= i <= s.len(),
    ensures
        bucket(s.take(i), shift, d).len() <= bucket(s, shift, d).len(),
        i < s.len() ==> bucket(s.take(i + 1), shift, d) == if digit(s[i], shift) == d {
            bucket(s.take(i), shift, d).push(s[i])
        } else {
            bucket(s.take(i), shift, d)
        },
        i < s.len() && digit(s[i], shift) == d ==> bucket(s.take(i), shift, d).len() < bucket(
            s,
            shift,
            d,
        ).len(),
{
    broadcast use group_filter_ensures;

    assert(s =~= s.take(i) + s.skip(i));
    Seq::filter_distributes_over_add(s.take(i), s.skip(i), has_digit(shift, d));
    if i < s.len() {
        assert(s.take(i + 1) =~= s.take(i).push(s[i]));
        s.take(i).lemma_filter_push(s[i], has_digit(shift, d));
        assert(s =~= s.take(i + 1) + s.skip(i + 1));
        Seq::filter_distributes_over_add(s.take(i + 1), s.skip(i + 1), has_digit(shift, d));
    }
}

/// An array whose bucket regions hold the buckets of `s` is `s` dealt.
pub proof fn lemma_deal_tiles(t: Seq<u64>, s: Seq<u64>, shift: nat, d: nat)
    requires
        d <= 1024,
        t.len() == s.len(),
        forall|e: nat|
            e < 1024 ==> #[trigger] t.subrange(
                bucket_start(s, shift, e) as int,
                bucket_start(s, shift, e + 1) as int,
            ) == bucket(s, shift, e),
    ensures
        t.subrange(0, bucket_start(s, shift, d) as int) == deal(s, shift, d),
    decreases d,
{
    if d > 0 {
        let e = (d - 1) as nat;
        lemma_deal_tiles(t, s, shift, e);
        lemma_start_mono(s, shift, e, d);
        assert(t.subrange(bucket_start(s, shift, e) as int, bucket_start(s, shift, e + 1) as int)
            == bucket(s, shift, e));
        assert(deal(s, shift, d) == deal(s, shift, e) + bucket(s, shift, e));
        lemma_start_mono(s, shift, d, 1024);
        lemma_deal_all(s, shift);
        assert(t.subrange(0, bucket_start(s, shift, d) as int) =~= t.subrange(
            0,
            bucket_start(s, shift, e) as int,
        ) + t.subrange(bucket_start(s, shift, e) as int, bucket_start(s, shift, d) as int));
    }
}

/// Where each bucket begins once `s` is dealt: a prefix sum over the counts.
pub fn bucket_starts(counts: &Vec<usize>, base: usize, Ghost(s): Ghost<Seq<u64>>, Ghost(shift): Ghost<nat>) -> (heads: Vec<usize>)
    requires
        s.len() <= usize::MAX,
        base + RADIX <= counts.len(),
        forall|d: int| 0 <= d < 1024 ==> #[trigger] counts[base + d] == bucket(s, shift, d as nat).len(),
    ensures
        heads.len() == RADIX,
        forall|d: int| 0 <= d < 1024 ==> #[trigger] heads[d] == bucket_start(s, shift, d as nat),
{
    let mut heads: Vec<usize> = Vec::with_capacity(RADIX);
    let mut pos: usize = 0;
    let mut d: usize = 0;
    while d < RADIX
        invariant
            d <= RADIX,
            s.len() <= usize::MAX,
            heads.len() == d,
            base + RADIX <= counts.len(),
            forall|e: int| 0 <= e < 1024 ==> #[trigger] counts[base + e] == bucket(s, shift, e as nat).len(),
            pos == bucket_start(s, shift, d as nat),
            forall|e: int| 0 <= e < d ==> #[trigger] heads[e] == bucket_start(s, shift, e as nat),
        decreases RADIX - d,
    {
        proof {
            lemma_start_next(s, shift, d as nat);
            lemma_start_mono(s, shift, (d + 1) as nat, 1024);
            lemma_deal_all(s, shift);
            assert(counts[base + d as int] == bucket(s, shift, d as nat).len());
        }
        heads.push(pos);
        pos = pos + counts[base + d];
        d += 1;
    }
    heads
}

/// One dealing pass: `to` receives the keys of `from` bucketed by the digit of
/// pass `pass`, each bucket in the order in which its keys stand in `from`.
pub fn deal_pass(
    from: &Vec<u64>,
    to: &mut Vec<u64>,
    counts: &Vec<usize>,
    pass: usize,
    passes: usize,
)
    requires
        pass < passes <= MAX_PASSES,
        old(to).len() == from.len(),
        pass * RADIX + RADIX <= counts.len(),
        forall|d: int|
            0 <= d < 1024 ==> #[trigger] counts[pass * RADIX + d] == bucket(
                from@,
                pass_shift(pass as nat, passes as nat),
                d as nat,
            ).len(),
    ensures
        final(to)@ == deal(from@, pass_shift(pass as nat, passes as nat), 1024),
{
    let ghost s = from@;
    let ghost sh = pass_shift(pass as nat, passes as nat);
    let n = from.len();
    let mut heads = bucket_starts(counts, pass * RADIX, Ghost(s), Ghost(sh));
    let mut i: usize = 0;
    proof {
        assert forall|e: int| 0 <= e < 1024 implies #[trigger] bucket(s.take(0), sh, e as nat) =~= Seq::<u64>::empty() by {
            reveal(Seq::filter);
        }
        assert forall|e: int| 0 <= e < 1024 implies to@.subrange(bucket_start(s, sh, e as nat) as int, #[trigger] heads[e] as int)
                    == bucket(s.take(0), sh, e as nat) by {
            assert(bucket(s.take(0), sh, e as nat) =~= Seq::<u64>::empty());
            lemma_start_bounds(s, sh, e as nat);
            assert(to@.subrange(bucket_start(s, sh, e as nat) as int, heads[e] as int) =~= Seq::<u64>::empty());
        }
    }
    while i < n
        invariant
            pass < passes <= MAX_PASSES,
            s == from@,
            sh == pass_shift(pass as nat, passes as nat),
            n == s.len(),
            to.len() == n,
            i <= n,
            heads.len() == RADIX,
            forall|e: int|
                0 <= e < 1024 ==> #[trigger] heads[e] == bucket_start(s, sh, e as nat) + bucket(
                    s.take(i as int),
                    sh,
                    e as nat,
                ).len(),
            forall|e: int|
                0 <= e < 1024 ==> to@.subrange(bucket_start(s, sh, e as nat) as int, #[trigger] heads[e] as int)
                    == bucket(s.take(i as int), sh, e as nat),
        decreases n - i,
    {
        let w = from[i];
        let dd = read_radix(w, pass, passes);
        let p = heads[dd];
        proof {
            lemma_prefix_bucket(s, sh, dd as nat, i as int);
            lemma_start_bounds(s, sh, dd as nat);
            assert(p == bucket_start(s, sh, dd as nat) + bucket(s.take(i as int), sh, dd as nat).len());
            assert(w == s[i as int]);
            assert(dd == digit(w, sh));
            assert forall|e: int| 0 <= e < 1024 implies #[trigger] heads[e] <= bucket_start(s, sh, (e + 1) as nat) by {
                lemma_prefix_bucket(s, sh, e as nat, i as int);
                lemma_start_next(s, sh, e as nat);
            }
        }
        let ghost old_to = to@;
        let ghost old_heads = heads@;
        to[p] = w;
        heads[dd] = p + 1;
        i += 1;
        proof {
            assert forall|e: int| 0 <= e < 1024 implies #[trigger] heads[e] == bucket_start(s, sh, e as nat) + bucket(
                    s.take(i as int),
                    sh,
                    e as nat,
                ).len() by {
                lemma_prefix_bucket(s, sh, e as nat, (i - 1) as int);
            }
            assert forall|e: int| 0 <= e < 1024 implies to@.subrange(bucket_start(s, sh, e as nat) as int, #[trigger] heads[e] as int)
                    == bucket(s.take(i as int), sh, e as nat) by {
                lemma_prefix_bucket(s, sh, e as nat, (i - 1) as int);
                lemma_start_bounds(s, sh, e as nat);
                lemma_start_next(s, sh, e as nat);
                assert(old_to.subrange(bucket_start(s, sh, e as nat) as int, old_heads[e] as int)
                    == bucket(s.take(i - 1), sh, e as nat));
                if e == dd as int {
                    assert(to@.subrange(bucket_start(s, sh, e as nat) as int, heads[e] as int) =~=
                        old_to.subrange(bucket_start(s, sh, e as nat) as int, old_heads[e] as int).push(w));
                } else if e < dd {
                    lemma_start_mono(s, sh, (e + 1) as nat, dd as nat);
                    assert(to@.subrange(bucket_start(s, sh, e as nat) as int, heads[e] as int) =~=
                        old_to.subrange(bucket_start(s, sh, e as nat) as int, old_heads[e] as int));
                } else {
                    lemma_start_mono(s, sh, (dd + 1) as nat, e as nat);
                    lemma_start_next(s, sh, dd as nat);
                    assert(to@.subrange(bucket_start(s, sh, e as nat) as int, heads[e] as int) =~=
                        old_to.subrange(bucket_start(s, sh, e as nat) as int, old_heads[e] as int));
                }
            }
        }
    }
    proof {
        assert(s.take(n as int) =~= s);
        lemma_deal_all(s, sh);
        assert forall|e: nat| e < 1024 implies #[trigger] to@.subrange(
                bucket_start(s, sh, e) as int,
                bucket_start(s, sh, e + 1) as int,
            ) == bucket(s, sh, e) by {
            lemma_start_next(s, sh, e);
            assert(heads[e as int] == bucket_start(s, sh, e) + bucket(s.take(n as int), sh, e).len());
        }
        lemma_deal_tiles(to@, s, sh, 1024);
        assert(to@ =~= to@.subrange(0, bucket_start(s, sh, 1024) as int));
    }
}

/// The keys of `s`, each passed through the mixing function of `H`.
pub open spec fn hashed<H: StatelessU64Hasher>(s: Seq<u64>) -> Seq<u64> {
    s.map_values(|x: u64| H::spec_hash(x))
}

/// `n` zeros.
pub fn zeroed<T: Copy>(n: usize, zero: T) -> (v: Vec<T>)
    ensures
        v@ == Seq::new(n as nat, |i: int| zero),
{
    let mut v: Vec<T> = Vec::with_capacity(n);
    let mut i: usize = 0;
    while i < n
        invariant
            i <= n,
            v@ == Seq::new(i as nat, |k: int| zero),
        decreases n - i,
    {
        v.push(zero);
        i += 1;
        proof {
            assert(v@ =~= Seq::new(i as nat, |k: int| zero));
        }
    }
    v
}

/// The histogram of a set of passes: `counts[pass * RADIX + d]` is the number of
/// keys of `data` whose digit in pass `pass` is `d`.
pub open spec fn histogram_of(counts: Seq<usize>, data: Seq<u64>, passes: nat) -> bool {
    &&& counts.len() == passes * 1024
    &&& forall|pass: int, d: int|
        0 <= pass < passes && 0 <= d < 1024 ==> #[trigger] counts[pass * 1024 + d] == bucket(
            data,
            pass_shift(pass as nat, passes),
            d as nat,
        ).len()
}

/// The histogram is the same for any reordering of the keys.
pub proof fn lemma_histogram_permutation(counts: Seq<usize>, s1: Seq<u64>, s2: Seq<u64>, passes: nat)
    requires
        histogram_of(counts, s1, passes),
        s1.to_multiset() == s2.to_multiset(),
    ensures
        histogram_of(counts, s2, passes),
{
    assert forall|pass: int, d: int|
        0 <= pass < passes && 0 <= d < 1024 implies #[trigger] counts[pass * 1024 + d] == bucket(
            s2,
            pass_shift(pass as nat, passes),
            d as nat,
        ).len() by {
        lemma_filter_permutation(s1, s2, has_digit(pass_shift(pass as nat, passes), d as nat));
    }
}

/// One scan over the input: mixes every key and counts, for every pass at
/// once, how many mixed keys carry each digit.
pub fn compute_counts<H: StatelessU64Hasher>(orig_data: &[u64], passes: usize) -> (r: (
    Vec<u64>,
    Vec<usize>,
))
    requires
        passes <= MAX_PASSES,
    ensures
        r.0@ == hashed::<H>(orig_data@),
        histogram_of(r.1@, r.0@, passes as nat),
{
    let n = orig_data.len();
    let mut counts: Vec<usize> = zeroed(passes * RADIX, 0usize);
    let mut data: Vec<u64> = Vec::with_capacity(n);
    let mut i: usize = 0;
    proof {
        assert forall|pass: int, d: int|
            0 <= pass < passes && 0 <= d < 1024 implies #[trigger] counts[pass * 1024 + d] == bucket(
                data@,
                pass_shift(pass as nat, passes as nat),
                d as nat,
            ).len() by {
            reveal(Seq::filter);
            assert(0 <= pass * 1024 + d < passes * 1024) by (nonlinear_arith)
                requires 0 <= pass < passes, 0 <= d < 1024;
        }
    }
    while i < n
        invariant
            passes <= MAX_PASSES,
            n == orig_data@.len(),
            i <= n,
            data@ == hashed::<H>(orig_data@.take(i as int)),
            histogram_of(counts@, data@, passes as nat),
        decreases n - i,
    {
        let h = H::hash(orig_data[i]);
        let ghost before = data@;
        let ghost after = data@.push(h);
        let mut pass: usize = 0;
        while pass < passes
            invariant
                passes <= MAX_PASSES,
                pass <= passes,
                before.len() == i < n,
                after == before.push(h),
                counts@.len() == passes * 1024,
                forall|k: int, d: int|
                    0 <= k < passes && 0 <= d < 1024 ==> #[trigger] counts[k * 1024 + d] == bucket(
                        if k < pass { after } else { before },
                        pass_shift(k as nat, passes as nat),
                        d as nat,
                    ).len(),
            decreases passes - pass,
        {
            let dd = read_radix(h, pass, passes);
            proof {
                assert(0 <= pass * 1024 + dd < passes * 1024) by (nonlinear_arith)
                    requires 0 <= pass < passes, 0 <= dd < 1024;
                before.lemma_filter_push(h, has_digit(pass_shift(pass as nat, passes as nat), dd as nat));
                before.lemma_filter_len(has_digit(pass_shift(pass as nat, passes as nat), dd as nat));
                assert(counts[pass * 1024 + dd] == bucket(before, pass_shift(pass as nat, passes as nat), dd as nat).len());
            }
            let c = counts[pass * RADIX + dd];
            counts[pass * RADIX + dd] = c + 1;
            proof {
                assert forall|k: int, d: int|
                    0 <= k < passes && 0 <= d < 1024 implies #[trigger] counts[k * 1024 + d] == bucket(
                        if k < pass + 1 { after } else { before },
                        pass_shift(k as nat, passes as nat),
                        d as nat,
                    ).len() by {
                    if k == pass {
                        before.lemma_filter_push(h, has_digit(pass_shift(k as nat, passes as nat), d as nat));
                        if d != dd {
                            assert(k * 1024 + d != pass * 1024 + dd) by (nonlinear_arith)
                                requires k == pass, d != dd;
                        }
                    } else {
                        assert(k * 1024 + d != pass * 1024 + dd) by (nonlinear_arith)
                            requires k != pass, 0 <= d < 1024, 0 <= dd < 1024;
                    }
                }
            }
            pass += 1;
        }
        data.push(h);
        i += 1;
        proof {
            assert(orig_data@.take(i as int) =~= orig_data@.take(i - 1).push(orig_data@[i - 1]));
            assert(data@ =~= hashed::<H>(orig_data@.take(i as int)));
        }
    }
    proof {
        assert(orig_data@.take(n as int) =~= orig_data@);
    }
    (data, counts)
}

/// The `bits` bits of `x` that start at bit `s0`, as a number.
pub open spec fn low_key(s0: nat, bits: nat) -> spec_fn(u64) -> int {
    |x: u64| ((x as nat / pow2(s0)) % pow2(bits)) as int
}

/// Everything of `x` from bit `s0` up, as a number.
pub open spec fn high_bits(x: u64, s0: nat) -> nat {
    x as nat / pow2(s0)
}

/// Ten more bits of key put the digit above the bits already read.
pub proof fn lemma_low_key_step(x: u64, s0: nat, b: nat)
    ensures
        low_key(s0, b + 10)(x) == digit(x, s0 + b) * pow2(b) + low_key(s0, b)(x),
        0 <= low_key(s0, b)(x) < pow2(b),
{
    let y = x as nat / pow2(s0);
    let p0 = pow2(s0);
    let pb = pow2(b);
    lemma_pow2_pos(s0);
    lemma_pow2_pos(b);
    lemma_pow2_adds(s0, b);
    lemma_pow2_adds(b, 10);
    lemma2_to64();
    assert(pow2(s0 + b) == p0 * pb);
    assert(pow2(b + 10) == pb * 1024);
    lemma_div_denominator(x as int, p0 as int, pb as int);
    assert(x as nat / pow2(s0 + b) == y / pb);
    assert(digit(x, s0 + b) == (y / pb) % 1024);
    lemma_mod_breakdown(y as int, pb as int, 1024);
    assert(y % (pb * 1024) == pb * ((y / pb) % 1024) + y % pb);
    assert(low_key(s0, b + 10)(x) == y % (pb * 1024));
    assert(low_key(s0, b)(x) == y % pb);
    lemma_mod_bound(y as int, pb as int);
    assert(pb * ((y / pb) % 1024) == ((y / pb) % 1024) * pb) by (nonlinear_arith);
}

/// The high bits of a key are all of its key from `s0` up.
pub proof fn lemma_high_is_low_key(x: u64, s0: nat)
    requires
        s0 <= 64,
    ensures
        low_key(s0, (64 - s0) as nat)(x) == high_bits(x, s0),
{
    lemma_pow2_pos(s0);
    lemma_pow2_pos((64 - s0) as nat);
    lemma_pow2_adds(s0, (64 - s0) as nat);
    lemma2_to64_rest();
    assert(x < pow2(64));
    lemma_multiply_divide_lt(x as int, pow2(s0) as int, pow2((64 - s0) as nat) as int);
    lemma_small_mod(high_bits(x, s0), pow2((64 - s0) as nat));
}

/// Keys whose high bits differ are ordered by them.
pub proof fn lemma_high_bits_order(x: u64, y: u64, s0: nat)
    requires
        high_bits(x, s0) < high_bits(y, s0),
    ensures
        x < y,
{
    lemma_pow2_pos(s0);
    if x >= y {
        lemma_div_is_ordered(y as int, x as int, pow2(s0) as int);
    }
}

/// Every key of the first `d` buckets has a digit below `d`.
pub proof fn lemma_deal_digits(s: Seq<u64>, shift: nat, d: nat)
    ensures
        forall|k: int| 0 <= k < deal(s, shift, d).len() ==> digit(#[trigger] deal(s, shift, d)[k], shift) < d,
    decreases d,
{
    broadcast use group_filter_ensures;

    if d > 0 {
        let e = (d - 1) as nat;
        lemma_deal_digits(s, shift, e);
        let a = deal(s, shift, e);
        let b = bucket(s, shift, e);
        assert forall|k: int| 0 <= k < deal(s, shift, d).len() implies digit(#[trigger] deal(s, shift, d)[k], shift) < d by {
            if k < a.len() {
                assert(deal(s, shift, d)[k] == a[k]);
            } else {
                assert(deal(s, shift, d)[k] == b[k - a.len()]);
            }
        }
    }
}

/// Dealing is stable: a sequence ordered by the `b` bits above `s0` comes out
/// ordered by the `b + 10` bits above `s0` once dealt by the next digit.
pub proof fn lemma_deal_stable(s: Seq<u64>, s0: nat, b: nat, d: nat)
    requires
        sorted_by_key(s, low_key(s0, b)),
    ensures
        sorted_by_key(deal(s, s0 + b, d), low_key(s0, b + 10)),
    decreases d,
{
    broadcast use group_filter_ensures;

    if d > 0 {
        let e = (d - 1) as nat;
        let sh = s0 + b;
        lemma_deal_stable(s, s0, b, e);
        lemma_deal_digits(s, sh, e);
        let a = deal(s, sh, e);
        let bk = bucket(s, sh, e);
        lemma_filter_sorted_by_key(s, has_digit(sh, e), low_key(s0, b));
        let t = deal(s, sh, d);
        assert(t == a + bk);
        assert forall|i: int, j: int| 0 <= i < j < t.len() implies low_key(s0, b + 10)(t[i]) <= low_key(
            s0,
            b + 10,
        )(t[j]) by {
            lemma_low_key_step(t[i], s0, b);
            lemma_low_key_step(t[j], s0, b);
            if j < a.len() {
                assert(t[i] == a[i] && t[j] == a[j]);
                assert(low_key(s0, b + 10)(a[i]) <= low_key(s0, b + 10)(a[j]));
            } else if i >= a.len() {
                assert(t[i] == bk[i - a.len()] && t[j] == bk[j - a.len()]);
                assert(has_digit(sh, e)(bk[i - a.len()]));
                assert(has_digit(sh, e)(bk[j - a.len()]));
                assert(digit(t[i], sh) == e && digit(t[j], sh) == e);
                assert(low_key(s0, b)(bk[i - a.len()]) <= low_key(s0, b)(bk[j - a.len()]));
                assert(low_key(s0, b + 10)(t[i]) <= low_key(s0, b + 10)(t[j]));
            } else {
                assert(has_digit(sh, e)(bk[j - a.len()]));
                assert(t[i] == a[i] && t[j] == bk[j - a.len()]);
                let di = digit(t[i], sh);
                let dj = digit(t[j], sh);
                assert(di < e && dj == e);
                lemma_pow2_pos(b);
                assert((di + 1) * pow2(b) <= dj * pow2(b)) by (nonlinear_arith)
                    requires di + 1 <= dj;
                assert((di + 1) * pow2(b) == di * pow2(b) + pow2(b)) by (nonlinear_arith);
                assert(low_key(s0, b + 10)(t[i]) <= low_key(s0, b + 10)(t[j]));
            }
        }
    }
}

} // verus!
