//! A 256-way merge sort for large arrays of 64-bit keys.
//!
//! A range is cut into 256 nearly equal chunks, each chunk is sorted the same
//! way, and the sorted chunks are merged through a loser tree. Small ranges go
//! to the standard library's unstable sort. One auxiliary buffer serves every
//! level of the recursion: the levels take turns writing into it and into the
//! caller's array.
use vstd::arithmetic::div_mod::*;
use vstd::multiset::Multiset;
use vstd::prelude::*;
use vstd::seq_lib::*;

use crate::loser_tree::{build_loser_table, lemma_root_least, replay, tree_valid, LANES};
use crate::radix::zeroed;
use crate::seq_facts::sorted;

verus! {

/// Ranges this short go to the standard library's sort.
pub const SMALL_SORT_LEN: usize = 1024;

/// The key of a lane whose run is used up: above every 64-bit key, so an
/// exhausted lane loses every match and no key value is reserved.
pub const EXHAUSTED: u128 = 0x1_0000_0000_0000_0000;

/// The key that lane with read position `cur` and end `end` competes with.
pub open spec fn lane_key(src: Seq<u64>, cur: int, end: int) -> u128 {
    if cur < end {
        src[cur] as u128
    } else {
        EXHAUSTED
    }
}

/// The keys that lanes `0 .. r` have handed out so far.
pub open spec fn consumed(src: Seq<u64>, bounds: Seq<usize>, cur: Seq<usize>, r: nat) -> Multiset<u64>
    decreases r,
{
    if r == 0 {
        Multiset::empty()
    } else {
        consumed(src, bounds, cur, (r - 1) as nat).add(
            src.subrange(bounds[r - 1] as int, cur[r - 1] as int).to_multiset(),
        )
    }
}

/// How many keys lanes `0 .. r` have handed out so far.
pub open spec fn consumed_len(bounds: Seq<usize>, cur: Seq<usize>, r: nat) -> int
    decreases r,
{
    if r == 0 {
        0
    } else {
        consumed_len(bounds, cur, (r - 1) as nat) + cur[r - 1] - bounds[r - 1]
    }
}

/// Handing out the head of lane `lane` adds that key.
pub proof fn lemma_consume(src: Seq<u64>, bounds: Seq<usize>, cur: Seq<usize>, lane: int, r: nat)
    requires
        0 <= lane < cur.len(),
        r <= cur.len(),
        r <= bounds.len(),
        bounds[lane] <= cur[lane] < src.len(),
        cur[lane] < usize::MAX,
    ensures
        consumed(src, bounds, cur.update(lane, (cur[lane] + 1) as usize), r) == if lane < r {
            consumed(src, bounds, cur, r).insert(src[cur[lane] as int])
        } else {
            consumed(src, bounds, cur, r)
        },
        consumed_len(bounds, cur.update(lane, (cur[lane] + 1) as usize), r) == consumed_len(bounds, cur, r)
            + if lane < r {
            1int
        } else {
            0
        },
    decreases r,
{
    broadcast use group_to_multiset_ensures;
    broadcast use vstd::multiset::group_multiset_axioms;

    if r > 0 {
        lemma_consume(src, bounds, cur, lane, (r - 1) as nat);
        if lane == r - 1 {
            let s = src.subrange(bounds[lane] as int, cur[lane] as int);
            assert(src.subrange(bounds[lane] as int, cur[lane] + 1) =~= s.push(src[cur[lane] as int]));
        }
        let c2 = cur.update(lane, (cur[lane] + 1) as usize);
        assert(consumed(src, bounds, c2, (r - 1) as nat).add(
            src.subrange(bounds[r - 1] as int, c2[r - 1] as int).to_multiset(),
        ) =~= if lane < r {
            consumed(src, bounds, cur, r).insert(src[cur[lane] as int])
        } else {
            consumed(src, bounds, cur, r)
        });
    }
}

/// Lanes that are all used up have handed out everything between their bounds.
pub proof fn lemma_used_up_len(bounds: Seq<usize>, cur: Seq<usize>, r: nat)
    requires
        r < bounds.len(),
        r <= cur.len(),
        forall|j: int| 0 <= j < r ==> #[trigger] bounds[j] <= bounds[j + 1],
        forall|j: int| 0 <= j < r ==> #[trigger] cur[j] >= bounds[j + 1],
    ensures
        consumed_len(bounds, cur, r) >= bounds[r as int] - bounds[0],
    decreases r,
{
    if r > 0 {
        lemma_used_up_len(bounds, cur, (r - 1) as nat);
    }
}

/// When as many keys were handed out as the lanes hold, every lane is used up
/// and the keys handed out are those between the outer bounds.
pub proof fn lemma_all_consumed(src: Seq<u64>, bounds: Seq<usize>, cur: Seq<usize>, r: nat)
    requires
        r < bounds.len(),
        r <= cur.len(),
        bounds[r as int] <= src.len(),
        forall|j: int| 0 <= j < r ==> bounds[j] <= #[trigger] cur[j] <= bounds[j + 1],
        consumed_len(bounds, cur, r) == bounds[r as int] - bounds[0],
    ensures
        consumed(src, bounds, cur, r) == src.subrange(bounds[0] as int, bounds[r as int] as int).to_multiset(),
    decreases r,
{
    if r == 0 {
        assert(src.subrange(bounds[0] as int, bounds[0] as int) =~= Seq::<u64>::empty());
        assert(Seq::<u64>::empty().to_multiset() =~= Multiset::empty()) by {
            broadcast use group_to_multiset_ensures;
        }
    } else {
        let q = (r - 1) as nat;
        assert forall|j: int| 0 <= j < q implies #[trigger] bounds[j] <= bounds[j + 1] by {
            assert(bounds[j] <= cur[j] <= bounds[j + 1]);
        }
        lemma_partial_len(bounds, cur, q);
        lemma_all_consumed(src, bounds, cur, q);
        assert(cur[q as int] == bounds[r as int]);
        let a = src.subrange(bounds[0] as int, bounds[q as int] as int);
        let b = src.subrange(bounds[q as int] as int, bounds[r as int] as int);
        lemma_bounds_mono(bounds, cur, q);
        assert(src.subrange(bounds[0] as int, bounds[r as int] as int) =~= a + b);
        lemma_multiset_commutative(a, b);
    }
}

/// Lanes hand out no more than they hold.
pub proof fn lemma_partial_len(bounds: Seq<usize>, cur: Seq<usize>, r: nat)
    requires
        r < bounds.len(),
        r <= cur.len(),
        forall|j: int| 0 <= j < r ==> bounds[j] <= #[trigger] cur[j] <= bounds[j + 1],
    ensures
        consumed_len(bounds, cur, r) <= bounds[r as int] - bounds[0],
    decreases r,
{
    if r > 0 {
        lemma_partial_len(bounds, cur, (r - 1) as nat);
    }
}

pub proof fn lemma_bounds_mono(bounds: Seq<usize>, cur: Seq<usize>, r: nat)
    requires
        r < bounds.len(),
        r <= cur.len(),
        forall|j: int| 0 <= j < r ==> bounds[j] <= #[trigger] cur[j] <= bounds[j + 1],
    ensures
        bounds[0] <= bounds[r as int],
    decreases r,
{
    if r > 0 {
        lemma_bounds_mono(bounds, cur, (r - 1) as nat);
        assert(bounds[r - 1] <= cur[r - 1] <= bounds[r as int]);
    }
}

/// Some lane still holds a key while fewer keys were handed out than the
/// lanes hold.
pub proof fn lemma_some_lane_left(bounds: Seq<usize>, cur: Seq<usize>) -> (r: int)
    requires
        bounds.len() == 257,
        cur.len() == 256,
        forall|j: int| 0 <= j < 256 ==> #[trigger] bounds[j] <= bounds[j + 1],
        consumed_len(bounds, cur, 256) < bounds[256] - bounds[0],
    ensures
        0 <= r < 256,
        cur[r] < bounds[r + 1],
{
    if forall|j: int| 0 <= j < 256 ==> #[trigger] cur[j] >= bounds[j + 1] {
        lemma_used_up_len(bounds, cur, 256);
    }
    choose|r: int| 0 <= r < 256 && cur[r] < bounds[r + 1]
}

/// Merges the 256 sorted runs `src[bounds[r] .. bounds[r + 1]]` into
/// `dst[bounds[0] .. bounds[256]]`, one key per match at the root of the
/// loser tree.
pub fn merge256(src: &[u64], dst: &mut [u64], bounds: &Vec<usize>)
    requires
        bounds.len() == LANES + 1,
        old(dst)@.len() == src@.len(),
        bounds[256] <= src@.len(),
        forall|r: int| 0 <= r < 256 ==> #[trigger] bounds[r] <= bounds[r + 1],
        forall|r: int| 0 <= r < 256 ==> sorted(#[trigger] src@.subrange(bounds[r] as int, bounds[r + 1] as int)),
    ensures
        final(dst)@.len() == old(dst)@.len(),
        forall|q: int|
            0 <= q < old(dst)@.len() && !(bounds[0] <= q < bounds[256]) ==> #[trigger] final(dst)@[q] == old(dst)@[q],
        sorted(final(dst)@.subrange(bounds[0] as int, bounds[256] as int)),
        final(dst)@.subrange(bounds[0] as int, bounds[256] as int).to_multiset() == src@.subrange(
            bounds[0] as int,
            bounds[256] as int,
        ).to_multiset(),
{
    let lo = bounds[0];
    let hi = bounds[LANES];
    let ghost s = src@;
    proof {
        lemma_bounds_rise(bounds@, 0, 256);
        assert forall|j: int| 0 <= j <= 256 implies #[trigger] bounds[j] <= bounds[256] && bounds[0] <= bounds[j] by {
            lemma_bounds_rise(bounds@, j, 256);
            lemma_bounds_rise(bounds@, 0, j);
        }
    }
    let ghost d0 = dst@;
    // Read position and competing key of every lane.
    let mut cur: Vec<usize> = Vec::with_capacity(LANES);
    let mut keys: Vec<u128> = Vec::with_capacity(LANES);
    let mut r: usize = 0;
    while r < LANES
        invariant
            r <= LANES,
            bounds.len() == LANES + 1,
            s == src@,
            bounds[256] <= s.len(),
            forall|j: int| 0 <= j < 256 ==> #[trigger] bounds[j] <= bounds[j + 1],
            forall|j: int| 0 <= j <= 256 ==> #[trigger] bounds[j] <= bounds[256],
            cur.len() == r,
            keys.len() == r,
            forall|j: int| 0 <= j < r ==> #[trigger] cur[j] == bounds[j],
            forall|j: int| 0 <= j < r ==> #[trigger] keys[j] == lane_key(s, cur[j] as int, bounds[j + 1] as int),
        decreases LANES - r,
    {
        let start = bounds[r];
        cur.push(start);
        if start < bounds[r + 1] {
            keys.push(src[start] as u128);
        } else {
            keys.push(EXHAUSTED);
        }
        r += 1;
    }
    let (mut lt, winners) = build_loser_table(&keys);
    let ghost mut w = winners@;
    let mut k = lo;
    proof {
        assert(consumed_len(bounds@, cur@, 256) == 0 && consumed(s, bounds@, cur@, 256) =~= Multiset::empty()) by {
            lemma_nothing_consumed(s, bounds@, cur@, 256);
        }
        assert(dst@.subrange(lo as int, lo as int) =~= Seq::<u64>::empty());
        assert(Seq::<u64>::empty().to_multiset() =~= Multiset::empty()) by {
            broadcast use group_to_multiset_ensures;
        }
        reveal(merge_state);
    }
    while k < hi
        invariant
            bounds.len() == LANES + 1,
            s == src@,
            lo == bounds[0],
            hi == bounds[256],
            lo <= k <= hi,
            cur.len() == LANES,
            keys.len() == LANES,
            merge_state(s, bounds@, cur@, keys@, dst@, d0, k as int),
            tree_valid(keys@, lt@, w),
            lt@[0] == w[1],
        decreases hi - k,
    {
        let lane = lt[0] as usize;
        proof {
            reveal(merge_state);
            let left = lemma_some_lane_left(bounds@, cur@);
            lemma_root_least(keys@, lt@, w, left);
            assert(keys[left] < EXHAUSTED);
            assert(bounds[lane + 1] <= bounds[256]);
        }
        let c = cur[lane];
        let v = src[c];
        let ghost old_dst = dst@;
        let ghost old_cur = cur@;
        let ghost old_keys = keys@;
        dst[k] = v;
        cur[lane] = c + 1;
        let next = c + 1;
        let nk: u128 = if next < bounds[lane + 1] {
            src[next] as u128
        } else {
            EXHAUSTED
        };
        keys[lane] = nk;
        proof {
            lemma_merge_step(s, bounds@, old_cur, old_keys, lt@, w, old_dst, d0, k as int, lane as int);
            assert(cur@ == old_cur.update(lane as int, (old_cur[lane as int] + 1) as usize));
            assert(dst@ == old_dst.update(k as int, s[old_cur[lane as int] as int]));
            assert(keys@ == old_keys.update(lane as int, lane_key(s, old_cur[lane as int] + 1, bounds[lane + 1] as int)));
        }
        let g = replay(&keys, &mut lt, Ghost(old_keys), Ghost(w));
        proof {
            w = g@;
        }
        k += 1;
    }
    proof {
        reveal(merge_state);
        lemma_all_consumed(s, bounds@, cur@, 256);
    }
}

/// What holds between two matches of the merge once `k` keys stand in `dst`.
#[verifier::opaque]
pub open spec fn merge_state(
    s: Seq<u64>,
    bounds: Seq<usize>,
    cur: Seq<usize>,
    keys: Seq<u128>,
    dst: Seq<u64>,
    d0: Seq<u64>,
    k: int,
) -> bool {
    let lo = bounds[0] as int;
    &&& bounds.len() == 257
    &&& cur.len() == 256
    &&& keys.len() == 256
    &&& bounds[256] <= s.len()
    &&& dst.len() == s.len()
    &&& d0.len() == s.len()
    &&& lo <= k <= bounds[256]
    &&& forall|j: int| 0 <= j < 256 ==> #[trigger] bounds[j] <= bounds[j + 1]
    &&& forall|j: int| 0 <= j <= 256 ==> #[trigger] bounds[j] <= bounds[256]
    &&& forall|j: int| 0 <= j < 256 ==> sorted(#[trigger] s.subrange(bounds[j] as int, bounds[j + 1] as int))
    &&& forall|j: int| 0 <= j < 256 ==> bounds[j] <= #[trigger] cur[j] <= bounds[j + 1]
    &&& forall|j: int| 0 <= j < 256 ==> #[trigger] keys[j] == lane_key(s, cur[j] as int, bounds[j + 1] as int)
    &&& consumed_len(bounds, cur, 256) == k - lo
    &&& consumed(s, bounds, cur, 256) == dst.subrange(lo, k).to_multiset()
    &&& sorted(dst.subrange(lo, k))
    &&& k > lo ==> forall|j: int| 0 <= j < 256 && cur[j] < bounds[j + 1] ==> dst[k - 1] <= s[#[trigger] cur[j] as int]
    &&& forall|q: int| 0 <= q < d0.len() && !(lo <= q < k) ==> #[trigger] dst[q] == d0[q]
}

/// One match of the merge: the overall winner's head goes to `dst[k]` and its
/// lane moves on.
pub proof fn lemma_merge_step(
    s: Seq<u64>,
    bounds: Seq<usize>,
    cur: Seq<usize>,
    keys: Seq<u128>,
    lt: Seq<u8>,
    w: Seq<u8>,
    dst: Seq<u64>,
    d0: Seq<u64>,
    k: int,
    lane: int,
)
    requires
        merge_state(s, bounds, cur, keys, dst, d0, k),
        k < bounds[256],
        tree_valid(keys, lt, w),
        lt[0] == w[1],
        lane == lt[0],
    ensures
        cur[lane] < bounds[lane + 1],
        cur[lane] + 1 <= usize::MAX,
        merge_state(
            s,
            bounds,
            cur.update(lane, (cur[lane] + 1) as usize),
            keys.update(lane, lane_key(s, cur[lane] + 1, bounds[lane + 1] as int)),
            dst.update(k, s[cur[lane] as int]),
            d0,
            k + 1,
        ),
{
    broadcast use group_to_multiset_ensures;

    reveal(merge_state);
    let lo = bounds[0] as int;
    let left = lemma_some_lane_left(bounds, cur);
    lemma_root_least(keys, lt, w, left);
    assert(keys[left] < EXHAUSTED);
    let c = cur[lane];
    let v = s[c as int];
    let cur2 = cur.update(lane, (c + 1) as usize);
    let keys2 = keys.update(lane, lane_key(s, c + 1, bounds[lane + 1] as int));
    let dst2 = dst.update(k, v);
    lemma_consume(s, bounds, cur, lane, 256);
    assert(dst2.subrange(lo, k + 1) =~= dst.subrange(lo, k).push(v));
    assert forall|j: int| 0 <= j < 256 && cur2[j] < bounds[j + 1] implies v <= s[#[trigger] cur2[j] as int] by {
        if j == lane {
            let run = s.subrange(bounds[j] as int, bounds[j + 1] as int);
            assert(sorted(run));
            assert(run[c - bounds[j]] <= run[c + 1 - bounds[j]]);
        } else {
            lemma_root_least(keys, lt, w, j);
        }
    }
    assert(sorted(dst2.subrange(lo, k + 1))) by {
        let t = dst2.subrange(lo, k + 1);
        assert forall|a: int, b: int| 0 <= a < b < t.len() implies t[a] <= t[b] by {
            if b == t.len() - 1 {
                if k > lo {
                    assert(dst.subrange(lo, k)[a] <= dst.subrange(lo, k)[k - 1 - lo]);
                }
            } else {
                assert(dst.subrange(lo, k)[a] <= dst.subrange(lo, k)[b]);
            }
        }
    }
}

/// Bounds that rise step by step rise all the way.
pub proof fn lemma_bounds_rise(bounds: Seq<usize>, a: int, b: int)
    requires
        bounds.len() == 257,
        forall|j: int| 0 <= j < 256 ==> #[trigger] bounds[j] <= bounds[j + 1],
        0 <= a <= b <= 256,
    ensures
        bounds[a] <= bounds[b],
    decreases b - a,
{
    if a < b {
        lemma_bounds_rise(bounds, a, b - 1);
        assert(bounds[b - 1] <= bounds[b]);
    }
}

/// Before the merge starts, nothing has been handed out.
pub proof fn lemma_nothing_consumed(src: Seq<u64>, bounds: Seq<usize>, cur: Seq<usize>, r: nat)
    requires
        r <= bounds.len(),
        r <= cur.len(),
        forall|j: int| 0 <= j < r ==> #[trigger] cur[j] == bounds[j],
        forall|j: int| 0 <= j < r ==> #[trigger] bounds[j] <= src.len(),
    ensures
        consumed_len(bounds, cur, r) == 0,
        consumed(src, bounds, cur, r) =~= Multiset::empty(),
    decreases r,
{
    broadcast use group_to_multiset_ensures;
    broadcast use vstd::multiset::group_multiset_axioms;

    if r > 0 {
        lemma_nothing_consumed(src, bounds, cur, (r - 1) as nat);
        let e = src.subrange(bounds[r - 1] as int, cur[r - 1] as int);
        assert(e =~= Seq::<u64>::empty());
        assert(e.to_multiset().len() == 0);
    }
}

/// Where chunk `i` of 256 nearly equal chunks of `[lo, lo + len)` begins.
pub open spec fn chunk_bound(lo: int, len: int, i: int) -> int {
    lo + len * i / 256
}

/// The chunk boundaries rise with `i`, run from `lo` to `lo + len`, and a chunk
/// of a range longer than the small-sort cutoff is shorter than the range.
pub proof fn lemma_chunk_bounds(lo: int, len: int, i: int, j: int)
    requires
        0 <= len,
        0 <= i <= j <= 256,
    ensures
        chunk_bound(lo, len, 0) == lo,
        chunk_bound(lo, len, 256) == lo + len,
        chunk_bound(lo, len, i) <= chunk_bound(lo, len, j),
        lo <= chunk_bound(lo, len, i) <= lo + len,
        len > 1024 && j == i + 1 ==> chunk_bound(lo, len, j) - chunk_bound(lo, len, i) < len,
{
    assert(len * i <= len * j) by (nonlinear_arith)
        requires 0 <= len, i <= j;
    assert(0 <= len * i <= len * 256) by (nonlinear_arith)
        requires 0 <= len, 0 <= i <= 256;
    lemma_div_is_ordered(len * i, len * j, 256);
    lemma_div_is_ordered(len * i, len * 256, 256);
    lemma_div_is_ordered(0, len * i, 256);
    assert(len * 256 / 256 == len) by {
        lemma_div_multiples_vanish(len, 256);
    }
    assert(len * 0 == 0);
    if len > 1024 && j == i + 1 {
        let a = len * j;
        let b = len * i;
        assert(a == b + len) by (nonlinear_arith)
            requires a == len * j, b == len * i, j == i + 1;
        lemma_fundamental_div_mod(a, 256);
        lemma_fundamental_div_mod(b, 256);
        lemma_mod_bound(a, 256);
        lemma_mod_bound(b, 256);
    }
}

/// Computes `chunk_bound(lo, len, i)` without overflowing.
fn chunk_start(lo: usize, len: usize, i: usize) -> (r: usize)
    requires
        i <= 256,
        lo + len <= usize::MAX,
    ensures
        r == chunk_bound(lo as int, len as int, i as int),
{
    let q = len / 256;
    let rem = len % 256;
    proof {
        lemma_fundamental_div_mod(len as int, 256);
        assert(len * i == 256 * (q * i) + rem * i) by (nonlinear_arith)
            requires len == 256 * q + rem;
        lemma_hoist_over_denominator((rem * i) as int, (q * i) as int, 256);
        assert((q * i) * 256 == 256 * (q * i)) by (nonlinear_arith);
        lemma_chunk_bounds(lo as int, len as int, i as int, 256);
        assert(q * i <= q * 256) by (nonlinear_arith)
            requires i <= 256;
        assert(rem * i <= 255 * 256) by (nonlinear_arith)
            requires rem < 256, i <= 256;
        lemma_div_is_ordered((rem * i) as int, 65280int, 256int);
    }
    lo + q * i + (rem * i) / 256
}

/// Relies on `<[u64]>::sort_unstable`: it leaves the slice in ascending order
/// and only reorders its elements.
#[verifier::external_body]
fn sort_small(data: &mut [u64], lo: usize, hi: usize)
    requires
        lo <= hi <= old(data)@.len(),
    ensures
        final(data)@.len() == old(data)@.len(),
        forall|q: int|
            0 <= q < old(data)@.len() && !(lo <= q < hi) ==> #[trigger] final(data)@[q] == old(data)@[q],
        sorted(final(data)@.subrange(lo as int, hi as int)),
        final(data)@.subrange(lo as int, hi as int).to_multiset() == old(data)@.subrange(
            lo as int,
            hi as int,
        ).to_multiset(),
{
    data[lo..hi].sort_unstable();
}

/// The buffer that a level of the recursion writes its result into.
pub open spec fn target(data: Seq<u64>, aux: Seq<u64>, write_to_aux: bool) -> Seq<u64> {
    if write_to_aux {
        aux
    } else {
        data
    }
}

/// Chunks that hold the same keys make ranges that hold the same keys.
pub proof fn lemma_chunks_permutation(t: Seq<u64>, u: Seq<u64>, lo: int, len: int, i: int)
    requires
        0 <= len,
        0 <= i <= 256,
        lo + len <= t.len(),
        lo + len <= u.len(),
        0 <= lo,
        forall|j: int|
            0 <= j < i ==> (#[trigger] t.subrange(chunk_bound(lo, len, j), chunk_bound(lo, len, j + 1))).to_multiset()
                == u.subrange(chunk_bound(lo, len, j), chunk_bound(lo, len, j + 1)).to_multiset(),
    ensures
        t.subrange(lo, chunk_bound(lo, len, i)).to_multiset() == u.subrange(lo, chunk_bound(lo, len, i)).to_multiset(),
    decreases i,
{
    lemma_chunk_bounds(lo, len, 0, i);
    if i == 0 {
        assert(t.subrange(lo, lo) =~= u.subrange(lo, lo));
    } else {
        lemma_chunks_permutation(t, u, lo, len, i - 1);
        lemma_chunk_bounds(lo, len, i - 1, i);
        lemma_chunk_bounds(lo, len, 0, i - 1);
        lemma_chunk_bounds(lo, len, i, i);
        let m = chunk_bound(lo, len, i - 1);
        let e = chunk_bound(lo, len, i);
        assert(lo <= m <= e <= lo + len);
        let j = i - 1;
        assert(t.subrange(chunk_bound(lo, len, j), chunk_bound(lo, len, j + 1)).to_multiset() == u.subrange(
            chunk_bound(lo, len, j),
            chunk_bound(lo, len, j + 1),
        ).to_multiset());
        assert(j + 1 == i);
        assert(t.subrange(lo, e) =~= t.subrange(lo, m) + t.subrange(m, e));
        assert(u.subrange(lo, e) =~= u.subrange(lo, m) + u.subrange(m, e));
        lemma_multiset_commutative(t.subrange(lo, m), t.subrange(m, e));
        lemma_multiset_commutative(u.subrange(lo, m), u.subrange(m, e));
    }
}

/// Sorts `data[lo .. hi]` into `aux[lo .. hi]` when `write_to_aux`, else in
/// place, touching nothing outside `[lo, hi)` of either buffer.
fn wide_merge_sort_recursive(data: &mut [u64], aux: &mut [u64], lo: usize, hi: usize, write_to_aux: bool)
    requires
        lo <= hi <= old(data)@.len(),
        old(aux)@.len() == old(data)@.len(),
    ensures
        final(data)@.len() == old(data)@.len(),
        final(aux)@.len() == old(aux)@.len(),
        forall|q: int|
            0 <= q < old(data)@.len() && !(lo <= q < hi) ==> #[trigger] final(data)@[q] == old(data)@[q],
        forall|q: int|
            0 <= q < old(data)@.len() && !(lo <= q < hi) ==> #[trigger] final(aux)@[q] == old(aux)@[q],
        sorted(target(final(data)@, final(aux)@, write_to_aux).subrange(lo as int, hi as int)),
        target(final(data)@, final(aux)@, write_to_aux).subrange(lo as int, hi as int).to_multiset()
            == old(data)@.subrange(lo as int, hi as int).to_multiset(),
    decreases hi - lo,
{
    let len = hi - lo;
    if len <= SMALL_SORT_LEN {
        sort_small(data, lo, hi);
        if write_to_aux {
            let ghost sorted_data = data@;
            let ghost a0 = aux@;
            let mut q = lo;
            while q < hi
                invariant
                    lo <= q <= hi <= data@.len(),
                    aux@.len() == data@.len(),
                    data@ == sorted_data,
                    a0.len() == data@.len(),
                    forall|p: int| lo <= p < q ==> #[trigger] aux@[p] == data@[p],
                    forall|p: int| 0 <= p < a0.len() && !(lo <= p < q) ==> #[trigger] aux@[p] == a0[p],
                decreases hi - q,
            {
                let v = data[q];
                aux[q] = v;
                q += 1;
            }
            proof {
                assert(aux@.subrange(lo as int, hi as int) =~= data@.subrange(lo as int, hi as int));
            }
        }
        return;
    }
    let not_write_to_aux = !write_to_aux;
    let ghost d0 = data@;
    let ghost a0 = aux@;
    let mut i: usize = 0;
    proof {
        lemma_chunk_bounds(lo as int, len as int, 0, 256);
    }
    while i < LANES
        invariant
            lo + len == hi <= d0.len(),
            len > 1024,
            i <= LANES,
            not_write_to_aux == !write_to_aux,
            data@.len() == d0.len(),
            aux@.len() == d0.len(),
            a0.len() == d0.len(),
            forall|q: int| 0 <= q < d0.len() && !(lo <= q < hi) ==> #[trigger] data@[q] == d0[q],
            forall|q: int| 0 <= q < d0.len() && !(lo <= q < hi) ==> #[trigger] aux@[q] == a0[q],
            forall|q: int| chunk_bound(lo as int, len as int, i as int) <= q < hi ==> #[trigger] data@[q] == d0[q],
            forall|j: int|
                0 <= j < i ==> {
                    let c = #[trigger] target(data@, aux@, not_write_to_aux).subrange(
                        chunk_bound(lo as int, len as int, j),
                        chunk_bound(lo as int, len as int, j + 1),
                    );
                    &&& sorted(c)
                    &&& c.to_multiset() == d0.subrange(
                        chunk_bound(lo as int, len as int, j),
                        chunk_bound(lo as int, len as int, j + 1),
                    ).to_multiset()
                },
        decreases LANES - i,
    {
        let cs = chunk_start(lo, len, i);
        let ce = chunk_start(lo, len, i + 1);
        let ghost before_d = data@;
        let ghost before_a = aux@;
        proof {
            lemma_chunk_bounds(lo as int, len as int, i as int, i + 1);
            lemma_chunk_bounds(lo as int, len as int, i + 1, 256);
        }
        wide_merge_sort_recursive(data, aux, cs, ce, not_write_to_aux);
        proof {
            assert(before_d.subrange(cs as int, ce as int) =~= d0.subrange(cs as int, ce as int));
            assert forall|j: int|
                0 <= j < i + 1 implies {
                    let c = #[trigger] target(data@, aux@, not_write_to_aux).subrange(
                        chunk_bound(lo as int, len as int, j),
                        chunk_bound(lo as int, len as int, j + 1),
                    );
                    &&& sorted(c)
                    &&& c.to_multiset() == d0.subrange(
                        chunk_bound(lo as int, len as int, j),
                        chunk_bound(lo as int, len as int, j + 1),
                    ).to_multiset()
                } by {
                if j < i {
                    lemma_chunk_bounds(lo as int, len as int, j, j + 1);
                    lemma_chunk_bounds(lo as int, len as int, j + 1, i as int);
                    let a = chunk_bound(lo as int, len as int, j);
                    let b = chunk_bound(lo as int, len as int, j + 1);
                    assert(target(data@, aux@, not_write_to_aux).subrange(a, b) =~= target(
                        before_d,
                        before_a,
                        not_write_to_aux,
                    ).subrange(a, b));
                }
            }
        }
        i += 1;
    }
    let mut bounds: Vec<usize> = Vec::with_capacity(LANES + 1);
    let mut b: usize = 0;
    while b <= LANES
        invariant
            b <= LANES + 1,
            lo + len == hi <= d0.len(),
            bounds.len() == b,
            forall|j: int| 0 <= j < b ==> #[trigger] bounds[j] == chunk_bound(lo as int, len as int, j),
        decreases LANES + 1 - b,
    {
        let v = chunk_start(lo, len, b);
        bounds.push(v);
        b += 1;
    }
    let ghost src = target(data@, aux@, not_write_to_aux);
    proof {
        lemma_chunk_bounds(lo as int, len as int, 0, 256);
        assert forall|r: int| 0 <= r < 256 implies #[trigger] bounds[r] <= bounds[r + 1] by {
            lemma_chunk_bounds(lo as int, len as int, r, r + 1);
        }
        assert forall|r: int| 0 <= r < 256 implies sorted(#[trigger] src.subrange(bounds[r] as int, bounds[r + 1] as int)) by {
            let c = src.subrange(chunk_bound(lo as int, len as int, r), chunk_bound(lo as int, len as int, r + 1));
            assert(sorted(c));
        }
        lemma_chunks_permutation(src, d0, lo as int, len as int, 256);
    }
    if write_to_aux {
        merge256(data, aux, &bounds);
    } else {
        merge256(aux, data, &bounds);
    }
}

/// Sorts `data` in ascending order.
pub fn wide_merge_sort(data: &mut [u64])
    ensures
        final(data)@.len() == old(data)@.len(),
        sorted(final(data)@),
        final(data)@.to_multiset() == old(data)@.to_multiset(),
{
    let n = data.len();
    if n <= SMALL_SORT_LEN {
        sort_small(data, 0, n);
    } else {
        // One allocation serves every level of the recursion.
        let mut aux = zeroed(n, 0u64);
        wide_merge_sort_recursive(data, aux.as_mut_slice(), 0, n, false);
    }
    proof {
        assert(old(data)@.subrange(0, n as int) =~= old(data)@);
        assert(data@.subrange(0, n as int) =~= data@);
    }
}

} // verus!
