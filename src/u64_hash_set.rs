//! A dense hash set for 64-bit keys.
//!
//! The table is a power-of-two number of buckets of eight key slots, with no
//! metadata table beside it: a slot holding 0 is empty, and the key 0 itself is
//! kept aside in a flag. Every probe then touches one bucket of real keys.
//! The capacity is fixed at construction; there is no deletion and no resize.
use vstd::arithmetic::div_mod::*;
use vstd::arithmetic::power2::*;
use vstd::bits::*;
use vstd::prelude::*;
use vstd::seq_lib::*;
use vstd::set_lib::*;

use crate::hashers::StatelessU64Hasher;
use crate::radix::zeroed;

verus! {

/// Key slots per bucket: one cache line of 64-bit keys.
pub const BUCKET_SIZE: usize = 8;

/// The slot that the probe for a key with hash `h` visits at step `t`: the
/// home bucket `h mod nb` from the slot named by the top three bits of `h`,
/// round the bucket, then each following bucket from its first slot.
pub open spec fn probe_slot(h: u64, nb: nat, t: nat) -> nat {
    let home = (h as nat) % nb;
    let off = (h as nat) / pow2(61);
    if t < 8 {
        home * 8 + (off + t) % 8
    } else {
        ((home + t / 8) % nb) * 8 + t % 8
    }
}

/// The key in slot `p` of `t` is found by its probe before any empty slot.
pub open spec fn reachable<H: StatelessU64Hasher>(t: Seq<u64>, nb: nat, p: int) -> bool {
    exists|s: nat|
        s < t.len() && #[trigger] probe_slot(H::spec_hash(t[p]), nb, s) == p && forall|s2: nat|
            s2 < s ==> t[#[trigger] probe_slot(H::spec_hash(t[p]), nb, s2) as int] != 0
}

/// The least power of two that is at least `m`, searching upwards from `p`.
pub open spec fn pow2_at_least(m: nat, p: nat) -> nat
    decreases m - p,
    when p > 0
{
    if p >= m {
        p
    } else if 2 * p >= m {
        2 * p
    } else {
        pow2_at_least(m, 2 * p)
    }
}

/// The number of buckets for a set meant to hold `capacity` keys: room for
/// twice as many keys, rounded up to a power of two of buckets.
pub open spec fn buckets_for(capacity: nat) -> nat {
    let target = (2 * capacity + 7) / 8;
    pow2_at_least(if target == 0 { 1 } else { target }, 1)
}

/// The keys of a set after inserting `keys`, in order, into `start`.
pub open spec fn after_inserts(start: Set<u64>, keys: Seq<u64>) -> Set<u64>
    decreases keys.len(),
{
    if keys.len() == 0 {
        start
    } else {
        after_inserts(start, keys.drop_last()).insert(keys.last())
    }
}

/// Inserting keys into an empty set yields exactly their distinct values: a
/// key inserted twice (the key 0 included) counts once, and keys that are all
/// different count one each.
pub proof fn lemma_inserts_count_distinct(keys: Seq<u64>)
    ensures
        after_inserts(Set::empty(), keys) == keys.to_set(),
        after_inserts(Set::empty(), keys).len() == keys.to_set().len(),
        keys.no_duplicates() ==> after_inserts(Set::empty(), keys).len() == keys.len(),
    decreases keys.len(),
{
    if keys.len() == 0 {
        assert(keys.to_set() =~= Set::<u64>::empty());
    } else {
        let t = keys.drop_last();
        lemma_inserts_count_distinct(t);
        assert(keys =~= t.push(keys.last()));
        t.lemma_push_to_set_commute(keys.last());
    }
    if keys.no_duplicates() {
        keys.unique_seq_to_set();
    }
}

/// Inserting a key a second time changes nothing.
pub proof fn lemma_insert_twice(s: Set<u64>, key: u64)
    ensures
        s.insert(key).insert(key) == s.insert(key),
{
    assert(s.insert(key).insert(key) =~= s.insert(key));
}

/// Asked-for capacity whose table cannot be addressed.
pub struct CapacityOverflow;

pub struct U64HashSet<H: StatelessU64Hasher> {
    table: Vec<u64>,
    num_buckets: usize,
    len: usize,
    has_zero: bool,
    contents: Ghost<Set<u64>>,
    lg_buckets: Ghost<nat>,
    marker: core::marker::PhantomData<H>,
}

proof fn lemma_probe_bound(h: u64, nb: nat, t: nat)
    requires
        nb > 0,
    ensures
        probe_slot(h, nb, t) < nb * 8,
{
    let home = (h as nat) % nb;
    lemma_mod_bound(h as int, nb as int);
    lemma_mod_bound((home + t / 8) as int, nb as int);
    let b = if t < 8 { home } else { (home + t / 8) % nb };
    assert(b * 8 + 7 < nb * 8) by (nonlinear_arith)
        requires b < nb;
}

/// The probe of a key reaches every slot within `nb * 8` steps.
proof fn lemma_probe_covers(h: u64, nb: nat, p: nat) -> (s: nat)
    requires
        nb > 0,
        p < nb * 8,
    ensures
        s < nb * 8,
        probe_slot(h, nb, s) == p,
{
    let home = (h as nat) % nb;
    let off = (h as nat) / pow2(61);
    let q = p / 8;
    let r = p % 8;
    lemma_fundamental_div_mod(p as int, 8);
    lemma_mod_bound(p as int, 8);
    lemma_mod_bound(h as int, nb as int);
    assert(q < nb) by (nonlinear_arith)
        requires q == p / 8, p < nb * 8;
    assert(off < 8) by {
        lemma2_to64_rest();
        lemma_pow2_pos(61);
        lemma_multiply_divide_lt(h as int, pow2(61) as int, 8);
    }
    if q == home {
        let s: nat = if r >= off {
            (r - off) as nat
        } else {
            (r + 8 - off) as nat
        };
        if r >= off {
            assert(s == r - off);
        } else {
            assert(s == r + 8 - off);
        }
        assert((off + s) % 8 == r) by {
            if r >= off {
                lemma_small_mod(r, 8);
            } else {
                lemma_fundamental_div_mod_converse((r + 8) as int, 8, 1, r as int);
            }
        }
        assert(s < 8) by (nonlinear_arith)
            requires
                r < 8,
                off < 8,
                r >= off ==> s == r - off,
                r < off ==> s == r + 8 - off,
        ;
        assert(p == q * 8 + r);
        assert(probe_slot(h, nb, s) == home * 8 + (off + s) % 8);
        assert(nb * 8 >= 8) by (nonlinear_arith)
            requires nb > 0;
        s
    } else {
        let x: int = q + nb - home;
        let n: int = nb as int;
        let d: nat = (x % n) as nat;
        lemma_mod_bound(x, n);
        lemma_fundamental_div_mod(x, n);
        assert(x / n == 0 || x / n == 1) by {
            lemma_div_pos_is_pos(x, n);
            lemma_div_is_ordered(x, 2 * n - 1, n);
            lemma_div_plus_one_shrinks(n);
        }
        if x / n == 0 {
            assert(n * (x / n) == 0) by (nonlinear_arith)
                requires x / n == 0;
            assert(d == x);
        } else {
            assert(n * (x / n) == n) by (nonlinear_arith)
                requires x / n == 1;
            assert(d == x - n);
        }
        assert(d >= 1);
        let s = d * 8 + r;
        assert(s / 8 == d && s % 8 == r) by {
            lemma_fundamental_div_mod_converse(s as int, 8, d as int, r as int);
        }
        assert((home + d) % nb == q) by {
            if x / n == 0 {
                assert(home + d == n + q);
                lemma_fundamental_div_mod_converse((home + d) as int, n, 1, q as int);
            } else {
                assert(home + d == q);
                lemma_fundamental_div_mod_converse((home + d) as int, n, 0, q as int);
            }
        }
        assert(s < nb * 8) by (nonlinear_arith)
            requires s == d * 8 + r, d < nb, r < 8;
        assert(s >= 8);
        assert(probe_slot(h, nb, s) == ((home + s / 8) % nb) * 8 + s % 8);
        assert(p == q * 8 + r);
        s
    }
}

proof fn lemma_div_plus_one_shrinks(nb: int)
    requires
        nb > 0,
    ensures
        (2 * nb - 1) / nb <= 1,
{
    lemma_fundamental_div_mod(2 * nb - 1, nb);
    lemma_mod_bound(2 * nb - 1, nb);
    if (2 * nb - 1) / nb >= 2 {
        assert(nb * ((2 * nb - 1) / nb) >= nb * 2) by (nonlinear_arith)
            requires (2 * nb - 1) / nb >= 2, nb > 0;
    }
}

/// A table whose nonzero slots hold the keys of `contents`, each once, each
/// where its probe reaches it before any empty slot; `len` counts them.
pub open spec fn table_ok<H: StatelessU64Hasher>(t: Seq<u64>, nb: nat, contents: Set<u64>, len: nat) -> bool {
    &&& contents.finite()
    &&& len == contents.len()
    &&& len <= t.len()
    &&& !contents.contains(0)
    &&& forall|p: int| 0 <= p < t.len() && t[p] != 0 ==> contents.contains(#[trigger] t[p])
    &&& forall|k: u64| #[trigger] contents.contains(k) ==> exists|p: int| 0 <= p < t.len() && t[p] == k
    &&& forall|p: int, q: int|
        0 <= p < t.len() && 0 <= q < t.len() && p != q && #[trigger] t[p] != 0 ==> t[p] != #[trigger] t[q]
    &&& forall|p: int| 0 <= p < t.len() && #[trigger] t[p] != 0 ==> reachable::<H>(t, nb, p)
}

/// Writing a new key into the first empty slot of its probe keeps the table
/// in order, and the key was not there before.
proof fn lemma_table_insert<H: StatelessU64Hasher>(
    t: Seq<u64>,
    nb: nat,
    contents: Set<u64>,
    len: nat,
    key: u64,
    step: nat,
)
    requires
        table_ok::<H>(t, nb, contents, len),
        nb > 0,
        t.len() == nb * 8,
        key != 0,
        step < t.len(),
        t[probe_slot(H::spec_hash(key), nb, step) as int] == 0,
        forall|s: nat|
            s < step ==> t[#[trigger] probe_slot(H::spec_hash(key), nb, s) as int] != 0 && t[probe_slot(
                H::spec_hash(key),
                nb,
                s,
            ) as int] != key,
        contents.contains(key) || len < t.len(),
    ensures
        !contents.contains(key),
        table_ok::<H>(
            t.update(probe_slot(H::spec_hash(key), nb, step) as int, key),
            nb,
            contents.insert(key),
            len + 1,
        ),
{
    let h = H::spec_hash(key);
    let p = probe_slot(h, nb, step) as int;
    lemma_probe_bound(h, nb, step);
    if contents.contains(key) {
        let q = choose|q: int| 0 <= q < t.len() && t[q] == key;
        assert(reachable::<H>(t, nb, q));
        let sk = choose|s: nat|
            s < t.len() && #[trigger] probe_slot(H::spec_hash(t[q]), nb, s) == q && forall|s2: nat|
                s2 < s ==> t[#[trigger] probe_slot(H::spec_hash(t[q]), nb, s2) as int] != 0;
        if sk < step {
            assert(t[probe_slot(h, nb, sk) as int] != key);
        } else if sk > step {
            assert(t[probe_slot(h, nb, step) as int] != 0);
        }
    }
    let t1 = t.update(p, key);
    let c1 = contents.insert(key);
    assert forall|k: u64| #[trigger] c1.contains(k) implies exists|x: int| 0 <= x < t1.len() && t1[x] == k by {
        if k == key {
            assert(t1[p] == key);
        } else {
            assert(contents.contains(k));
            let x = choose|x: int| 0 <= x < t.len() && t[x] == k;
            assert(t1[x] == k);
        }
    }
    assert forall|a: int, b: int|
        0 <= a < t1.len() && 0 <= b < t1.len() && a != b && #[trigger] t1[a] != 0 implies t1[a] != #[trigger] t1[b] by {
        if a == p {
            if t[b] != 0 {
                assert(contents.contains(t[b]));
            }
        } else if b == p {
            assert(contents.contains(t[a]));
        } else {
            assert(t[a] != 0);
        }
    }
    assert forall|x: int| 0 <= x < t1.len() && #[trigger] t1[x] != 0 implies reachable::<H>(t1, nb, x) by {
        if x == p {
            assert forall|s2: nat| s2 < step implies t1[#[trigger] probe_slot(H::spec_hash(t1[x]), nb, s2) as int] != 0 by {
                lemma_probe_bound(h, nb, s2);
                assert(t[probe_slot(h, nb, s2) as int] != 0);
            }
            assert(probe_slot(H::spec_hash(t1[x]), nb, step) == x);
        } else {
            assert(t[x] != 0);
            assert(reachable::<H>(t, nb, x));
            let sk = choose|s: nat|
                s < t.len() && #[trigger] probe_slot(H::spec_hash(t[x]), nb, s) == x && forall|s2: nat|
                    s2 < s ==> t[#[trigger] probe_slot(H::spec_hash(t[x]), nb, s2) as int] != 0;
            assert forall|s2: nat| s2 < sk implies t1[#[trigger] probe_slot(H::spec_hash(t1[x]), nb, s2) as int] != 0 by {
                lemma_probe_bound(H::spec_hash(t[x]), nb, s2);
                assert(t[probe_slot(H::spec_hash(t[x]), nb, s2) as int] != 0);
            }
            assert(probe_slot(H::spec_hash(t1[x]), nb, sk) == x);
        }
    }
}

/// A probe that has met only other keys in every slot of the table means the
/// table is full and the key is not in it.
proof fn lemma_probe_exhausted<H: StatelessU64Hasher>(t: Seq<u64>, nb: nat, contents: Set<u64>, len: nat, key: u64)
    requires
        table_ok::<H>(t, nb, contents, len),
        nb > 0,
        t.len() == nb * 8,
        key != 0,
        forall|s: nat|
            s < nb * 8 ==> t[#[trigger] probe_slot(H::spec_hash(key), nb, s) as int] != 0 && t[probe_slot(
                H::spec_hash(key),
                nb,
                s,
            ) as int] != key,
    ensures
        !contents.contains(key),
        len >= t.len(),
{
    let h = H::spec_hash(key);
    if contents.contains(key) {
        let q = choose|q: int| 0 <= q < t.len() && t[q] == key;
        assert(reachable::<H>(t, nb, q));
        let sk = choose|s: nat|
            s < t.len() && #[trigger] probe_slot(H::spec_hash(t[q]), nb, s) == q && forall|s2: nat|
                s2 < s ==> t[#[trigger] probe_slot(H::spec_hash(t[q]), nb, s2) as int] != 0;
        assert(t[probe_slot(h, nb, sk) as int] != key);
    }
    assert forall|p: int| 0 <= p < t.len() implies #[trigger] t[p] != 0 by {
        let s = lemma_probe_covers(h, nb, p as nat);
        assert(t[probe_slot(h, nb, s) as int] != 0);
    }
    assert(t.no_duplicates()) by {
        assert forall|a: int, b: int| 0 <= a < t.len() && 0 <= b < t.len() && a != b implies t[a] != t[b] by {
            assert(t[a] != 0);
        }
    }
    t.unique_seq_to_set();
    assert(t.to_set().subset_of(contents)) by {
        assert forall|k: u64| t.to_set().contains(k) implies contents.contains(k) by {
            let p = choose|p: int| 0 <= p < t.len() && t[p] == k;
            assert(t[p] != 0);
        }
    }
    lemma_len_subset(t.to_set(), contents);
}

/// The power of two found is at least the target.
pub proof fn lemma_pow2_at_least_reaches(m: nat, p: nat)
    requires
        p > 0,
    ensures
        pow2_at_least(m, p) >= m,
    decreases m - p,
{
    if p < m && 2 * p < m {
        lemma_pow2_at_least_reaches(m, 2 * p);
    }
}

/// A table sized for `capacity` keys has at least twice as many slots.
pub proof fn lemma_buckets_for(capacity: nat)
    ensures
        buckets_for(capacity) * 8 >= 2 * capacity,
        buckets_for(capacity) >= 1,
{
    let target = (2 * capacity + 7) / 8;
    let m = if target == 0 { 1 } else { target };
    lemma_pow2_at_least_reaches(m, 1);
    lemma_pow2_at_least_grows(m, 1);
}

/// The search for a power of two only climbs.
proof fn lemma_pow2_at_least_grows(m: nat, p: nat)
    requires
        p > 0,
    ensures
        pow2_at_least(m, p) >= p,
        p < m ==> pow2_at_least(m, p) >= 2 * p,
    decreases m - p,
{
    if p < m && 2 * p < m {
        lemma_pow2_at_least_grows(m, 2 * p);
    }
}

impl<H: StatelessU64Hasher> U64HashSet<H> {
    /// The keys in the set.
    pub closed spec fn view(&self) -> Set<u64> {
        if self.has_zero {
            self.contents@.insert(0)
        } else {
            self.contents@
        }
    }

    /// How many key slots the table has.
    pub closed spec fn slot_count(&self) -> nat {
        self.table@.len()
    }

    /// How many buckets the table has.
    pub closed spec fn bucket_count(&self) -> nat {
        self.num_buckets as nat
    }

    /// The table's invariant: every nonzero key stands once, in a slot that its
    /// probe reaches before any empty slot.
    pub closed spec fn wf(&self) -> bool {
        let nb = self.num_buckets as nat;
        let t = self.table@;
        &&& nb == pow2(self.lg_buckets@)
        &&& self.lg_buckets@ < 64
        &&& t.len() == nb * 8
        &&& t.len() < usize::MAX
        &&& table_ok::<H>(t, nb, self.contents@, self.len as nat)
    }

    /// Whether `key` can be inserted: it is 0, it is already present, or a
    /// slot is still free (the key 0 takes no slot).
    pub open spec fn has_room_for(&self, key: u64) -> bool {
        key == 0 || self@.contains(key) || self@.remove(0).len() < self.slot_count()
    }

    /// The number of distinct keys inserted so far, the key 0 included.
    #[inline(always)]
    pub fn len(&self) -> (r: usize)
        requires
            self.wf(),
        ensures
            r == self@.len(),
    {
        proof {
            if self.has_zero {
                assert(self.contents@.insert(0).len() == self.contents@.len() + 1);
            }
        }
        self.len + if self.has_zero {
            1
        } else {
            0
        }
    }

    /// An empty set with room for `capacity` keys at a load of one half:
    /// `ceil(2 * capacity / 8)` buckets, rounded up to a power of two. Fails
    /// when that table could not be addressed.
    pub fn with_capacity(capacity: usize) -> (r: Result<Self, CapacityOverflow>)
        ensures
            match r {
                Ok(set) => {
                    &&& buckets_for(capacity as nat) * 8 <= usize::MAX
                    &&& set.wf()
                    &&& set@ == Set::<u64>::empty()
                    &&& set.bucket_count() == buckets_for(capacity as nat)
                    &&& set.slot_count() == 8 * buckets_for(capacity as nat)
                },
                Err(_) => buckets_for(capacity as nat) * 8 > usize::MAX,
            },
    {
        let target = capacity / 4 + if capacity % 4 == 0 {
            0
        } else {
            1
        };
        let m = if target == 0 {
            1
        } else {
            target
        };
        proof {
            assert(target == (2 * capacity + 7) / 8);
        }
        let mut nb: usize = 1;
        let ghost mut lg: nat = 0;
        proof {
            lemma2_to64();
        }
        while nb < m
            invariant
                1 <= nb <= usize::MAX / 8,
                nb == pow2(lg),
                lg < 64,
                m >= 1,
                pow2_at_least(m as nat, nb as nat) == buckets_for(capacity as nat),
            decreases 64 - lg,
        {
            if nb > usize::MAX / 16 {
                proof {
                    lemma_pow2_at_least_grows(m as nat, nb as nat);
                }
                return Err(CapacityOverflow);
            }
            nb = nb * 2;
            proof {
                lemma_pow2_adds(lg, 1);
                lemma2_to64();
                lemma2_to64_rest();
                if lg + 1 >= 64 {
                    lemma_pow2_strictly_increases(63, lg + 1);
                }
                lg = lg + 1;
                assert(nb == pow2(lg));
            }
        }
        proof {
            assert(pow2_at_least(m as nat, nb as nat) == nb);
            // usize::MAX is one below a power of two of at least 2^8, so no
            // multiple of eight reaches it.
            assert(usize::MAX % 8 == 7);
            assert(nb * 8 <= usize::MAX) by (nonlinear_arith)
                requires nb <= usize::MAX / 8;
            assert(nb * 8 < usize::MAX) by (nonlinear_arith)
                requires nb * 8 <= usize::MAX, usize::MAX % 8 == 7;
        }
        let table = zeroed(nb * BUCKET_SIZE, 0u64);
        Ok(U64HashSet {
            table,
            num_buckets: nb,
            len: 0,
            has_zero: false,
            contents: Ghost(Set::empty()),
            lg_buckets: Ghost(lg),
            marker: core::marker::PhantomData,
        })
    }

    /// Inserts `key`; a key already present leaves the set as it is.
    pub fn insert(&mut self, key: u64)
        requires
            old(self).wf(),
            old(self).has_room_for(key),
        ensures
            final(self).wf(),
            final(self)@ == old(self)@.insert(key),
            final(self).slot_count() == old(self).slot_count(),
            final(self).bucket_count() == old(self).bucket_count(),
    {
        if key == 0 {
            self.has_zero = true;
            proof {
                assert(self@ =~= old(self)@.insert(key));
            }
            return;
        }
        let h = H::hash(key);
        let nb = self.num_buckets;
        let ghost lg = self.lg_buckets@;
        let ghost t0 = self.table@;
        let ghost nbn = nb as nat;
        let mask: u64 = (nb - 1) as u64;
        proof {
            assert((h >> 61u64) < 8) by (bit_vector);
        }
        let off: usize = (h >> 61) as usize;
        let home: usize = (h & mask) as usize;
        proof {
            lemma_pow2_pos(lg);
            lemma_u64_shr_is_div(h, 61);
            lemma_u64_low_bits_mask_is_mod(h, lg);
            lemma_u64_pow2_no_overflow(lg);
            assert(home == (h as nat) % nbn);
            lemma_mod_bound(h as int, nb as int);
            lemma_small_mod(home as nat, nb as nat);
            assert(old(self)@.remove(0) =~= self.contents@);
            if !self.contents@.contains(key) {
                assert(!old(self)@.contains(key));
            }
        }
        let mut b: usize = home;
        let mut first: usize = off;
        let mut visited: usize = 0;
        loop
            invariant
                self.wf(),
                self.table@ == t0,
                t0 == old(self).table@,
                self.num_buckets == nb,
                old(self).num_buckets == nb,
                first < 8,
                nbn == nb,
                self.lg_buckets@ == lg,
                self.contents@ == old(self).contents@,
                self.len == old(self).len,
                self.has_zero == old(self).has_zero,
                key != 0,
                h == H::spec_hash(key),
                self.contents@.contains(key) || self.len < t0.len(),
                home == (h as nat) % nbn,
                off == (h as nat) / pow2(61),
                visited < nb,
                b == (home + visited) as nat % nbn,
                first == if visited == 0 { off } else { 0 },
                forall|s: nat|
                    s < visited * 8 ==> t0[#[trigger] probe_slot(h, nbn, s) as int] != 0 && t0[probe_slot(
                        h,
                        nbn,
                        s,
                    ) as int] != key,
            decreases nb - visited,
        {
            let mut e: usize = 0;
            proof {
                lemma_mod_bound((home + visited) as int, nb as int);
            }
            while e < BUCKET_SIZE
                invariant
                    self.wf(),
                    self.table@ == t0,
                    t0 == old(self).table@,
                    self.num_buckets == nb,
                    old(self).num_buckets == nb,
                    first < 8,
                    nbn == nb,
                    self.lg_buckets@ == lg,
                    self.contents@ == old(self).contents@,
                    self.len == old(self).len,
                    self.has_zero == old(self).has_zero,
                    key != 0,
                    h == H::spec_hash(key),
                    self.contents@.contains(key) || self.len < t0.len(),
                    home == (h as nat) % nbn,
                    off == (h as nat) / pow2(61),
                    visited < nb,
                    b < nb,
                    b == (home + visited) as nat % nbn,
                    first == if visited == 0 { off } else { 0 },
                    e <= BUCKET_SIZE,
                    forall|s: nat|
                        s < visited * 8 + e ==> t0[#[trigger] probe_slot(h, nbn, s) as int] != 0 && t0[probe_slot(
                            h,
                            nbn,
                            s,
                        ) as int] != key,
                decreases BUCKET_SIZE - e,
            {
                let slot = b * BUCKET_SIZE + (first + e) % BUCKET_SIZE;
                proof {
                    let step = (visited * 8 + e) as nat;
                    lemma_mod_bound((first + e) as int, 8);
                    assert(slot < nb * 8) by (nonlinear_arith)
                        requires slot == b * 8 + (first + e) % 8, b < nb, (first + e) % 8 < 8;
                    lemma_small_mod(home as nat, nbn);
                    if visited == 0 {
                        assert(step == e);
                        assert(b == home);
                    } else {
                        lemma_fundamental_div_mod_converse(step as int, 8, visited as int, e as int);
                        lemma_small_mod(e as nat, 8);
                        assert(step / 8 == visited);
                        assert(step % 8 == e);
                        assert(slot == b * 8 + e);
                    }
                    assert(slot == probe_slot(h, nbn, step));
                }
                let v = self.table[slot];
                if v == 0 {
                    proof {
                        lemma_table_insert::<H>(t0, nbn, self.contents@, self.len as nat, key, (visited * 8 + e) as nat);
                    }
                    self.table[slot] = key;
                    self.len = self.len + 1;
                    self.contents = Ghost(self.contents@.insert(key));
                    proof {
                        assert(self@ =~= old(self)@.insert(key));
                    }
                    return;
                }
                if v == key {
                    proof {
                        assert(self.contents@.contains(key));
                        assert(self@ =~= old(self)@.insert(key));
                    }
                    return;
                }
                e += 1;
            }
            visited += 1;
            proof {
                if visited == nb {
                    lemma_probe_exhausted::<H>(t0, nbn, self.contents@, self.len as nat, key);
                }
                assert(visited < nb);
                lemma_add_mod_noop((home + visited - 1) as int, 1, nb as int);
                lemma_mod_bound((home + visited - 1) as int, nb as int);
                if nb > 1 {
                    lemma_small_mod(1, nbn);
                    if b + 1 < nb {
                        lemma_small_mod((b + 1) as nat, nbn);
                    } else {
                        lemma_mod_self_0(nb as int);
                    }
                } else {
                    lemma_mod_bound((home + visited) as int, 1);
                }
            }
            b = if b + 1 == nb {
                0
            } else {
                b + 1
            };
            first = 0;
        }
    }
}

} // verus!
