//! Stateless mixing functions from a 64-bit key to a 64-bit key.
use vstd::prelude::*;
use vstd::seq_lib::*;
use vstd::set_lib::*;

verus! {

/// A pure, deterministic function from a key to a mixed key.
///
/// `spec_hash` names what `hash` computes, so that contracts of the sorts and
/// of the set can speak of the mixed keys.
pub trait StatelessU64Hasher {
    spec fn spec_hash(value: u64) -> u64;

    fn hash(value: u64) -> (r: u64)
        ensures
            r == Self::spec_hash(value),
    ;
}

/// No mixing at all: every key maps to itself.
pub struct NoopHasher;

impl StatelessU64Hasher for NoopHasher {
    open spec fn spec_hash(value: u64) -> u64 {
        value
    }

    #[inline(always)]
    fn hash(value: u64) -> (r: u64) {
        value
    }
}

pub const MURMUR_MUL_1: u64 = 0xff51afd7ed558ccd;

pub const MURMUR_MUL_2: u64 = 0xc4ceb9fe1a85ec53;

/// Folds the high 31 bits into the low bits.
pub open spec fn xor_shift_33(h: u64) -> u64 {
    h ^ (h >> 33u64)
}

/// The 64-bit finalizer of MurmurHash3: three rounds of xor-shift by 33,
/// interleaved with two multiplications by odd constants.
pub open spec fn murmur_mix(value: u64) -> u64 {
    xor_shift_33(
        xor_shift_33(xor_shift_33(value).wrapping_mul(MURMUR_MUL_1)).wrapping_mul(MURMUR_MUL_2),
    )
}

/// The strong finalizer-style mix.
pub struct MurmurHasher;

impl MurmurHasher {
    #[inline(always)]
    pub fn hash_u64(value: u64) -> (r: u64)
        ensures
            r == murmur_mix(value),
    {
        let mut h = value;
        h ^= h >> 33;
        h = h.wrapping_mul(MURMUR_MUL_1);
        h ^= h >> 33;
        h = h.wrapping_mul(MURMUR_MUL_2);
        h ^= h >> 33;
        h
    }
}

impl StatelessU64Hasher for MurmurHasher {
    open spec fn spec_hash(value: u64) -> u64 {
        murmur_mix(value)
    }

    #[inline(always)]
    fn hash(value: u64) -> (r: u64) {
        Self::hash_u64(value)
    }
}

pub const SWAP_MUL_1: u64 = 0x9e3779b97f4a7c15;

pub const SWAP_MUL_2: u64 = 0xc2b2ae3d27d4eb4f;

/// Byte `i` of `x`, counting from the least significant byte.
pub open spec fn byte_of(x: u64, i: u64) -> u64 {
    (x >> (8 * i)) & 0xff
}

/// `x` with its byte order reversed: byte `i` moves to position `7 - i`.
pub open spec fn reverse_bytes(x: u64) -> u64 {
    (byte_of(x, 0) << 56u64) | (byte_of(x, 1) << 48u64) | (byte_of(x, 2) << 40u64) | (byte_of(x, 3)
        << 32u64) | (byte_of(x, 4) << 24u64) | (byte_of(x, 5) << 16u64) | (byte_of(x, 6) << 8u64)
        | byte_of(x, 7)
}

/// The cheap mix: multiply by an odd constant, reverse the bytes, multiply by
/// a second odd constant.
pub open spec fn mul_swap_mul(value: u64) -> u64 {
    reverse_bytes(value.wrapping_mul(SWAP_MUL_1)).wrapping_mul(SWAP_MUL_2)
}

fn swap_bytes(x: u64) -> (r: u64)
    ensures
        r == reverse_bytes(x),
{
    let r = ((x & 0xff) << 56) | ((x & 0xff00) << 40) | ((x & 0xff0000) << 24) | ((x & 0xff000000)
        << 8) | ((x >> 8) & 0xff000000) | ((x >> 24) & 0xff0000) | ((x >> 40) & 0xff00) | (x >> 56);
    assert(r == reverse_bytes(x)) by (bit_vector)
        requires
            r == ((x & 0xff) << 56) | ((x & 0xff00) << 40) | ((x & 0xff0000) << 24) | ((x
                & 0xff000000) << 8) | ((x >> 8) & 0xff000000) | ((x >> 24) & 0xff0000) | ((x >> 40)
                & 0xff00) | (x >> 56),
    ;
    r
}

/// The cheap bijective mix.
pub struct MulSwapMulHasher;

impl StatelessU64Hasher for MulSwapMulHasher {
    open spec fn spec_hash(value: u64) -> u64 {
        mul_swap_mul(value)
    }

    #[inline(always)]
    fn hash(value: u64) -> (r: u64) {
        let mut h = value;
        h = h.wrapping_mul(SWAP_MUL_1);
        h = swap_bytes(h);
        h = h.wrapping_mul(SWAP_MUL_2);
        h
    }
}

/// A mixing function that never maps two keys to one.
pub open spec fn is_injective<H: StatelessU64Hasher>() -> bool {
    forall|a: u64, b: u64| #[trigger] H::spec_hash(a) == #[trigger] H::spec_hash(b) ==> a == b
}

/// Under an injective mixing function, the mixed keys of a sequence are as
/// many distinct values as its keys.
pub proof fn lemma_injective_distinct_count<H: StatelessU64Hasher>(s: Seq<u64>)
    requires
        is_injective::<H>(),
    ensures
        s.map_values(|x: u64| H::spec_hash(x)).to_set().len() == s.to_set().len(),
{
    let f = |x: u64| H::spec_hash(x);
    let m = s.map_values(f);
    seq_to_set_is_finite(s);
    assert(m.to_set() =~= s.to_set().map(f)) by {
        assert forall|y: u64| m.to_set().contains(y) implies s.to_set().map(f).contains(y) by {
            let i = choose|i: int| 0 <= i < m.len() && m[i] == y;
            assert(s.to_set().contains(s[i]));
        }
        assert forall|y: u64| s.to_set().map(f).contains(y) implies m.to_set().contains(y) by {
            let x = choose|x: u64| s.to_set().contains(x) && f(x) == y;
            let i = choose|i: int| 0 <= i < s.len() && s[i] == x;
            assert(m[i] == y);
        }
    }
    assert(vstd::relations::injective_on(f, s.to_set()));
    lemma_map_size(s.to_set(), s.to_set().map(f), f);
}

/// Xor-shift by 33 undoes itself.
proof fn lemma_xor_shift_33_inverse(h: u64)
    ensures
        xor_shift_33(xor_shift_33(h)) == h,
{
    assert((h ^ (h >> 33u64)) ^ ((h ^ (h >> 33u64)) >> 33u64) == h) by (bit_vector);
}

/// Multiplying by an odd constant is undone by multiplying by its inverse
/// modulo 2^64.
proof fn lemma_mul_inverse(h: u64, c: u64, inv: u64)
    requires
        (c as int * inv as int) % 0x1_0000_0000_0000_0000 == 1,
    ensures
        h.wrapping_mul(c).wrapping_mul(inv) == h,
{
    let m: int = 0x1_0000_0000_0000_0000;
    let x = h.wrapping_mul(c);
    assert(x as int == (h as int * c as int) % m);
    assert(x.wrapping_mul(inv) as int == (x as int * inv as int) % m);
    vstd::arithmetic::div_mod::lemma_mul_mod_noop_left(h as int * c as int, inv as int, m);
    vstd::arithmetic::mul::lemma_mul_is_associative(h as int, c as int, inv as int);
    vstd::arithmetic::div_mod::lemma_mul_mod_noop_right(h as int, c as int * inv as int, m);
    vstd::arithmetic::div_mod::lemma_small_mod(h as nat, m as nat);
}

/// The finalizer mix never maps two keys to one.
pub proof fn lemma_murmur_injective()
    ensures
        is_injective::<MurmurHasher>(),
{
    assert forall|a: u64, b: u64| #[trigger] murmur_mix(a) == #[trigger] murmur_mix(b) implies a == b by {
        lemma_xor_shift_33_inverse(xor_shift_33(xor_shift_33(a).wrapping_mul(MURMUR_MUL_1)).wrapping_mul(MURMUR_MUL_2));
        lemma_xor_shift_33_inverse(xor_shift_33(xor_shift_33(b).wrapping_mul(MURMUR_MUL_1)).wrapping_mul(MURMUR_MUL_2));
        lemma_mul_inverse(xor_shift_33(xor_shift_33(a).wrapping_mul(MURMUR_MUL_1)), MURMUR_MUL_2, 0x9cb4b2f8129337db);
        lemma_mul_inverse(xor_shift_33(xor_shift_33(b).wrapping_mul(MURMUR_MUL_1)), MURMUR_MUL_2, 0x9cb4b2f8129337db);
        lemma_xor_shift_33_inverse(xor_shift_33(a).wrapping_mul(MURMUR_MUL_1));
        lemma_xor_shift_33_inverse(xor_shift_33(b).wrapping_mul(MURMUR_MUL_1));
        lemma_mul_inverse(xor_shift_33(a), MURMUR_MUL_1, 0x4f74430c22a54005);
        lemma_mul_inverse(xor_shift_33(b), MURMUR_MUL_1, 0x4f74430c22a54005);
        lemma_xor_shift_33_inverse(a);
        lemma_xor_shift_33_inverse(b);
    }
}

/// Reversing the bytes twice gives the key back.
proof fn lemma_reverse_bytes_inverse(x: u64)
    ensures
        reverse_bytes(reverse_bytes(x)) == x,
{
    let r = reverse_bytes(x);
    assert(((((x >> 0u64) & 0xff) << 56u64) | (((x >> 8u64) & 0xff) << 48u64) | (((x >> 16u64) & 0xff) << 40u64) | (((x >> 24u64) & 0xff) << 32u64) | (((x >> 32u64) & 0xff) << 24u64) | (((x >> 40u64) & 0xff) << 16u64) | (((x >> 48u64) & 0xff) << 8u64) | ((x >> 56u64) & 0xff)) == r);
    assert(((((r >> 0u64) & 0xff) << 56u64) | (((r >> 8u64) & 0xff) << 48u64) | (((r >> 16u64) & 0xff) << 40u64) | (((r >> 24u64) & 0xff) << 32u64) | (((r >> 32u64) & 0xff) << 24u64) | (((r >> 40u64) & 0xff) << 16u64) | (((r >> 48u64) & 0xff) << 8u64) | ((r >> 56u64) & 0xff)) == x) by (bit_vector)
        requires
            ((((x >> 0u64) & 0xff) << 56u64) | (((x >> 8u64) & 0xff) << 48u64) | (((x >> 16u64) & 0xff) << 40u64) | (((x >> 24u64) & 0xff) << 32u64) | (((x >> 32u64) & 0xff) << 24u64) | (((x >> 40u64) & 0xff) << 16u64) | (((x >> 48u64) & 0xff) << 8u64) | ((x >> 56u64) & 0xff)) == r,
    ;
    assert(reverse_bytes(r) == ((((r >> 0u64) & 0xff) << 56u64) | (((r >> 8u64) & 0xff) << 48u64) | (((r >> 16u64) & 0xff) << 40u64) | (((r >> 24u64) & 0xff) << 32u64) | (((r >> 32u64) & 0xff) << 24u64) | (((r >> 40u64) & 0xff) << 16u64) | (((r >> 48u64) & 0xff) << 8u64) | ((r >> 56u64) & 0xff)));
}

/// The cheap mix never maps two keys to one.
pub proof fn lemma_mul_swap_mul_injective()
    ensures
        is_injective::<MulSwapMulHasher>(),
{
    assert forall|a: u64, b: u64| #[trigger] mul_swap_mul(a) == #[trigger] mul_swap_mul(b) implies a == b by {
        lemma_mul_inverse(reverse_bytes(a.wrapping_mul(SWAP_MUL_1)), SWAP_MUL_2, 0xba79078168d4baf);
        lemma_mul_inverse(reverse_bytes(b.wrapping_mul(SWAP_MUL_1)), SWAP_MUL_2, 0xba79078168d4baf);
        lemma_reverse_bytes_inverse(a.wrapping_mul(SWAP_MUL_1));
        lemma_reverse_bytes_inverse(b.wrapping_mul(SWAP_MUL_1));
        lemma_mul_inverse(a, SWAP_MUL_1, 0xf1de83e19937733d);
        lemma_mul_inverse(b, SWAP_MUL_1, 0xf1de83e19937733d);
    }
}

/// No mixing never maps two keys to one.
pub proof fn lemma_noop_injective()
    ensures
        is_injective::<NoopHasher>(),
{
}

/// A `std::hash::Hasher` that hands a 64-bit key to a mixing function, so
/// that std's hash sets can use the policies of this crate.
pub struct U64Hasher<H: StatelessU64Hasher> {
    result: u64,
    function: core::marker::PhantomData<H>,
}

impl<H: StatelessU64Hasher> U64Hasher<H> {
    /// What `finish` returns.
    pub closed spec fn spec_result(&self) -> u64 {
        self.result
    }
}

impl<H: StatelessU64Hasher> core::hash::Hasher for U64Hasher<H> {
    /// A key written as bytes is read as a little-endian integer of its first
    /// eight bytes, as `write_u64` would have received it.
    fn write(&mut self, bytes: &[u8]) {
        let mut value: u64 = 0;
        let n: usize = if bytes.len() < 8 {
            bytes.len()
        } else {
            8
        };
        let mut i: usize = n;
        while i > 0
            invariant
                i <= n <= 8,
                n <= bytes@.len(),
            decreases i,
        {
            i -= 1;
            value = (value << 8u64) | (bytes[i] as u64);
        }
        self.result = H::hash(value);
    }

    #[inline(always)]
    fn write_u64(&mut self, value: u64) {
        self.result = H::hash(value);
    }

    #[inline(always)]
    fn finish(&self) -> u64 {
        self.result
    }
}

impl<H: StatelessU64Hasher> Default for U64Hasher<H> {
    fn default() -> (r: Self)
        ensures
            r.spec_result() == 0,
    {
        U64Hasher { result: 0, function: core::marker::PhantomData }
    }
}

} // verus!
