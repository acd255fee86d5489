//! Keyed integrity hash over packet bytes: an xor-multiply chain seeded with
//! a shared 64-bit key. Both endpoints derive the same key, so a packet whose
//! trailing hash does not match is provably not the packet that was sealed;
//! in particular any single corrupted byte changes the hash.

use vstd::prelude::*;
use vstd::wrapping::u64_specs;
use vstd::arithmetic::div_mod::lemma_mul_mod_noop_left;
use vstd::arithmetic::div_mod::lemma_mul_mod_noop_right;
use vstd::arithmetic::div_mod::lemma_small_mod;
use vstd::arithmetic::mul::lemma_mul_is_associative;

verus! {

/// Odd multiplier of the mixing step. Multiplication by an odd constant is a
/// bijection modulo 2^64, which makes every step of the chain injective.
pub const HASH_PRIME: u64 = 0x100000001b3;

/// Multiplicative inverse of [`HASH_PRIME`] modulo 2^64; used only in proofs.
pub const HASH_PRIME_INVERSE: u64 = 0xce965057aff6957b;

/// One mixing step: absorb one byte into the running state.
pub open spec fn hash_step(h: u64, b: u8) -> u64 {
    u64_specs::wrapping_mul(h ^ (b as u64), HASH_PRIME)
}

/// The keyed hash of a byte sequence: the key, mixed with each byte in turn.
pub open spec fn keyed_hash(key: u64, s: Seq<u8>) -> u64
    decreases s.len(),
{
    if s.len() == 0 {
        key
    } else {
        hash_step(keyed_hash(key, s.drop_last()), s.last())
    }
}

/// Compute the keyed hash of `data`.
pub fn compute_hash(key: u64, data: &[u8]) -> (h: u64)
    ensures
        h == keyed_hash(key, data@),
{
    let mut h = key;
    let mut i: usize = 0;
    while i < data.len()
        invariant
            0 <= i <= data@.len(),
            h == keyed_hash(key, data@.take(i as int)),
        decreases data@.len() - i,
    {
        let b = *vstd::slice::slice_index_get(data, i);
        h = (h ^ (b as u64)).wrapping_mul(HASH_PRIME);
        i = i + 1;
        proof {
            assert(data@.take(i as int).drop_last() =~= data@.take(i as int - 1));
            assert(data@.take(i as int).last() == data@[i as int - 1]);
        }
    }
    proof {
        assert(data@.take(data@.len() as int) =~= data@);
    }
    h
}

/// Multiplication by the odd [`HASH_PRIME`] modulo 2^64 is injective.
proof fn lemma_mul_prime_injective(x: u64, y: u64)
    requires
        u64_specs::wrapping_mul(x, HASH_PRIME) == u64_specs::wrapping_mul(y, HASH_PRIME),
    ensures
        x == y,
{
    let m: int = 0x10000000000000000;
    let p: int = HASH_PRIME as int;
    let inv: int = HASH_PRIME_INVERSE as int;
    assert((0x100000001b3int * 0xce965057aff6957bint) % 0x10000000000000000int == 1int)
        by (nonlinear_arith);
    assert((p * inv) % m == 1);
    let xp: int = (x as int * p) % m;
    let yp: int = (y as int * p) % m;
    assert(xp == u64_specs::wrapping_mul(x, HASH_PRIME) as int);
    assert(yp == u64_specs::wrapping_mul(y, HASH_PRIME) as int);
    lemma_mul_mod_noop_left(x as int * p, inv, m);
    lemma_mul_is_associative(x as int, p, inv);
    lemma_mul_mod_noop_right(x as int, p * inv, m);
    lemma_small_mod(x as nat, m as nat);
    assert((xp * inv) % m == x as int);
    lemma_mul_mod_noop_left(y as int * p, inv, m);
    lemma_mul_is_associative(y as int, p, inv);
    lemma_mul_mod_noop_right(y as int, p * inv, m);
    lemma_small_mod(y as nat, m as nat);
    assert((yp * inv) % m == y as int);
}

/// A mixing step is injective in the running state.
proof fn lemma_step_state_injective(h1: u64, h2: u64, b: u8)
    requires
        hash_step(h1, b) == hash_step(h2, b),
    ensures
        h1 == h2,
{
    lemma_mul_prime_injective(h1 ^ (b as u64), h2 ^ (b as u64));
    let c = b as u64;
    assert(h1 ^ c == h2 ^ c ==> h1 == h2) by (bit_vector);
}

/// A mixing step is injective in the absorbed byte.
proof fn lemma_step_byte_injective(h: u64, b1: u8, b2: u8)
    requires
        hash_step(h, b1) == hash_step(h, b2),
    ensures
        b1 == b2,
{
    lemma_mul_prime_injective(h ^ (b1 as u64), h ^ (b2 as u64));
    let c1 = b1 as u64;
    let c2 = b2 as u64;
    assert(h ^ c1 == h ^ c2 ==> c1 == c2) by (bit_vector);
}

/// Two different states stay different however many equal bytes both absorb.
proof fn lemma_hash_state_injective(h1: u64, h2: u64, s: Seq<u8>)
    requires
        h1 != h2,
    ensures
        keyed_hash(h1, s) != keyed_hash(h2, s),
    decreases s.len(),
{
    if s.len() > 0 {
        lemma_hash_state_injective(h1, h2, s.drop_last());
        if keyed_hash(h1, s) == keyed_hash(h2, s) {
            lemma_step_state_injective(
                keyed_hash(h1, s.drop_last()),
                keyed_hash(h2, s.drop_last()),
                s.last(),
            );
        }
    }
}

/// Two equally long byte sequences that differ in exactly one byte have
/// different keyed hashes, for every key.
pub proof fn lemma_hash_detects_byte_change(key: u64, s: Seq<u8>, t: Seq<u8>, i: int)
    requires
        s.len() == t.len(),
        0 <= i < s.len(),
        s[i] != t[i],
        forall|j: int| 0 <= j < s.len() && j != i ==> s[j] == t[j],
    ensures
        keyed_hash(key, s) != keyed_hash(key, t),
    decreases s.len(),
{
    if i == s.len() - 1 {
        assert(s.drop_last() =~= t.drop_last());
        if keyed_hash(key, s) == keyed_hash(key, t) {
            lemma_step_byte_injective(keyed_hash(key, s.drop_last()), s.last(), t.last());
        }
    } else {
        lemma_hash_detects_byte_change(key, s.drop_last(), t.drop_last(), i);
        if keyed_hash(key, s) == keyed_hash(key, t) {
            lemma_step_state_injective(
                keyed_hash(key, s.drop_last()),
                keyed_hash(key, t.drop_last()),
                s.last(),
            );
        }
    }
}

} // verus!
