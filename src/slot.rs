//! Choosing a bucket from a key hash and a depth.

use std::hash::{Hash, Hasher};

use seahash::SeaHasher;
use vstd::arithmetic::div_mod::{lemma_mod_multiples_vanish, lemma_mul_mod_noop_left, lemma_small_mod};
use vstd::arithmetic::mul::lemma_mul_is_associative;
use vstd::prelude::*;

verus! {

/// Number of buckets in every node.
pub const N_BUCKETS: usize = 16;

/// Product modulo 2^64, as `wrapping_mul` computes it.
pub open spec fn mul64(a: u64, b: u64) -> u64 {
    ((a as int * b as int) % 0x1_0000_0000_0000_0000int) as u64
}

/// SeaHash's diffusion function.
pub open spec fn diffuse(x: u64) -> u64 {
    let y = mul64(x, 0x6eed0e9da4d94a4f);
    let z = y ^ ((y >> 32u64) >> (y >> 60u64));
    mul64(z, 0x6eed0e9da4d94a4f)
}

/// The SeaHash digest of a `u64`, as written through `Hash` into a fresh
/// `SeaHasher` with its default seeds: one eight-byte block is pushed, and
/// `finish` folds the state with the byte count.
#[verifier::opaque]
pub open spec fn sea_hash(x: u64) -> u64 {
    diffuse(0xb480a793d8e6c86cu64 ^ 0x6fe2e5aaf078ebc9u64 ^ 0x14f994a4c5259381u64 ^ diffuse(0x16f11fe89b0d677cu64 ^ x) ^ 8u64)
}

/// Relies on `seahash::SeaHasher`: `new` takes the default seeds, `Hash` of a
/// `u64` calls `write_u64`, which writes its eight little-endian bytes, and
/// `finish` returns the digest that `sea_hash` states.
#[verifier::external_body]
pub(crate) fn hash_u64(x: u64) -> (r: u64)
    ensures
        r == sea_hash(x),
{
    let mut hasher = SeaHasher::new();
    x.hash(&mut hasher);
    hasher.finish()
}

/// The bucket that hash `h` selects at `depth`: every sixteen levels the hash
/// is hashed again, and within a window of sixteen levels each level takes the
/// next four bits, lowest first.
pub open spec fn slot_of(h: u64, depth: nat) -> nat
    decreases depth,
{
    if depth >= 16 {
        slot_of(sea_hash(h), (depth - 16) as nat)
    } else {
        ((h >> (4 * depth) as u64) & 15u64) as nat
    }
}

/// The hash of a key, as the trie uses it.
pub open spec fn key_hash(k: u64) -> u64 {
    sea_hash(k)
}

pub proof fn lemma_slot_bound(h: u64, depth: nat)
    ensures
        slot_of(h, depth) < 16,
    decreases depth,
{
    if depth >= 16 {
        lemma_slot_bound(sea_hash(h), (depth - 16) as nat);
    } else {
        let sh = h >> (4 * depth) as u64;
        assert(sh & 15u64 <= 15u64) by (bit_vector);
    }
}

/// Hash of a key, with which the trie is descended.
pub fn hash_key(k: u64) -> (r: u64)
    ensures
        r == key_hash(k),
{
    hash_u64(k)
}

/// The bucket selected by hash `h` at `depth`.
pub fn calculate_slot(h: u64, depth: usize) -> (r: usize)
    ensures
        r as nat == slot_of(h, depth as nat),
        r < N_BUCKETS,
{
    let mut h = h;
    let mut depth = depth;
    let ghost target = slot_of(h, depth as nat);
    while depth >= 16
        invariant
            slot_of(h, depth as nat) == target,
        decreases depth,
    {
        h = hash_u64(h);
        depth = depth - 16;
    }
    let shifted = h >> ((depth * 4) as u64);
    let r = (shifted & 0x0f) as usize;
    proof {
        assert(shifted & 15u64 <= 15u64) by (bit_vector);
    }
    r
}


proof fn lemma_mul64_inverse(x: u64)
    ensures
        mul64(mul64(x, 0x6eed0e9da4d94a4f), 0x2f72b4215a3d8caf) == x,
{
    let m = 0x1_0000_0000_0000_0000int;
    let c = 0x6eed0e9da4d94a4fint;
    let i = 0x2f72b4215a3d8cafint;
    let k = 1481465803515038264int;
    let xi = x as int;
    lemma_mul_mod_noop_left(xi * c, i, m);
    lemma_mul_is_associative(xi, c, i);
    assert(c * i == 1 + k * m);
    assert(xi * (c * i) == m * (xi * k) + xi) by (nonlinear_arith)
        requires
            c * i == 1 + k * m;
    lemma_mod_multiples_vanish(xi * k, xi, m);
    lemma_small_mod(x as nat, m as nat);
}

proof fn lemma_mul64_injective(a: u64, b: u64)
    requires
        mul64(a, 0x6eed0e9da4d94a4f) == mul64(b, 0x6eed0e9da4d94a4f),
    ensures
        a == b,
{
    lemma_mul64_inverse(a);
    lemma_mul64_inverse(b);
}

proof fn lemma_diffuse_injective(a: u64, b: u64)
    requires
        diffuse(a) == diffuse(b),
    ensures
        a == b,
{
    let ya = mul64(a, 0x6eed0e9da4d94a4f);
    let yb = mul64(b, 0x6eed0e9da4d94a4f);
    let za = ya ^ ((ya >> 32u64) >> (ya >> 60u64));
    let zb = yb ^ ((yb >> 32u64) >> (yb >> 60u64));
    lemma_mul64_injective(za, zb);
    assert(ya == yb) by (bit_vector)
        requires
            za == zb,
            za == ya ^ ((ya >> 32u64) >> (ya >> 60u64)),
            zb == yb ^ ((yb >> 32u64) >> (yb >> 60u64));
    lemma_mul64_injective(a, b);
}

/// No two `u64` keys have the same SeaHash.
pub proof fn lemma_sea_hash_injective(a: u64, b: u64)
    requires
        sea_hash(a) == sea_hash(b),
    ensures
        a == b,
{
    reveal(sea_hash);
    let da = diffuse(0x16f11fe89b0d677cu64 ^ a);
    let db = diffuse(0x16f11fe89b0d677cu64 ^ b);
    lemma_diffuse_injective(
        0xb480a793d8e6c86cu64 ^ 0x6fe2e5aaf078ebc9u64 ^ 0x14f994a4c5259381u64 ^ da ^ 8u64,
        0xb480a793d8e6c86cu64 ^ 0x6fe2e5aaf078ebc9u64 ^ 0x14f994a4c5259381u64 ^ db ^ 8u64,
    );
    assert(da == db) by (bit_vector)
        requires
            0xb480a793d8e6c86cu64 ^ 0x6fe2e5aaf078ebc9u64 ^ 0x14f994a4c5259381u64 ^ da ^ 8u64
                == 0xb480a793d8e6c86cu64 ^ 0x6fe2e5aaf078ebc9u64 ^ 0x14f994a4c5259381u64 ^ db ^ 8u64;
    lemma_diffuse_injective(0x16f11fe89b0d677cu64 ^ a, 0x16f11fe89b0d677cu64 ^ b);
    assert(a == b) by (bit_vector)
        requires
            0x16f11fe89b0d677cu64 ^ a == 0x16f11fe89b0d677cu64 ^ b;
}

/// Two hashes that select the same bucket at each of the first sixteen
/// levels are equal.
pub proof fn lemma_slots_determine_hash(h1: u64, h2: u64)
    requires
        forall|j: nat| j < 16 ==> slot_of(h1, j) == slot_of(h2, j),
    ensures
        h1 == h2,
{
    assert(slot_of(h1, 0) == slot_of(h2, 0));
    assert(slot_of(h1, 1) == slot_of(h2, 1));
    assert(slot_of(h1, 2) == slot_of(h2, 2));
    assert(slot_of(h1, 3) == slot_of(h2, 3));
    assert(slot_of(h1, 4) == slot_of(h2, 4));
    assert(slot_of(h1, 5) == slot_of(h2, 5));
    assert(slot_of(h1, 6) == slot_of(h2, 6));
    assert(slot_of(h1, 7) == slot_of(h2, 7));
    assert(slot_of(h1, 8) == slot_of(h2, 8));
    assert(slot_of(h1, 9) == slot_of(h2, 9));
    assert(slot_of(h1, 10) == slot_of(h2, 10));
    assert(slot_of(h1, 11) == slot_of(h2, 11));
    assert(slot_of(h1, 12) == slot_of(h2, 12));
    assert(slot_of(h1, 13) == slot_of(h2, 13));
    assert(slot_of(h1, 14) == slot_of(h2, 14));
    assert(slot_of(h1, 15) == slot_of(h2, 15));
    assert(h1 == h2) by (bit_vector)
        requires
            (h1 >> 0u64) & 15u64 == (h2 >> 0u64) & 15u64,
            (h1 >> 4u64) & 15u64 == (h2 >> 4u64) & 15u64,
            (h1 >> 8u64) & 15u64 == (h2 >> 8u64) & 15u64,
            (h1 >> 12u64) & 15u64 == (h2 >> 12u64) & 15u64,
            (h1 >> 16u64) & 15u64 == (h2 >> 16u64) & 15u64,
            (h1 >> 20u64) & 15u64 == (h2 >> 20u64) & 15u64,
            (h1 >> 24u64) & 15u64 == (h2 >> 24u64) & 15u64,
            (h1 >> 28u64) & 15u64 == (h2 >> 28u64) & 15u64,
            (h1 >> 32u64) & 15u64 == (h2 >> 32u64) & 15u64,
            (h1 >> 36u64) & 15u64 == (h2 >> 36u64) & 15u64,
            (h1 >> 40u64) & 15u64 == (h2 >> 40u64) & 15u64,
            (h1 >> 44u64) & 15u64 == (h2 >> 44u64) & 15u64,
            (h1 >> 48u64) & 15u64 == (h2 >> 48u64) & 15u64,
            (h1 >> 52u64) & 15u64 == (h2 >> 52u64) & 15u64,
            (h1 >> 56u64) & 15u64 == (h2 >> 56u64) & 15u64,
            (h1 >> 60u64) & 15u64 == (h2 >> 60u64) & 15u64,
;
}

} // verus!
