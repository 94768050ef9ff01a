use vstd::prelude::*;
use vstd::arithmetic::div_mod::{lemma_mul_mod_noop_left, lemma_mod_multiples_vanish, lemma_small_mod};

verus! {

/// `a * b` modulo 2^32.
pub open spec fn mul_wrap(a: u32, b: u32) -> u32 {
    ((a as nat * b as nat) % 0x1_0000_0000) as u32
}

/// The 32-bit hash of a lattice point `(x, z)` under `seed`: the three
/// coordinates multiplied by odd constants and xor-ed, then mixed by
/// xor-shifts and multiplications.
pub open spec fn spec_hash2_mix(x: i32, z: i32, seed: u32) -> u32 {
    let h0 = mul_wrap(x as u32, 0x27d4eb2f) ^ mul_wrap(z as u32, 0x165667b1) ^ mul_wrap(
        seed,
        0x85ebca6b,
    );
    let h1 = h0 ^ (h0 >> 15u32);
    let h2 = mul_wrap(h1, 0x2c1b3c6d);
    let h3 = h2 ^ (h2 >> 12u32);
    let h4 = mul_wrap(h3, 0x297a2d39);
    h4 ^ (h4 >> 15u32)
}

/// Multiplying by `k` modulo 2^32 is undone by multiplying by `inv`, where
/// `k * inv == 1 + t * 2^32`.
proof fn lemma_mul_wrap_undo(a: u32, k: u32, inv: u32, t: int)
    requires
        k as int * inv as int == 1 + t * 0x1_0000_0000,
        0 <= t,
    ensures
        mul_wrap(mul_wrap(a, k), inv) == a,
{
    let m: int = 0x1_0000_0000;
    let p = a as int * k as int;
    lemma_mul_mod_noop_left(p, inv as int, m);
    assert(p * inv == a * (k as int * inv as int)) by (nonlinear_arith)
        requires p == a as int * k as int;
    assert(a * (k as int * inv as int) == m * (a * t) + a) by (nonlinear_arith)
        requires k as int * inv as int == 1 + t * m;
    lemma_mod_multiples_vanish(a * t, a as int, m);
    lemma_small_mod(a as nat, m as nat);
}

/// The mixing that follows the first stage of the hash.
proof fn lemma_mix_undo(h: u32)
    ensures
        ({
            let h1 = h ^ (h >> 15u32);
            let h2 = mul_wrap(h1, 0x2c1b3c6d);
            let h3 = h2 ^ (h2 >> 12u32);
            let h4 = mul_wrap(h3, 0x297a2d39);
            let h5 = h4 ^ (h4 >> 15u32);
            let g4 = h5 ^ (h5 >> 15u32) ^ (h5 >> 30u32);
            let g3 = mul_wrap(g4, 0x0cf0b109);
            let g2 = g3 ^ (g3 >> 12u32) ^ (g3 >> 24u32);
            let g1 = mul_wrap(g2, 0x64ea2d65);
            g1 ^ (g1 >> 15u32) ^ (g1 >> 30u32) == h
        }),
{
    let h1 = h ^ (h >> 15u32);
    let h2 = mul_wrap(h1, 0x2c1b3c6d);
    let h3 = h2 ^ (h2 >> 12u32);
    let h4 = mul_wrap(h3, 0x297a2d39);
    let h5 = h4 ^ (h4 >> 15u32);
    assert(h5 ^ (h5 >> 15u32) ^ (h5 >> 30u32) == h4) by (bit_vector)
        requires h5 == h4 ^ (h4 >> 15u32);
    lemma_mul_wrap_undo(h3, 0x297a2d39, 0x0cf0b109, 35174744);
    assert(h3 ^ (h3 >> 12u32) ^ (h3 >> 24u32) == h2) by (bit_vector)
        requires h3 == h2 ^ (h2 >> 12u32);
    lemma_mul_wrap_undo(h1, 0x2c1b3c6d, 0x64ea2d65, 291699794);
    assert(h1 ^ (h1 >> 15u32) ^ (h1 >> 30u32) == h) by (bit_vector)
        requires h1 == h ^ (h >> 15u32);
}

/// The hash of `(x, z)` under `seed`, before mixing.
spec fn first_stage(x: i32, z: i32, seed: u32) -> u32 {
    mul_wrap(x as u32, 0x27d4eb2f) ^ mul_wrap(z as u32, 0x165667b1) ^ mul_wrap(seed, 0x85ebca6b)
}

proof fn lemma_first_stage_undo(x1: i32, z1: i32, s1: u32, x2: i32, z2: i32, s2: u32)
    requires
        (x1 == x2 && z1 == z2) || (x1 == x2 && s1 == s2) || (z1 == z2 && s1 == s2),
        first_stage(x1, z1, s1) == first_stage(x2, z2, s2),
    ensures
        x1 == x2 && z1 == z2 && s1 == s2,
{
    let a1 = mul_wrap(x1 as u32, 0x27d4eb2f);
    let b1 = mul_wrap(z1 as u32, 0x165667b1);
    let c1 = mul_wrap(s1, 0x85ebca6b);
    let a2 = mul_wrap(x2 as u32, 0x27d4eb2f);
    let b2 = mul_wrap(z2 as u32, 0x165667b1);
    let c2 = mul_wrap(s2, 0x85ebca6b);
    assert(a1 ^ b1 ^ c1 == a2 ^ b2 ^ c2);
    assert((a1 == a2 && b1 == b2) ==> c1 == c2) by (bit_vector)
        requires a1 ^ b1 ^ c1 == a2 ^ b2 ^ c2;
    assert((a1 == a2 && c1 == c2) ==> b1 == b2) by (bit_vector)
        requires a1 ^ b1 ^ c1 == a2 ^ b2 ^ c2;
    assert((b1 == b2 && c1 == c2) ==> a1 == a2) by (bit_vector)
        requires a1 ^ b1 ^ c1 == a2 ^ b2 ^ c2;
    lemma_mul_wrap_undo(x1 as u32, 0x27d4eb2f, 0xa0fe3bcf, 420258189);
    lemma_mul_wrap_undo(x2 as u32, 0x27d4eb2f, 0xa0fe3bcf, 420258189);
    lemma_mul_wrap_undo(z1 as u32, 0x165667b1, 0xae398151, 255049472);
    lemma_mul_wrap_undo(z2 as u32, 0x165667b1, 0xae398151, 255049472);
    lemma_mul_wrap_undo(s1, 0x85ebca6b, 0xa5cb9243, 1455126516);
    lemma_mul_wrap_undo(s2, 0x85ebca6b, 0xa5cb9243, 1455126516);
    assert((x1 as u32 == x2 as u32) ==> x1 == x2) by (bit_vector);
    assert((z1 as u32 == z2 as u32) ==> z1 == z2) by (bit_vector);
}

/// Distinct lattice points along a line get distinct hash bits: two calls
/// whose inputs agree in all but one of `x`, `z` and `seed` return the same
/// pair of halves only when they agree in that one too. In particular the
/// hash tells `z` from `-z`, and `x` from `-x`.
pub proof fn lemma_hash2_separates(x1: i32, z1: i32, s1: u32, x2: i32, z2: i32, s2: u32)
    requires
        (x1 == x2 && z1 == z2) || (x1 == x2 && s1 == s2) || (z1 == z2 && s1 == s2),
        spec_hash2_mix(x1, z1, s1) & 0xFFFFu32 == spec_hash2_mix(x2, z2, s2) & 0xFFFFu32,
        (spec_hash2_mix(x1, z1, s1) >> 16u32) & 0xFFFFu32 == (spec_hash2_mix(x2, z2, s2) >> 16u32)
            & 0xFFFFu32,
    ensures
        x1 == x2 && z1 == z2 && s1 == s2,
{
    let h = spec_hash2_mix(x1, z1, s1);
    let g = spec_hash2_mix(x2, z2, s2);
    assert(h == g) by (bit_vector)
        requires
            h & 0xFFFFu32 == g & 0xFFFFu32,
            (h >> 16u32) & 0xFFFFu32 == (g >> 16u32) & 0xFFFFu32;
    lemma_mix_undo(first_stage(x1, z1, s1));
    lemma_mix_undo(first_stage(x2, z2, s2));
    lemma_first_stage_undo(x1, z1, s1, x2, z2, s2);
}

/// The lattice hash is not symmetric about either axis: a point and its
/// mirror image across `z = 0` (or across `x = 0`) hash differently.
pub proof fn lemma_hash2_not_mirrored(x: i32, z: i32, seed: u32)
    requires
        x != 0 && x != i32::MIN,
        z != 0 && z != i32::MIN,
    ensures
        spec_hash2_mix(x, z, seed) != spec_hash2_mix(x, (-z) as i32, seed),
        spec_hash2_mix(x, z, seed) != spec_hash2_mix((-x) as i32, z, seed),
{
    if spec_hash2_mix(x, z, seed) == spec_hash2_mix(x, (-z) as i32, seed) {
        lemma_hash2_separates(x, z, seed, x, (-z) as i32, seed);
    }
    if spec_hash2_mix(x, z, seed) == spec_hash2_mix((-x) as i32, z, seed) {
        lemma_hash2_separates(x, z, seed, (-x) as i32, z, seed);
    }
}

/// The two 16-bit halves of the lattice hash of `(x, z)`: the low half and
/// the high half, each below 65536.
pub fn hash2_bits(x: i32, z: i32, seed: u32) -> (bits: (u32, u32))
    ensures
        bits.0 == spec_hash2_mix(x, z, seed) & 0xFFFFu32,
        bits.1 == (spec_hash2_mix(x, z, seed) >> 16u32) & 0xFFFFu32,
        bits.0 < 65536,
        bits.1 < 65536,
{
    let mut h = (x as u32).wrapping_mul(0x27d4eb2f) ^ (z as u32).wrapping_mul(0x165667b1)
        ^ seed.wrapping_mul(0x85ebca6b);
    h ^= h >> 15;
    h = h.wrapping_mul(0x2c1b3c6d);
    h ^= h >> 12;
    h = h.wrapping_mul(0x297a2d39);
    h ^= h >> 15;
    let low = h & 0xFFFF;
    let high = (h >> 16) & 0xFFFF;
    assert(low < 65536) by (bit_vector)
        requires low == h & 0xFFFFu32;
    assert(high < 65536) by (bit_vector)
        requires high == (h >> 16u32) & 0xFFFFu32;
    (low, high)
}

} // verus!
