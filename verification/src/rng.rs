//! Counter-based random numbers, shared between the samplers.
//!
//! Uses the `pcg4d` hash from Jarzynski & Olano, "Hash Functions for GPU
//! Rendering" (JCGT 2020). Every random draw is a pure function of
//! `(seed, step, chain, node)`, so parallel updates need no shared state
//! and results are reproducible for a fixed seed.
//!
//! The `step` coordinate counts block updates from 0 during sampling.
//! The values at the top of the range are reserved for other draws, so
//! that they never collide with the sampling stream:
//!
//! - [`STEP_RANDOM_INIT`] for [`State::random`](crate::State::random),
//! - [`STEP_HINTON_INIT`] for Hinton initialization.
//!
//! A draw is an integer below 2^24: the numerator of a multiple of 2^-24
//! in `[0, 1)`, which is exactly what a single-precision number can hold.

use vstd::arithmetic::power2::{lemma_pow2_unfold, pow2};
use vstd::prelude::*;

verus! {

/// The step reserved for uniformly random state initialization.
pub const STEP_RANDOM_INIT: u32 = 0xFFFF_FFFF;

/// The step reserved for bias-based (Hinton) state initialization.
pub const STEP_HINTON_INIT: u32 = 0xFFFF_FFFE;

/// Number of distinct values of a uniform draw.
pub const UNIFORM_RANGE: u32 = 0x100_0000;

/// The linear congruential step applied to each coordinate.
pub open spec fn lcg(x: u32) -> u32 {
    x.wrapping_mul(1664525).wrapping_add(1013904223)
}

/// `x + y * z` modulo 2^32.
pub open spec fn mul_add(x: u32, y: u32, z: u32) -> u32 {
    x.wrapping_add(y.wrapping_mul(z))
}

/// One round of mixing: every coordinate in turn absorbs the product of two others.
pub open spec fn mix_round(v: (u32, u32, u32, u32)) -> (u32, u32, u32, u32) {
    let a = mul_add(v.0, v.1, v.3);
    let b = mul_add(v.1, v.2, a);
    let c = mul_add(v.2, a, b);
    let d = mul_add(v.3, b, c);
    (a, b, c, d)
}

/// Folds the high half of a word into its low half.
pub open spec fn fold_high(x: u32) -> u32 {
    x ^ (x >> 16)
}

/// The `pcg4d` hash of four coordinates.
pub open spec fn pcg4d_hash(v: (u32, u32, u32, u32)) -> (u32, u32, u32, u32) {
    let m = mix_round((lcg(v.0), lcg(v.1), lcg(v.2), lcg(v.3)));
    mix_round((fold_high(m.0), fold_high(m.1), fold_high(m.2), fold_high(m.3)))
}

/// The draw at the given counter coordinates: the top 24 bits of the first hash word.
pub open spec fn uniform_draw(seed: u32, step: u32, chain: u32, node: u32) -> u32 {
    pcg4d_hash((seed, step, chain, node)).0 >> 8
}

/// The 4D hash underlying all random draws of the samplers.
pub fn pcg4d(v: [u32; 4]) -> (r: [u32; 4])
    ensures
        (r[0], r[1], r[2], r[3]) == pcg4d_hash((v[0], v[1], v[2], v[3])),
{
    let x0: u32 = v[0].wrapping_mul(1664525).wrapping_add(1013904223);
    let x1: u32 = v[1].wrapping_mul(1664525).wrapping_add(1013904223);
    let x2: u32 = v[2].wrapping_mul(1664525).wrapping_add(1013904223);
    let x3: u32 = v[3].wrapping_mul(1664525).wrapping_add(1013904223);
    let y0: u32 = x0.wrapping_add(x1.wrapping_mul(x3));
    let y1: u32 = x1.wrapping_add(x2.wrapping_mul(y0));
    let y2: u32 = x2.wrapping_add(y0.wrapping_mul(y1));
    let y3: u32 = x3.wrapping_add(y1.wrapping_mul(y2));
    let z0: u32 = y0 ^ (y0 >> 16);
    let z1: u32 = y1 ^ (y1 >> 16);
    let z2: u32 = y2 ^ (y2 >> 16);
    let z3: u32 = y3 ^ (y3 >> 16);
    let w0: u32 = z0.wrapping_add(z1.wrapping_mul(z3));
    let w1: u32 = z1.wrapping_add(z2.wrapping_mul(w0));
    let w2: u32 = z2.wrapping_add(w0.wrapping_mul(w1));
    let w3: u32 = z3.wrapping_add(w1.wrapping_mul(w2));
    [w0, w1, w2, w3]
}

/// A uniform draw in `[0, 1)` for the given counter coordinates,
/// as the numerator of a multiple of 2^-24.
pub fn uniform(seed: u32, step: u32, chain: u32, node: u32) -> (r: u32)
    ensures
        r == uniform_draw(seed, step, chain, node),
        r as int == pcg4d_hash((seed, step, chain, node)).0 as int / 256,
        r < UNIFORM_RANGE,
{
    let hash = pcg4d([seed, step, chain, node]);
    let first: u32 = hash[0];
    assert(first >> 8 < 0x100_0000 && first >> 8 == first / 256) by (bit_vector);
    first >> 8
}

/// The hash in plain arithmetic modulo 2^32: every coordinate goes through
/// the linear congruential step, then through a round in which each in turn
/// absorbs the product of two others, then has its high half folded into its
/// low half, and goes through a second such round.
pub proof fn pcg4d_is_arithmetic_modulo_a_word(seed: u32, step: u32, chain: u32, node: u32)
    ensures
        ({
            let word = 0x1_0000_0000int;
            let x0 = (seed * 1664525 + 1013904223) % word;
            let x1 = (step * 1664525 + 1013904223) % word;
            let x2 = (chain * 1664525 + 1013904223) % word;
            let x3 = (node * 1664525 + 1013904223) % word;
            let y0 = (x0 + x1 * x3) % word;
            let y1 = (x1 + x2 * y0) % word;
            let y2 = (x2 + y0 * y1) % word;
            let y3 = (x3 + y1 * y2) % word;
            let z0 = y0 as u32 ^ (y0 as u32 >> 16);
            let z1 = y1 as u32 ^ (y1 as u32 >> 16);
            let z2 = y2 as u32 ^ (y2 as u32 >> 16);
            let z3 = y3 as u32 ^ (y3 as u32 >> 16);
            let w0 = (z0 + z1 * z3) % word;
            let w1 = (z1 + z2 * w0) % word;
            let w2 = (z2 + w0 * w1) % word;
            let w3 = (z3 + w1 * w2) % word;
            pcg4d_hash((seed, step, chain, node)) == (w0 as u32, w1 as u32, w2 as u32, w3 as u32)
        }),
{
    let word = 0x1_0000_0000int;
    lemma_lcg_modulo(seed);
    lemma_lcg_modulo(step);
    lemma_lcg_modulo(chain);
    lemma_lcg_modulo(node);
    let x = (lcg(seed), lcg(step), lcg(chain), lcg(node));
    lemma_round_modulo(x);
    let y = mix_round(x);
    lemma_round_modulo((fold_high(y.0), fold_high(y.1), fold_high(y.2), fold_high(y.3)));
}

proof fn lemma_lcg_modulo(x: u32)
    ensures
        lcg(x) as int == (x * 1664525 + 1013904223) % 0x1_0000_0000,
{
    vstd::arithmetic::div_mod::lemma_add_mod_noop(x * 1664525, 1013904223, 0x1_0000_0000);
}

proof fn lemma_mul_add_modulo(x: u32, y: u32, z: u32)
    ensures
        mul_add(x, y, z) as int == (x + y * z) % 0x1_0000_0000,
{
    vstd::arithmetic::div_mod::lemma_add_mod_noop(x as int, y * z, 0x1_0000_0000);
}

proof fn lemma_round_modulo(v: (u32, u32, u32, u32))
    ensures
        ({
            let m = mix_round(v);
            &&& m.0 as int == (v.0 + v.1 * v.3) % 0x1_0000_0000
            &&& m.1 as int == (v.1 + v.2 * m.0) % 0x1_0000_0000
            &&& m.2 as int == (v.2 + m.0 * m.1) % 0x1_0000_0000
            &&& m.3 as int == (v.3 + m.1 * m.2) % 0x1_0000_0000
        }),
{
    let m = mix_round(v);
    lemma_mul_add_modulo(v.0, v.1, v.3);
    lemma_mul_add_modulo(v.1, v.2, m.0);
    lemma_mul_add_modulo(v.2, m.0, m.1);
    lemma_mul_add_modulo(v.3, m.1, m.2);
}

proof fn lemma_lcg_injective(x: u32, y: u32)
    requires
        lcg(x) == lcg(y),
    ensures
        x == y,
{
    let p = x.wrapping_mul(1664525);
    let q = y.wrapping_mul(1664525);
    assert(p == q);
    lemma_odd_factor(x as int);
    lemma_odd_factor(y as int);
}

/// Multiplying by the modular inverse undoes the multiplication.
proof fn lemma_odd_factor(x: int)
    requires
        0 <= x < 0x1_0000_0000,
    ensures
        ((x * 1664525) % 0x1_0000_0000 * 4276115653) % 0x1_0000_0000 == x,
{
    let m = 0x1_0000_0000int;
    vstd::arithmetic::div_mod::lemma_mul_mod_noop_left(x * 1664525, 4276115653, m);
    assert((x * 1664525) * 4276115653 == m * (x * 1657219) + x);
    vstd::arithmetic::div_mod::lemma_mod_multiples_vanish(x * 1657219, x, m);
    vstd::arithmetic::div_mod::lemma_small_mod(x as nat, m as nat);
}

proof fn lemma_fold_injective(x: u32, y: u32)
    by (bit_vector)
    requires
        x ^ (x >> 16) == y ^ (y >> 16),
    ensures
        x == y,
{
}

proof fn lemma_mix_injective(v: (u32, u32, u32, u32), w: (u32, u32, u32, u32))
    requires
        mix_round(v) == mix_round(w),
    ensures
        v == w,
{
    let m = mix_round(v);
    assert(v.3 == w.3) by {
        assert(mul_add(v.3, m.1, m.2) == mul_add(w.3, m.1, m.2));
    }
    assert(v.2 == w.2) by {
        assert(mul_add(v.2, m.0, m.1) == mul_add(w.2, m.0, m.1));
    }
    assert(v.1 == w.1) by {
        assert(mul_add(v.1, v.2, m.0) == mul_add(w.1, w.2, m.0));
    }
    assert(v.0 == w.0) by {
        assert(mul_add(v.0, v.1, v.3) == mul_add(w.0, w.1, w.3));
    }
}

/// The hash is one-to-one: draws at different `(seed, step, chain, node)`
/// coordinates never read the same hash.
pub proof fn hashes_do_not_collide(v: (u32, u32, u32, u32), w: (u32, u32, u32, u32))
    requires
        v != w,
    ensures
        pcg4d_hash(v) != pcg4d_hash(w),
{
    if pcg4d_hash(v) == pcg4d_hash(w) {
        let m = mix_round((lcg(v.0), lcg(v.1), lcg(v.2), lcg(v.3)));
        let n = mix_round((lcg(w.0), lcg(w.1), lcg(w.2), lcg(w.3)));
        lemma_mix_injective(
            (fold_high(m.0), fold_high(m.1), fold_high(m.2), fold_high(m.3)),
            (fold_high(n.0), fold_high(n.1), fold_high(n.2), fold_high(n.3)),
        );
        lemma_fold_injective(m.0, n.0);
        lemma_fold_injective(m.1, n.1);
        lemma_fold_injective(m.2, n.2);
        lemma_fold_injective(m.3, n.3);
        lemma_mix_injective(
            (lcg(v.0), lcg(v.1), lcg(v.2), lcg(v.3)),
            (lcg(w.0), lcg(w.1), lcg(w.2), lcg(w.3)),
        );
        lemma_lcg_injective(v.0, w.0);
        lemma_lcg_injective(v.1, w.1);
        lemma_lcg_injective(v.2, w.2);
        lemma_lcg_injective(v.3, w.3);
    }
}

/// A draw is the top 24 bits of the first hash word of its own four
/// coordinates: draws that differ in the seed, the step, the chain or the
/// node are read off different hashes.
pub proof fn draws_read_their_own_hash(
    seed: u32,
    step: u32,
    chain: u32,
    node: u32,
    other: (u32, u32, u32, u32),
)
    requires
        other != (seed, step, chain, node),
    ensures
        uniform_draw(seed, step, chain, node) as int == pcg4d_hash((seed, step, chain, node)).0
            as int / 256,
        uniform_draw(other.0, other.1, other.2, other.3) as int == pcg4d_hash(other).0 as int / 256,
        pcg4d_hash((seed, step, chain, node)) != pcg4d_hash(other),
{
    hashes_do_not_collide((seed, step, chain, node), other);
    let a = pcg4d_hash((seed, step, chain, node)).0;
    let b = pcg4d_hash(other).0;
    assert(a >> 8 == a / 256 && b >> 8 == b / 256) by (bit_vector);
}

/// Whether the draw falls below a probability given as the least numerator
/// over 2^24 that is not below it.
///
/// A probability `p` is held as `ceil(p * 2^24)`: the draw `n * 2^-24` is
/// below `p` exactly when `n` is below that number.
pub fn below(draw: u32, threshold: u32) -> (r: u32)
    ensures
        r == spin_from_draw(draw, threshold),
        draw < threshold ==> r == 1,
        draw >= threshold ==> r == 0,
{
    if draw < threshold {
        1
    } else {
        0
    }
}

/// The spin value that a draw selects when up has the given probability threshold.
pub open spec fn spin_from_draw(draw: u32, threshold: u32) -> u32 {
    if draw < threshold {
        1
    } else {
        0
    }
}

/// How often `p` has to be halved to fit in 24 bits.
pub open spec fn excess_bits(p: nat) -> nat
    decreases p,
{
    if p < UNIFORM_RANGE {
        0
    } else {
        1 + excess_bits(p / 2)
    }
}

/// `p` rounded to 24 significant bits, ties to even: the value of `p` as a
/// single-precision number.
pub open spec fn round_to_single(p: nat) -> nat {
    let unit = pow2(excess_bits(p));
    let quotient = p / unit;
    let rest = p % unit;
    if 2 * rest < unit || (2 * rest == unit && quotient % 2 == 0) {
        quotient * unit
    } else {
        (quotient + 1) * unit
    }
}

/// The integer part of `draw * 2^-24 * count`, computed in single precision.
pub open spec fn scaled_draw(draw: u32, count: u32) -> nat {
    round_to_single(draw as nat * round_to_single(count as nat)) / UNIFORM_RANGE as nat
}

/// Bounds of the rounding unit of `p` and of the rounded value.
proof fn lemma_round_to_single(p: nat)
    ensures
        pow2(excess_bits(p)) > 0,
        p < 0x100_0000 * pow2(excess_bits(p)),
        p >= UNIFORM_RANGE ==> excess_bits(p) >= 1 && p >= 0x80_0000 * pow2(excess_bits(p)),
        p < UNIFORM_RANGE ==> round_to_single(p) == p,
        round_to_single(p) % pow2(excess_bits(p)) == 0,
        2 * round_to_single(p) <= 2 * p + pow2(excess_bits(p)),
        2 * p <= 2 * round_to_single(p) + pow2(excess_bits(p)),
        round_to_single(p) <= 0x100_0000 * pow2(excess_bits(p)),
        p >= UNIFORM_RANGE ==> round_to_single(p) >= 0x80_0000 * pow2(excess_bits(p)),
{
    lemma_unit_bounds(p);
    let unit = pow2(excess_bits(p));
    let quotient = p / unit;
    let rest = p % unit;
    assert(p == quotient * unit + rest && 0 <= rest < unit) by (nonlinear_arith)
        requires
            unit > 0,
            quotient == p / unit,
            rest == p % unit,
    ;
    assert(quotient < 0x100_0000) by (nonlinear_arith)
        requires
            p == quotient * unit + rest,
            p < 0x100_0000 * unit,
            unit > 0,
            rest >= 0,
    ;
    if p < UNIFORM_RANGE {
        vstd::arithmetic::power2::lemma2_to64();
        assert(unit == 1);
    } else {
        assert(quotient >= 0x80_0000) by (nonlinear_arith)
            requires
                p == quotient * unit + rest,
                p >= 0x80_0000 * unit,
                unit > 0,
                rest < unit,
        ;
    }
    assert((quotient + 1) * unit == quotient * unit + unit) by (nonlinear_arith);
    assert((quotient + 1) * unit <= 0x100_0000 * unit) by (nonlinear_arith)
        requires
            quotient < 0x100_0000,
    ;
    if p >= UNIFORM_RANGE {
        assert(quotient * unit >= 0x80_0000 * unit) by (nonlinear_arith)
            requires
                quotient >= 0x80_0000,
        ;
    }
    vstd::arithmetic::div_mod::lemma_mod_multiples_basic(quotient as int, unit as int);
    vstd::arithmetic::div_mod::lemma_mod_multiples_basic((quotient + 1) as int, unit as int);
}

proof fn lemma_unit_bounds(p: nat)
    ensures
        pow2(excess_bits(p)) > 0,
        p < 0x100_0000 * pow2(excess_bits(p)),
        p >= UNIFORM_RANGE ==> excess_bits(p) >= 1 && p >= 0x80_0000 * pow2(excess_bits(p)),
    decreases p,
{
    vstd::arithmetic::power2::lemma2_to64();
    if p >= UNIFORM_RANGE {
        lemma_unit_bounds(p / 2);
        lemma_pow2_unfold(excess_bits(p));
    }
}

/// Rounding picks a nearest number of 24 significant bits: the result is
/// such a number, no other one is nearer, and of two equally near ones it is
/// the even multiple of the spacing between them.
pub proof fn rounding_is_to_the_nearest(p: nat, m: nat, e: nat)
    requires
        m < 0x100_0000,
    ensures
        ({
            let r = round_to_single(p) as int;
            let q = m * pow2(e);
            let near = if r < p { p - r } else { r - p };
            let far = if q < p { p - q } else { q - p };
            &&& near <= far
            &&& near == far && q != r ==> exists|k: int| #[trigger] (k * (q - r)) == r && k % 2 == 0
        }),
        exists|a: nat, b: nat| a <= 0x100_0000 && round_to_single(p) == #[trigger] (a * pow2(b)),
{
    lemma_unit_bounds(p);
    let x = excess_bits(p);
    let unit = pow2(x);
    let quotient = p / unit;
    let rest = p % unit;
    let r = round_to_single(p);
    let q = m * pow2(e);
    vstd::arithmetic::div_mod::lemma_fundamental_div_mod(p as int, unit as int);
    assert(p == quotient * unit + rest && 0 <= rest < unit) by (nonlinear_arith)
        requires
            p == unit * quotient + rest,
            unit > 0,
            rest == p % unit,
    ;
    assert((quotient + 1) * unit == quotient * unit + unit) by (nonlinear_arith);
    assert(quotient < 0x100_0000) by (nonlinear_arith)
        requires
            p == quotient * unit + rest,
            p < 0x100_0000 * unit,
            unit > 0,
            rest >= 0,
    ;
    let near = if r < p { p - r } else { r - p };
    let far = if q < p { p - q } else { q - p };
    assert(2 * near <= unit);
    if e >= x {
        // A multiple of the unit.
        vstd::arithmetic::power2::lemma_pow2_adds(x, (e - x) as nat);
        let j = m * pow2((e - x) as nat);
        assert(q == j * unit) by (nonlinear_arith)
            requires
                q == m * pow2(e),
                pow2(e) == unit * pow2((e - x) as nat),
                j == m * pow2((e - x) as nat),
        ;
        lemma_multiple_not_nearer(p, unit, j);
        if near == far && q != r {
            if r == quotient * unit {
                assert(q == (quotient + 1) * unit);
                assert(quotient * (q - r) == r) by (nonlinear_arith)
                    requires
                        q - r == unit,
                        r == quotient * unit,
                ;
            } else {
                assert(q == quotient * unit);
                assert((-(quotient + 1)) * (q - r) == r) by (nonlinear_arith)
                    requires
                        q - r == -unit,
                        r == (quotient + 1) * unit,
                ;
            }
        }
    } else {
        // Below everything that has the spacing of `p`.
        vstd::arithmetic::power2::lemma_pow2_pos(e);
        lemma_pow2_unfold(x);
        if e < x - 1 {
            vstd::arithmetic::power2::lemma_pow2_strictly_increases(e, (x - 1) as nat);
        }
        assert(p >= UNIFORM_RANGE) by {
            vstd::arithmetic::power2::lemma2_to64();
        }
        assert(q < 0x80_0000 * unit) by (nonlinear_arith)
            requires
                q == m * pow2(e),
                m < 0x100_0000,
                2 * pow2(e) <= unit,
                pow2(e) > 0,
        ;
        lemma_multiple_not_nearer(p, unit, 0x80_0000);
    }
    if r == quotient * unit {
        assert(round_to_single(p) == quotient * pow2(x));
    } else {
        assert(round_to_single(p) == (quotient + 1) * pow2(x));
    }
}

/// No multiple of the rounding unit is nearer than the rounded value, and
/// one that is as near is a neighbour of it, an odd one.
proof fn lemma_multiple_not_nearer(p: nat, unit: nat, j: nat)
    requires
        unit == pow2(excess_bits(p)),
        unit > 0,
    ensures
        ({
            let r = round_to_single(p) as int;
            let q = j * unit;
            let quotient = p / unit;
            let near = if r < p { p - r } else { r - p };
            let far = if q < p { p - q } else { q - p };
            &&& near <= far
            &&& near == far && q != r ==> (r == quotient * unit && q == (quotient + 1) * unit
                && quotient % 2 == 0) || (r == (quotient + 1) * unit && q == quotient * unit
                && quotient % 2 == 1)
        }),
{
    let quotient = p / unit;
    let rest = p % unit;
    let q = j * unit;
    assert(p == quotient * unit + rest && 0 <= rest < unit) by (nonlinear_arith)
        requires
            unit > 0,
            quotient == p / unit,
            rest == p % unit,
    ;
    assert((quotient + 1) * unit == quotient * unit + unit) by (nonlinear_arith);
    if j < quotient {
        assert(q + unit <= quotient * unit) by (nonlinear_arith)
            requires
                q == j * unit,
                j + 1 <= quotient,
        ;
    } else if j > quotient + 1 {
        assert(q >= (quotient + 1) * unit + unit) by (nonlinear_arith)
            requires
                q == j * unit,
                j >= quotient + 2,
        ;
    }
}

/// Rounding keeps the order.
proof fn lemma_rounding_is_monotone(p: nat, q: nat)
    requires
        p <= q,
    ensures
        round_to_single(p) <= round_to_single(q),
{
    let r = round_to_single(p);
    let s = round_to_single(q);
    if r > s {
        lemma_rounded_is_representable(p);
        lemma_rounded_is_representable(q);
        let (a, b) = choose|a: nat, b: nat|
            a < 0x100_0000 && round_to_single(p) == #[trigger] (a * pow2(b));
        let (c, d) = choose|a: nat, b: nat|
            a < 0x100_0000 && round_to_single(q) == #[trigger] (a * pow2(b));
        rounding_is_to_the_nearest(p, c, d);
        rounding_is_to_the_nearest(q, a, b);
    }
}

proof fn lemma_rounded_is_representable(p: nat)
    ensures
        exists|a: nat, b: nat| a < 0x100_0000 && round_to_single(p) == #[trigger] (a * pow2(b)),
{
    rounding_is_to_the_nearest(p, 0, 0);
    let (a, b) = choose|a: nat, b: nat|
        a <= 0x100_0000 && round_to_single(p) == #[trigger] (a * pow2(b));
    if a == 0x100_0000 {
        lemma_pow2_unfold(b + 1);
        assert(0x80_0000nat * pow2(b + 1) == a * pow2(b)) by (nonlinear_arith)
            requires
                pow2(b + 1) == 2 * pow2(b),
                a == 0x100_0000,
        ;
    }
}

/// A number of at most 24 significant bits is its own rounding.
proof fn lemma_exact(m: nat, e: nat)
    requires
        m < 0x100_0000,
    ensures
        round_to_single(m * pow2(e)) == m * pow2(e),
{
    rounding_is_to_the_nearest(m * pow2(e), m, e);
}

/// Rounding changes a number by at most the 2^24th part of it.
proof fn lemma_rounding_error(p: nat)
    ensures
        0x100_0000 * round_to_single(p) <= 0x100_0000 * p + p,
        0x100_0000 * p <= 0x100_0000 * round_to_single(p) + p,
{
    lemma_round_to_single(p);
}

/// A scaled draw is the integer part of `draw * count / 2^24` up to rounding:
/// the product lies between the bounds of the value that it is scaled to,
/// give or take the 2^24th part of what both roundings can add.
pub proof fn scaled_draws_divide_the_range_evenly(draw: u32, count: u32)
    requires
        draw < 0x100_0000,
    ensures
        scaled_draw(draw, count) * 0x100_0000 <= draw * count + 3 * count,
        draw * count <= (scaled_draw(draw, count) + 1) * 0x100_0000 + 3 * count,
        count < 0x100_0000 ==> scaled_draw(draw, count) * 0x100_0000 <= draw * count + count,
        count < 0x100_0000 ==> draw * count < (scaled_draw(draw, count) + 1) * 0x100_0000 + count,
        count <= 256 ==> scaled_draw(draw, count) * 0x100_0000 <= draw * count + 128,
        count <= 256 ==> draw * count < (scaled_draw(draw, count) + 1) * 0x100_0000 + 128,
{
    let k = round_to_single(count as nat);
    lemma_rounding_error(count as nat);
    lemma_round_to_single(count as nat);
    let p = draw as nat * k;
    let r = round_to_single(p);
    lemma_rounding_error(p);
    assert(k <= 2 * count);
    assert(p <= draw * count + count && draw * count <= p + count) by (nonlinear_arith)
        requires
            p == draw as nat * k,
            draw < 0x100_0000,
            0x100_0000 * k <= 0x100_0000 * count + count,
            0x100_0000 * count <= 0x100_0000 * k + count,
    ;
    assert(p <= 0x100_0000 * k) by (nonlinear_arith)
        requires
            p == draw as nat * k,
            draw < 0x100_0000,
    ;
    assert(r <= p + k && p <= r + k);
    if count < 0x100_0000 {
        assert(k == count);
        assert(p == draw * count);
        if draw > 0 && count > 0 {
            assert(p < 0x100_0000 * k) by (nonlinear_arith)
                requires
                    p == draw as nat * k,
                    draw < 0x100_0000,
                    k > 0,
            ;
        }
    }
    if count <= 256 {
        lemma_round_to_single(p);
        let unit = pow2(excess_bits(p));
        assert(p < 0x1_0000_0000) by (nonlinear_arith)
            requires
                p == draw * count,
                draw < 0x100_0000,
                count <= 256,
        ;
        if unit > 256 {
            assert(p >= 0x80_0000 * unit) by {
                vstd::arithmetic::power2::lemma2_to64();
            }
            let x = excess_bits(p);
            vstd::arithmetic::power2::lemma2_to64();
            if x <= 8 {
                if x < 8 {
                    vstd::arithmetic::power2::lemma_pow2_strictly_increases(x, 8);
                }
                assert(false);
            } else if x > 9 {
                vstd::arithmetic::power2::lemma_pow2_strictly_increases(9, x);
            }
            assert(unit >= 512);
            assert(false);
        }
    }
}

/// A larger draw is not scaled to a smaller value.
pub proof fn scaling_keeps_the_order(draw: u32, other: u32, count: u32)
    requires
        draw <= other,
    ensures
        scaled_draw(draw, count) <= scaled_draw(other, count),
{
    let k = round_to_single(count as nat);
    assert(draw as nat * k <= other as nat * k) by (nonlinear_arith)
        requires
            draw <= other,
    ;
    lemma_rounding_is_monotone(draw as nat * k, other as nat * k);
}

/// Nothing is rounded where the count is a power of two: the draw is then
/// scaled to exactly `draw * count / 2^24`.
pub proof fn scaling_by_a_power_of_two_is_exact(draw: u32, bits: nat)
    requires
        draw < 0x100_0000,
        bits < 32,
    ensures
        scaled_draw(draw, pow2(bits) as u32) as int == draw * pow2(bits) / 0x100_0000,
{
    vstd::arithmetic::power2::lemma2_to64();
    if bits < 31 {
        vstd::arithmetic::power2::lemma_pow2_strictly_increases(bits, 31);
    }
    assert(1 * pow2(bits) == pow2(bits));
    lemma_exact(1, bits);
    lemma_exact(draw as nat, bits);
}

/// Every value below the count is the scaled value of some draw, the first
/// of them that of the least draw `d` with `d * count >= value * 2^24`.
pub proof fn every_value_is_drawn(count: u32, value: u32) -> (draw: u32)
    requires
        count <= 0x80_0000,
        value < count,
    ensures
        draw < 0x100_0000,
        scaled_draw(draw, count) == value,
        value * 0x100_0000 <= draw * count < value * 0x100_0000 + count,
{
    let target = value * 0x100_0000;
    let d = (target + count - 1) / count as int;
    vstd::arithmetic::div_mod::lemma_fundamental_div_mod(target + count - 1, count as int);
    assert(target <= d * count < target + count) by (nonlinear_arith)
        requires
            target + count - 1 == count * d + (target + count - 1) % count as int,
            0 <= (target + count - 1) % (count as int) < count,
    ;
    assert(0 <= d < 0x100_0000) by (nonlinear_arith)
        requires
            target <= d * count < target + count,
            target == value * 0x100_0000,
            value < count,
            0 < count <= 0x80_0000,
    ;
    let draw = d as u32;
    lemma_round_to_single(count as nat);
    vstd::arithmetic::power2::lemma2_to64();
    lemma_exact(value as nat, 24);
    lemma_rounding_is_monotone(target as nat, draw as nat * count as nat);
    scaled_draws_divide_the_range_evenly(draw, count);
    lemma_rounding_error((draw * count) as nat);
    draw
}

/// A scaled draw stays below the count that it was scaled by.
pub proof fn scaled_draw_is_below_count(draw: u32, count: u32)
    requires
        draw < UNIFORM_RANGE,
        count > 0,
    ensures
        scaled_draw(draw, count) < count,
{
    let k = round_to_single(count as nat);
    let unit_k = pow2(excess_bits(count as nat));
    lemma_round_to_single(count as nat);
    let p = draw as nat * k;
    let r = round_to_single(p);
    let unit = pow2(excess_bits(p));
    lemma_round_to_single(p);
    assert(k > 0);
    assert(p <= 0x100_0000 * k - k) by (nonlinear_arith)
        requires
            p == draw as nat * k,
            draw < 0x100_0000,
    ;
    // Rounding never reaches the next multiple of the full range.
    assert(r < 0x100_0000 * k);
    if count >= UNIFORM_RANGE {
        let ek = excess_bits(count as nat);
        let ep = excess_bits(p);
        if ep >= ek + 24 {
            let extra = (ep - ek - 24) as nat;
            vstd::arithmetic::power2::lemma_pow2_adds(ek, 24);
            vstd::arithmetic::power2::lemma_pow2_adds(ek + 24, extra);
            vstd::arithmetic::power2::lemma2_to64();
            let wide = 0x100_0000 * unit_k;
            let m = pow2(extra);
            assert(unit == wide * m) by (nonlinear_arith)
                requires
                    unit == pow2(ek + 24) * m,
                    pow2(ek + 24) == unit_k * 0x100_0000,
                    wide == 0x100_0000 * unit_k,
            ;
            let a = r / unit;
            vstd::arithmetic::div_mod::lemma_fundamental_div_mod(r as int, unit as int);
            assert(r == wide * (m * a)) by (nonlinear_arith)
                requires
                    r == unit * a,
                    unit == wide * m,
            ;
            let c = k / unit_k;
            vstd::arithmetic::div_mod::lemma_fundamental_div_mod(k as int, unit_k as int);
            assert(0x100_0000 * k == wide * c) by (nonlinear_arith)
                requires
                    k == unit_k * c,
                    wide == 0x100_0000 * unit_k,
            ;
            assert(m * a < c) by (nonlinear_arith)
                requires
                    wide * (m * a) < wide * c,
                    wide > 0,
            ;
            assert(r <= wide * c - wide) by (nonlinear_arith)
                requires
                    r == wide * (m * a),
                    m * a < c,
                    wide > 0,
            ;
        } else {
            if ep < ek + 23 {
                vstd::arithmetic::power2::lemma_pow2_strictly_increases(ep, ek + 23);
            }
            vstd::arithmetic::power2::lemma_pow2_adds(ek, 23);
            vstd::arithmetic::power2::lemma2_to64();
            assert(unit <= 0x80_0000 * unit_k);
            if r >= 0x100_0000 * count {
                // Only a count that needs no rounding could be reached.
                assert(count == 0x80_0000 * unit_k);
                vstd::arithmetic::div_mod::lemma_mod_multiples_basic(0x80_0000, unit_k as int);
                vstd::arithmetic::div_mod::lemma_div_by_multiple(0x80_0000, unit_k as int);
                assert(k == count);
            }
        }
        assert(r < 0x100_0000 * count);
    }
    assert(r / 0x100_0000 < count);
}

/// `p` rounded to 24 significant bits, ties to even.
fn round_single(p: u64) -> (r: u64)
    requires
        p <= 0x0FFF_FFFF_FFFF_FFFF,
    ensures
        r == round_to_single(p as nat),
        r <= p + p,
{
    let mut quotient: u64 = p;
    let mut unit: u64 = 1;
    let ghost mut bits: nat = 0;
    proof {
        vstd::arithmetic::power2::lemma2_to64();
    }
    while quotient >= 0x100_0000
        invariant
            p <= 0x0FFF_FFFF_FFFF_FFFF,
            unit == pow2(bits),
            unit >= 1,
            quotient == p as nat / pow2(bits),
            quotient * unit <= p,
            excess_bits(p as nat) == bits + excess_bits(quotient as nat),
        decreases quotient,
    {
        assert(0x100_0000 * unit <= quotient * unit) by (nonlinear_arith)
            requires
                quotient >= 0x100_0000,
        ;
        proof {
            lemma_pow2_unfold(bits + 1);
            vstd::arithmetic::div_mod::lemma_div_denominator(p as int, unit as int, 2);
            assert((quotient as nat / 2) * (unit * 2) <= quotient * unit) by (nonlinear_arith);
            bits = bits + 1;
        }
        quotient = quotient / 2;
        unit = unit * 2;
    }
    proof {
        lemma_round_to_single(p as nat);
        assert(p == quotient * unit + p as nat % unit as nat) by {
            vstd::arithmetic::div_mod::lemma_fundamental_div_mod(p as int, unit as int);
            vstd::arithmetic::mul::lemma_mul_is_commutative(quotient as int, unit as int);
        }
        assert((quotient + 1) * unit == quotient * unit + unit) by (nonlinear_arith);
        assert(0x80_0000 * unit <= p || unit == 1);
    }
    let rest: u64 = p % unit;
    if rest < unit - rest || (rest == unit - rest && quotient % 2 == 0) {
        quotient * unit
    } else {
        (quotient + 1) * unit
    }
}

/// The value below `count` that a uniform draw selects: the integer part of
/// `draw * 2^-24 * count`, evaluated in single precision.
pub fn scale(draw: u32, count: u32) -> (r: u32)
    requires
        draw < UNIFORM_RANGE,
    ensures
        r == scaled_draw(draw, count),
        count > 0 ==> r < count,
        count == 0 ==> r == 0,
{
    let k: u64 = round_single(count as u64);
    proof {
        lemma_round_to_single(count as nat);
        vstd::arithmetic::power2::lemma2_to64();
        if count > 0 {
            scaled_draw_is_below_count(draw, count);
        }
        assert(draw as nat * k as nat <= 0xFF_FFFF * 0x2_0000_0000) by (nonlinear_arith)
            requires
                draw <= 0xFF_FFFF,
                k <= 0x2_0000_0000,
        ;
        if count == 0 {
            lemma_round_to_single(0);
            assert(draw as nat * k as nat == 0) by (nonlinear_arith)
                requires
                    k == 0,
            ;
        }
    }
    (round_single(draw as u64 * k) / 0x100_0000) as u32
}

} // verus!
