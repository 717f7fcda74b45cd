//! Facts about IEEE-754 doubles that can be read off their bit patterns.
//!
//! A double is carried as the `u64` that holds its sign (1 bit), its biased
//! exponent (11 bits) and its fraction (52 bits).

use vstd::arithmetic::power2::{
    lemma2_to64, lemma_pow2_adds, lemma_pow2_pos, lemma_pow2_strictly_increases, lemma_pow2_unfold,
    pow2,
};
use vstd::prelude::*;

verus! {

/// The sign bit.
pub const SIGN_BIT: u64 = 0x8000_0000_0000_0000;

/// Everything but the sign bit.
pub const MAGNITUDE_MASK: u64 = 0x7fff_ffff_ffff_ffff;

/// The pattern of positive infinity; every larger magnitude is a NaN.
pub const INFINITY: u64 = 0x7ff0_0000_0000_0000;

/// The pattern of positive zero.
pub const ZERO: u64 = 0;

/// The pattern with the sign bit cleared. Among patterns that are not NaN,
/// magnitudes are ordered as the absolute values they stand for.
pub open spec fn spec_magnitude(bits: u64) -> u64 {
    bits & MAGNITUDE_MASK
}

#[verifier::when_used_as_spec(spec_magnitude)]
pub fn magnitude(bits: u64) -> (m: u64)
    ensures
        m == spec_magnitude(bits),
{
    bits & MAGNITUDE_MASK
}

/// Positive or negative zero.
pub open spec fn spec_is_zero(bits: u64) -> bool {
    spec_magnitude(bits) == 0
}

#[verifier::when_used_as_spec(spec_is_zero)]
pub fn is_zero(bits: u64) -> (b: bool)
    ensures
        b == spec_is_zero(bits),
{
    magnitude(bits) == 0
}

/// Not a number.
pub open spec fn spec_is_nan(bits: u64) -> bool {
    spec_magnitude(bits) > INFINITY
}

#[verifier::when_used_as_spec(spec_is_nan)]
pub fn is_nan(bits: u64) -> (b: bool)
    ensures
        b == spec_is_nan(bits),
{
    magnitude(bits) > INFINITY
}

/// Positive or negative infinity.
pub open spec fn spec_is_infinite(bits: u64) -> bool {
    spec_magnitude(bits) == INFINITY
}

#[verifier::when_used_as_spec(spec_is_infinite)]
pub fn is_infinite(bits: u64) -> (b: bool)
    ensures
        b == spec_is_infinite(bits),
{
    magnitude(bits) == INFINITY
}

/// Neither infinite nor NaN.
pub open spec fn spec_is_finite(bits: u64) -> bool {
    spec_magnitude(bits) < INFINITY
}

#[verifier::when_used_as_spec(spec_is_finite)]
pub fn is_finite(bits: u64) -> (b: bool)
    ensures
        b == spec_is_finite(bits),
{
    magnitude(bits) < INFINITY
}

/// The sign bit is set.
pub open spec fn spec_is_negative(bits: u64) -> bool {
    bits & SIGN_BIT != 0
}

#[verifier::when_used_as_spec(spec_is_negative)]
pub fn is_negative(bits: u64) -> (b: bool)
    ensures
        b == spec_is_negative(bits),
{
    bits & SIGN_BIT != 0
}

/// The pattern of the negated double: the sign bit flipped, NaN included.
pub open spec fn spec_negate(bits: u64) -> u64 {
    bits ^ SIGN_BIT
}

#[verifier::when_used_as_spec(spec_negate)]
pub fn negate(bits: u64) -> (n: u64)
    ensures
        n == spec_negate(bits),
{
    bits ^ SIGN_BIT
}

/// Negation keeps the magnitude and flips the sign; twice, it is the identity.
pub proof fn lemma_negate(bits: u64)
    ensures
        spec_magnitude(spec_negate(bits)) == spec_magnitude(bits),
        spec_is_negative(spec_negate(bits)) == !spec_is_negative(bits),
        spec_negate(spec_negate(bits)) == bits,
{
    assert((bits ^ SIGN_BIT) & MAGNITUDE_MASK == bits & MAGNITUDE_MASK) by (bit_vector);
    assert(((bits ^ SIGN_BIT) & SIGN_BIT != 0) == !(bits & SIGN_BIT != 0)) by (bit_vector);
    assert((bits ^ SIGN_BIT) ^ SIGN_BIT == bits) by (bit_vector);
}

/// The pattern of one.
pub const ONE: u64 = 0x3ff0_0000_0000_0000;

/// The pattern of two to the power of 52, from which on every double is a
/// whole number.
pub const WHOLE: u64 = 0x4330_0000_0000_0000;

/// Two to the power of 52: the bit that a normal double has in front of
/// its fraction, though it is not stored.
pub const HIDDEN_BIT: u64 = 0x10_0000_0000_0000;

/// The biased exponent of a magnitude.
pub open spec fn exponent_field(m: u64) -> int {
    m as int / HIDDEN_BIT as int
}

/// The significand of a normal magnitude: its fraction behind the hidden
/// bit.
pub open spec fn significand(m: u64) -> int {
    HIDDEN_BIT as int + m as int % HIDDEN_BIT as int
}

/// How many bits of the significand stand after the binary point: the
/// magnitude `m` stands for `significand(m)` divided by two to that power.
pub open spec fn places(m: u64) -> int {
    1075 - exponent_field(m)
}

/// The whole part of the double of magnitude `m`, from one up to two to
/// the power of 52.
pub open spec fn whole_part(m: u64) -> int {
    significand(m) / pow2(places(m) as nat) as int
}

/// The fractional part of the double of magnitude `m`, from one up to two
/// to the power of 52, counted in units of two to the power of minus
/// `places(m)`.
pub open spec fn remainder(m: u64) -> int {
    significand(m) % pow2(places(m) as nat) as int
}

/// Powers of two up to the hundredth fit in 128 bits.
pub proof fn lemma_pow2_fits(k: nat)
    requires
        k <= 100,
    ensures
        0 < pow2(k) <= 0x10_0000_0000_0000_0000_0000_0000,
{
    lemma2_to64();
    lemma_pow2_adds(64, 32);
    lemma_pow2_adds(96, 4);
    lemma_pow2_pos(k);
    if k < 100 {
        lemma_pow2_strictly_increases(k, 100);
    }
}

/// Two to the power of `k`.
pub(crate) fn power_of_two(k: u32) -> (p: u128)
    requires
        k <= 100,
    ensures
        p == pow2(k as nat),
{
    let mut p: u128 = 1;
    let mut i: u32 = 0;
    proof {
        lemma2_to64();
    }
    while i < k
        invariant
            i <= k <= 100,
            p == pow2(i as nat),
        decreases k - i,
    {
        proof {
            lemma_pow2_unfold((i + 1) as nat);
            lemma_pow2_fits((i + 1) as nat);
        }
        p = p * 2;
        i += 1;
    }
    p
}

/// Splits the double of magnitude `m`, from one up to two to the power of
/// 52, into its whole part, its remainder and the number of binary places
/// that the remainder is counted in.
pub(crate) fn split(m: u64) -> (parts: (u64, u64, u32))
    requires
        ONE <= m < WHOLE,
    ensures
        parts.0 == whole_part(m),
        parts.1 == remainder(m),
        parts.2 == places(m),
        1 <= parts.2 <= 52,
        parts.1 < pow2(parts.2 as nat),
{
    let exponent = m / HIDDEN_BIT;
    let significand = HIDDEN_BIT + m % HIDDEN_BIT;
    let places = (1075 - exponent) as u32;
    proof {
        lemma_pow2_fits(places as nat);
        lemma2_to64();
        lemma_pow2_adds(32, 20);
        if places < 52 {
            lemma_pow2_strictly_increases(places as nat, 52);
        }
    }
    let unit = power_of_two(places) as u64;
    (significand / unit, significand % unit, places)
}

} // verus!
