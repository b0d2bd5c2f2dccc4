//! Single-precision numbers carried as their IEEE-754 bit patterns.
//!
//! A pattern is a sign bit, eight exponent bits and twenty-three fraction bits. Finite values are
//! measured in units of `2^-149`, the smallest positive number: every finite value is a whole
//! number of units.

use vstd::arithmetic::power2::*;
use vstd::prelude::*;

verus! {

/// The sign bit of a bit pattern.
pub const SIGN_BIT: u32 = 0x8000_0000;

/// The bit pattern of positive infinity: every larger magnitude is a NaN.
pub const INFINITY_BITS: u32 = 0x7f80_0000;

/// The NaN that the arithmetic of this library answers with.
pub const NAN_BITS: u32 = 0x7fc0_0000;

/// The bit pattern of `1.0`.
pub const ONE_BITS: u32 = 0x3f80_0000;

/// The weight of one exponent step, `2^23`.
pub const STEP: u32 = 0x0080_0000;

/// Whether the sign bit is set.
pub open spec fn negative(bits: u32) -> bool {
    bits >= SIGN_BIT
}

/// Magnitude of a bit pattern: everything but the sign bit.
pub open spec fn magnitude(bits: u32) -> u32 {
    if negative(bits) {
        (bits - SIGN_BIT) as u32
    } else {
        bits
    }
}

pub open spec fn nan(bits: u32) -> bool {
    magnitude(bits) > INFINITY_BITS
}

pub open spec fn infinite(bits: u32) -> bool {
    magnitude(bits) == INFINITY_BITS
}

pub open spec fn finite(bits: u32) -> bool {
    magnitude(bits) < INFINITY_BITS
}

/// The whole-number mantissa of a finite pattern: the fraction, with the hidden bit of a normal
/// number put back.
pub open spec fn mantissa(bits: u32) -> int {
    let m = magnitude(bits) as int;
    if m / 0x80_0000 == 0 {
        m
    } else {
        m % 0x80_0000 + 0x80_0000
    }
}

/// How many times the mantissa is doubled to give the value in units.
pub open spec fn doublings(bits: u32) -> nat {
    let e = magnitude(bits) as int / 0x80_0000;
    if e == 0 {
        0
    } else {
        (e - 1) as nat
    }
}

/// `|x|` of a finite pattern, in units of `2^-149`.
pub open spec fn units(bits: u32) -> int {
    mantissa(bits) * pow2(doublings(bits))
}

/// The number of units in `1.0`.
pub open spec fn one() -> int {
    pow2(149) as int
}

/// Position of a pattern in the total order of single-precision numbers: negative NaNs, the
/// negative numbers, minus zero, plus zero, the positive numbers, positive NaNs.
pub open spec fn order_key(bits: u32) -> int {
    if negative(bits) {
        SIGN_BIT - 1 - bits
    } else {
        bits as int
    }
}

/// Whether `x > 0`: false of both zeros, of every negative number and of every NaN.
pub open spec fn positive(bits: u32) -> bool {
    0 < bits <= INFINITY_BITS
}

/// Whether `x <= 0`: true of both zeros and of every negative number, false of every NaN.
pub open spec fn at_most_zero(bits: u32) -> bool {
    bits == 0 || SIGN_BIT <= bits <= SIGN_BIT + INFINITY_BITS
}

/// Whether `x >= 0`: true of both zeros and of every positive number, false of every NaN.
pub open spec fn at_least_zero(bits: u32) -> bool {
    bits <= INFINITY_BITS || bits == SIGN_BIT
}

/// The sign bit of a quotient or product.
pub open spec fn sign_of(neg: bool) -> int {
    if neg {
        SIGN_BIT as int
    } else {
        0
    }
}

pub fn is_negative(bits: u32) -> (r: bool)
    ensures
        r == negative(bits),
{
    bits >= SIGN_BIT
}

/// `|x|`, which only clears the sign bit (also of a NaN).
pub fn abs_bits(bits: u32) -> (r: u32)
    ensures
        r == magnitude(bits),
{
    if bits < SIGN_BIT {
        bits
    } else {
        bits - SIGN_BIT
    }
}

pub fn is_nan(bits: u32) -> (r: bool)
    ensures
        r == nan(bits),
{
    abs_bits(bits) > INFINITY_BITS
}

pub fn is_positive(bits: u32) -> (r: bool)
    ensures
        r == positive(bits),
{
    0 < bits && bits <= INFINITY_BITS
}

pub fn is_at_most_zero(bits: u32) -> (r: bool)
    ensures
        r == at_most_zero(bits),
{
    bits == 0 || (bits >= SIGN_BIT && bits - SIGN_BIT <= INFINITY_BITS)
}

/// The larger of a running maximum and `|x|`, where a NaN is passed over.
pub open spec fn larger_magnitude(m: u32, bits: u32) -> u32 {
    if !nan(bits) && magnitude(bits) > m {
        magnitude(bits)
    } else {
        m
    }
}

/// Whether `x >= 0`.
pub fn is_at_least_zero(bits: u32) -> (r: bool)
    ensures
        r == at_least_zero(bits),
{
    bits <= INFINITY_BITS || bits == SIGN_BIT
}

pub fn max_magnitude(m: u32, bits: u32) -> (r: u32)
    ensures
        r == larger_magnitude(m, bits),
{
    let a = abs_bits(bits);
    if a <= INFINITY_BITS && a > m {
        a
    } else {
        m
    }
}

/// The position of `bits` in the total order, as a machine integer.
pub fn total_order_key(bits: u32) -> (r: i64)
    ensures
        r == order_key(bits),
{
    if bits < SIGN_BIT {
        bits as i64
    } else {
        0x7fff_ffffi64 - bits as i64
    }
}

/// Mantissa and number of doublings of a finite pattern.
pub fn split_bits(bits: u32) -> (r: (u32, u32))
    requires
        finite(bits),
    ensures
        r.0 == mantissa(bits),
        r.1 == doublings(bits),
        r.0 < 0x100_0000,
        r.1 < 254,
{
    let m: u32 = abs_bits(bits);
    let e: u32 = m / 0x80_0000;
    if e == 0 {
        (m, 0)
    } else {
        (m % 0x80_0000 + 0x80_0000, e - 1)
    }
}

/// The total order tells any two patterns apart.
pub proof fn order_key_is_injective(a: u32, b: u32)
    ensures
        order_key(a) == order_key(b) ==> a == b,
{
}

} // verus!
