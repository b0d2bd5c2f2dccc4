//! Single-precision arithmetic keeps the order of numbers.

use crate::float_bits;
use crate::float_bits::{INFINITY_BITS, SIGN_BIT};
use crate::gptq;
use crate::quant_laws;
use crate::rounding;
use vstd::prelude::*;

verus! {

/// Whether `x <= y`, which no NaN is.
pub open spec fn at_most(x: u32, y: u32) -> bool {
    !float_bits::nan(x) && !float_bits::nan(y) && gptq::numeric(x) <= gptq::numeric(y)
}

proof fn lemma_units_keep_order(x: u32, y: u32)
    requires
        float_bits::finite(x),
        float_bits::finite(y),
        at_most(x, y),
    ensures
        rounding::signed_units(x) <= rounding::signed_units(y),
        float_bits::units(x) >= 0,
        float_bits::units(y) >= 0,
{
    if float_bits::magnitude(x) <= float_bits::magnitude(y) {
        rounding::units_follow_magnitudes(x, y);
    } else {
        rounding::units_follow_magnitudes(y, x);
    }
    if float_bits::negative(x) && float_bits::negative(y) {
        rounding::units_follow_magnitudes(y, x);
    } else if float_bits::negative(y) {
        // Then both are zeros.
        zero_has_no_units(x);
        zero_has_no_units(y);
    }
}

/// Zero, of either sign, is worth nothing.
pub proof fn zero_has_no_units(z: u32)
    requires
        float_bits::magnitude(z) == 0,
    ensures
        float_bits::units(z) == 0,
{
    assert(float_bits::mantissa(z) == 0);
    assert(0 * vstd::arithmetic::power2::pow2(float_bits::doublings(z)) == 0);
}

/// Rounding to single precision keeps the order of values.
pub proof fn rounded_values_keep_order(v: int, w: int)
    requires
        v <= w,
    ensures
        at_most(rounding::from_units(v), rounding::from_units(w)),
{
    if v < 0 {
        rounding::nearest_is_not_negative(-v, 1);
    } else {
        rounding::nearest_is_not_negative(v, 1);
    }
    if w < 0 {
        rounding::nearest_is_not_negative(-w, 1);
        quant_laws::nearest_is_monotone(-w, -v, 1);
    } else {
        rounding::nearest_is_not_negative(w, 1);
        if v >= 0 {
            quant_laws::nearest_is_monotone(v, w, 1);
        }
    }
    lemma_signed_pattern(rounding::capped(rounding::nearest(if v < 0 { -v } else { v }, 1)));
    lemma_signed_pattern(rounding::capped(rounding::nearest(if w < 0 { -w } else { w }, 1)));
}

proof fn lemma_signed_pattern(m: int)
    requires
        0 <= m <= INFINITY_BITS,
    ensures
        float_bits::magnitude((SIGN_BIT + m) as u32) == m,
        float_bits::negative((SIGN_BIT + m) as u32),
        float_bits::magnitude(m as u32) == m,
        !float_bits::negative(m as u32),
{
}

/// Adding the same finite number to two numbers keeps their order.
pub proof fn sums_keep_order(x: u32, y: u32, z: u32)
    requires
        at_most(x, y),
        float_bits::finite(z),
    ensures
        at_most(rounding::sum(x, z), rounding::sum(y, z)),
{
    if float_bits::finite(x) && float_bits::finite(y) {
        lemma_units_keep_order(x, y);
        let (v, w) = (
            rounding::signed_units(x) + rounding::signed_units(z),
            rounding::signed_units(y) + rounding::signed_units(z),
        );
        rounded_values_keep_order(v, w);
        zero_is_rounded_to_zero();
    } else if float_bits::finite(x) {
        lemma_sums_are_numbers(x, z);
    } else if float_bits::finite(y) {
        lemma_sums_are_numbers(y, z);
    }
}

/// The value zero is rounded to plain zero.
pub proof fn zero_is_rounded_to_zero()
    ensures
        rounding::signed_units(SIGN_BIT) == 0,
        rounding::from_units(0) == 0,
        float_bits::magnitude(SIGN_BIT) == 0,
{
    lemma_nearest_of_zero(1);
    zero_has_no_units(SIGN_BIT);
}

/// The sum of two finite numbers is a number, at most infinite.
proof fn lemma_sums_are_numbers(x: u32, z: u32)
    requires
        float_bits::finite(x),
        float_bits::finite(z),
    ensures
        !float_bits::nan(rounding::sum(x, z)),
        -(INFINITY_BITS as int) <= gptq::numeric(rounding::sum(x, z)) <= INFINITY_BITS,
{
    let v = rounding::signed_units(x) + rounding::signed_units(z);
    if v < 0 {
        rounding::nearest_is_not_negative(-v, 1);
        lemma_signed_pattern(rounding::capped(rounding::nearest(-v, 1)));
    } else {
        rounding::nearest_is_not_negative(v, 1);
        lemma_signed_pattern(rounding::capped(rounding::nearest(v, 1)));
    }
}

/// Subtracting the same finite number from two numbers keeps their order.
pub proof fn differences_keep_order(x: u32, y: u32, z: u32)
    requires
        at_most(x, y),
        float_bits::finite(z),
    ensures
        at_most(rounding::difference(x, z), rounding::difference(y, z)),
{
    sums_keep_order(x, y, rounding::opposite(z));
}

/// Multiplying two finite numbers by the same one, which is finite and not negative, keeps their
/// order.
pub proof fn products_keep_order(a: u32, x: u32, y: u32)
    requires
        a < INFINITY_BITS,
        float_bits::finite(x),
        float_bits::finite(y),
        at_most(x, y),
    ensures
        at_most(rounding::product(a, x), rounding::product(a, y)),
{
    let (ua, ux, uy) = (float_bits::units(a), float_bits::units(x), float_bits::units(y));
    let o = float_bits::one();
    vstd::arithmetic::power2::lemma_pow2_pos(149);
    rounding::units_follow_magnitudes(a, a);
    rounding::units_follow_magnitudes(x, x);
    rounding::units_follow_magnitudes(y, y);
    assert(ua * ux >= 0 && ua * uy >= 0) by (nonlinear_arith)
        requires
            ua >= 0,
            ux >= 0,
            uy >= 0,
    ;
    rounding::nearest_is_not_negative(ua * ux, o);
    rounding::nearest_is_not_negative(ua * uy, o);
    lemma_signed_pattern(rounding::capped(rounding::nearest(ua * ux, o)));
    lemma_signed_pattern(rounding::capped(rounding::nearest(ua * uy, o)));
    if !float_bits::negative(x) && !float_bits::negative(y) {
        rounding::units_follow_magnitudes(x, y);
        assert(ua * ux <= ua * uy) by (nonlinear_arith)
            requires
                ua >= 0,
                ux <= uy,
        ;
        quant_laws::nearest_is_monotone(ua * ux, ua * uy, o);
    } else if float_bits::negative(x) && float_bits::negative(y) {
        rounding::units_follow_magnitudes(y, x);
        assert(ua * uy <= ua * ux) by (nonlinear_arith)
            requires
                ua >= 0,
                uy <= ux,
        ;
        quant_laws::nearest_is_monotone(ua * uy, ua * ux, o);
    } else if float_bits::negative(y) {
        // Then both are zeros.
        assert(float_bits::magnitude(x) == 0 && float_bits::magnitude(y) == 0);
        rounding::units_follow_magnitudes(x, y);
        rounding::units_follow_magnitudes(y, x);
        lemma_zero_products(a, x);
        lemma_zero_products(a, y);
    }
}

/// A product that is no number has the one pattern of its kind.
pub proof fn products_have_one_nan(x: u32, y: u32)
    ensures
        float_bits::nan(rounding::product(x, y)) ==> rounding::product(x, y)
            == float_bits::NAN_BITS,
{
    if float_bits::finite(x) && float_bits::finite(y) {
        let (ux, uy) = (float_bits::units(x), float_bits::units(y));
        vstd::arithmetic::power2::lemma_pow2_pos(149);
        rounding::units_follow_magnitudes(x, x);
        rounding::units_follow_magnitudes(y, y);
        assert(ux * uy >= 0) by (nonlinear_arith)
            requires
                ux >= 0,
                uy >= 0,
        ;
        rounding::nearest_is_not_negative(ux * uy, float_bits::one());
        lemma_signed_pattern(rounding::capped(rounding::nearest(ux * uy, float_bits::one())));
    }
}

/// A number times itself is not below zero.
pub proof fn squares_are_not_negative(x: u32)
    ensures
        float_bits::nan(rounding::product(x, x)) || rounding::product(x, x) <= INFINITY_BITS,
{
    if float_bits::finite(x) {
        let u = float_bits::units(x);
        vstd::arithmetic::power2::lemma_pow2_pos(149);
        assert(u * u >= 0) by (nonlinear_arith);
        rounding::nearest_is_not_negative(u * u, float_bits::one());
        lemma_signed_pattern(rounding::capped(rounding::nearest(u * u, float_bits::one())));
    }
}

/// A positive number is worth something.
pub proof fn positive_numbers_have_units(x: u32)
    requires
        0 < x < INFINITY_BITS,
    ensures
        float_bits::units(x) > 0,
{
    rounding::units_follow_magnitudes(x, x);
    rounding::representable_values_are_kept(x);
    if float_bits::units(x) == 0 {
        lemma_nearest_of_zero(1);
    }
}

/// A sum of numbers that are not negative is no smaller than each of them.
pub proof fn sums_grow(x: u32, y: u32)
    requires
        x <= INFINITY_BITS,
        y <= INFINITY_BITS,
    ensures
        x <= rounding::sum(x, y) <= INFINITY_BITS,
        y <= rounding::sum(x, y),
{
    if x < INFINITY_BITS && y < INFINITY_BITS {
        let (ux, uy) = (float_bits::units(x), float_bits::units(y));
        rounding::units_follow_magnitudes(x, x);
        rounding::units_follow_magnitudes(y, y);
        rounding::representable_values_are_kept(x);
        rounding::representable_values_are_kept(y);
        rounded_values_keep_order(ux, ux + uy);
        rounded_values_keep_order(uy, ux + uy);
        rounding::nearest_is_not_negative(ux + uy, 1);
    }
}

/// What is not above zero stays so when something that is not negative is taken away.
pub proof fn falling_stays_below_zero(x: u32, g: u32)
    requires
        at_most(x, 0),
        float_bits::at_least_zero(g),
    ensures
        float_bits::at_most_zero(rounding::difference(x, g)),
        float_bits::at_least_zero(rounding::opposite(rounding::difference(x, g))),
{
    let q = rounding::opposite(g);
    if float_bits::finite(x) && float_bits::finite(g) {
        lemma_units_keep_order(x, 0);
        zero_has_no_units(0);
        if float_bits::magnitude(g) == 0 {
            zero_has_no_units(q);
        } else {
            rounding::units_follow_magnitudes(q, q);
        }
        let v = rounding::signed_units(x) + rounding::signed_units(q);
        assert(v <= 0);
        zero_is_rounded_to_zero();
        if v < 0 {
            rounding::nearest_is_not_negative(-v, 1);
            lemma_signed_pattern(rounding::capped(rounding::nearest(-v, 1)));
        }
    }
}

/// Zeros, of either sign, add up to zero.
pub proof fn zeros_add_up_to_zero(x: u32, y: u32)
    requires
        float_bits::magnitude(x) == 0,
        float_bits::magnitude(y) == 0,
    ensures
        float_bits::magnitude(rounding::sum(x, y)) == 0,
{
    zero_has_no_units(x);
    zero_has_no_units(y);
    zero_is_rounded_to_zero();
}

/// Zero times a finite number is zero.
pub proof fn zero_times_a_number(x: u32)
    requires
        float_bits::finite(x),
    ensures
        float_bits::magnitude(rounding::product(0, x)) == 0,
        !float_bits::negative(x) ==> rounding::product(0, x) == 0,
{
    vstd::arithmetic::power2::lemma_pow2_pos(149);
    zero_has_no_units(0);
    assert(0 * float_bits::units(x) == 0);
    lemma_nearest_of_zero(float_bits::one());
}

/// Zero over a count is zero.
pub proof fn zero_over_a_count(z: u32, n: int)
    requires
        float_bits::magnitude(z) == 0,
        n >= 1,
    ensures
        float_bits::magnitude(rounding::quotient(z, rounding::count_value(n))) == 0,
{
    let c = rounding::count_value(n);
    let o = float_bits::one();
    vstd::arithmetic::power2::lemma_pow2_pos(149);
    assert(n * o >= 1) by (nonlinear_arith)
        requires
            n >= 1,
            o >= 1,
    ;
    quant_laws::nearest_is_monotone(1, n * o, 1);
    assert(rounding::nearest(1, 1) == 1) by {
        assert(1int / 1 == 1 && 1int % 1 == 0);
    }
    lemma_signed_pattern(rounding::capped(rounding::nearest(n * o, 1)));
    assert(float_bits::magnitude(c) >= 1);
    zero_has_no_units(z);
    if float_bits::finite(c) {
        let u = float_bits::units(c);
        rounding::units_follow_magnitudes(c, c);
        rounding::representable_values_are_kept(c);
        assert(u > 0) by {
            if u == 0 {
                lemma_nearest_of_zero(1);
            }
        }
        assert(0 * o == 0);
        lemma_nearest_of_zero(u);
    }
}

proof fn lemma_nearest_of_zero(den: int)
    requires
        den > 0,
    ensures
        rounding::nearest(0, den) == 0,
{
    assert(0int / den == 0 && 0int % den == 0) by (nonlinear_arith)
        requires
            den > 0,
    ;
}

proof fn lemma_zero_products(a: u32, z: u32)
    requires
        a < INFINITY_BITS,
        float_bits::magnitude(z) == 0,
    ensures
        float_bits::magnitude(rounding::product(a, z)) == 0,
{
    vstd::arithmetic::power2::lemma_pow2_pos(149);
    zero_has_no_units(z);
    assert(float_bits::units(a) * 0 == 0);
    lemma_nearest_of_zero(float_bits::one());
}

} // verus!
