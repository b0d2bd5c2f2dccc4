//! What bit patterns are worth as real numbers, and how near rounded results are to exact ones.

use crate::float_bits;
use crate::float_bits::{INFINITY_BITS, ONE_BITS, SIGN_BIT};
use crate::loss;
use crate::order_laws;
use crate::quant_laws;
use crate::roots;
use crate::rounding;
use vstd::arithmetic::div_mod::{lemma_fundamental_div_mod, lemma_fundamental_div_mod_converse};
use vstd::arithmetic::power2::{lemma2_to64, lemma_pow2_pos, lemma_pow2_unfold, pow2};
use vstd::prelude::*;

verus! {

/// The value of a finite pattern.
pub open spec fn value(x: u32) -> real {
    rounding::signed_units(x) as real / float_bits::one() as real
}

/// The distance of a number from zero.
pub open spec fn size(r: real) -> real {
    if r < 0real {
        -r
    } else {
        r
    }
}

/// One part in `2^24`: half the distance of neighbouring single-precision numbers, relative to them.
pub open spec fn grain() -> real {
    1real / 16777216real
}

/// Half of the smallest positive single-precision number.
pub open spec fn speck() -> real {
    1real / (2 * float_bits::one()) as real
}

/// Whether a pattern is finite and as near to an exact number as one rounding brings it.
pub open spec fn close(x: u32, exact: real) -> bool {
    float_bits::finite(x) && size(value(x) - exact) <= grain() * size(exact) + speck()
}

/// How many times the grid doubles before twenty-four bits hold the value.
spec fn grid(num: int, den: int) -> nat
    decreases num - den,
{
    if den <= 0 || num < 0x100_0000 * den {
        0
    } else {
        (1 + grid(num, 2 * den)) as nat
    }
}

proof fn lemma_grid(num: int, den: int)
    requires
        num >= 0,
        den > 0,
    ensures
        num < 0x100_0000 * (den * pow2(grid(num, den))),
        grid(num, den) == 0 || 0x80_0000 * (den * pow2(grid(num, den))) <= num,
    decreases num - den,
{
    lemma2_to64();
    if num < 0x100_0000 * den {
        assert(den * 1 == den);
    } else {
        lemma_grid(num, 2 * den);
        let g = grid(num, 2 * den);
        lemma_pow2_unfold((g + 1) as nat);
        assert((2 * den) * pow2(g) == den * (2 * pow2(g))) by (nonlinear_arith);
        if g == 0 {
            assert(den * 2 == 2 * den);
        }
    }
}

proof fn lemma_nearest_error(num: int, den: int)
    requires
        num >= 0,
        den > 0,
        rounding::nearest(num, den) < INFINITY_BITS,
    ensures
        0 <= rounding::nearest(num, den),
        ({
            let e = float_bits::units(rounding::nearest(num, den) as u32) * den - num;
            (0x100_0000 * e <= num && -0x100_0000 * e <= num) || (2 * e <= den && -2 * e <= den)
        }),
{
    let g = grid(num, den);
    lemma_grid(num, den);
    rounding::nearest_is_within_half_a_step(num, den, g);
    lemma2_to64();
    if g == 0 {
        assert(den * 1 == den);
    }
}

/// What a grain of something is.
pub proof fn grains(a: real)
    ensures
        16777216real * (grain() * a) == a,
        a >= 0real ==> grain() * a >= 0real,
        grain() > 0real,
{
    let g = grain();
    assert(16777216real * g == 1real) by (nonlinear_arith)
        requires
            g == 1real / 16777216real,
    ;
    assert(16777216real * (g * a) == (16777216real * g) * a) by (nonlinear_arith);
    assert(1real * a == a) by (nonlinear_arith);
}

/// Multiplying by a factor that is not negative keeps the order.
pub proof fn factors_keep_order(a: real, b: real, c: real)
    requires
        a <= b,
        c >= 0real,
    ensures
        a * c <= b * c,
        c * a <= c * b,
{
    assert(a * c <= b * c && c * a <= c * b) by (nonlinear_arith)
        requires
            a <= b,
            c >= 0real,
    ;
}

/// A positive common factor can be taken away from both sides.
pub proof fn common_factors_cancel(a: real, b: real, c: real)
    requires
        a * c <= b * c,
        c > 0real,
    ensures
        a <= b,
{
    if a > b {
        assert(a * c > b * c) by (nonlinear_arith)
            requires
                a > b,
                c > 0real,
        ;
    }
}

/// The number of units is the value times the units of one.
pub proof fn value_in_units(x: u32)
    ensures
        value(x) * (float_bits::one() as real) == rounding::signed_units(x) as real,
        float_bits::one() > 0,
{
    lemma_pow2_pos(149);
    let (v, o) = (rounding::signed_units(x) as real, float_bits::one() as real);
    assert(o > 0real);
    assert((v / o) * o == v) by (nonlinear_arith)
        requires
            o > 0real,
    ;
}

/// The value has the sign of the pattern, and its distance from zero is that of the magnitude.
pub proof fn value_has_the_sign(x: u32)
    requires
        float_bits::finite(x),
    ensures
        float_bits::negative(x) ==> value(x) <= 0real,
        !float_bits::negative(x) ==> value(x) >= 0real,
        size(value(x)) * (float_bits::one() as real) == float_bits::units(x) as real,
        float_bits::units(x) >= 0,
        value(float_bits::magnitude(x)) == size(value(x)),
        float_bits::magnitude(x) > 0 ==> size(value(x)) > 0real,
        float_bits::magnitude(x) == 0 ==> value(x) == 0real,
{
    value_in_units(x);
    value_in_units(float_bits::magnitude(x));
    rounding::units_follow_magnitudes(x, x);
    let (v, o, u) = (value(x), float_bits::one() as real, float_bits::units(x) as real);
    let w = value(float_bits::magnitude(x));
    assert(float_bits::units(float_bits::magnitude(x)) == float_bits::units(x));
    if float_bits::negative(x) {
        assert(v * o == -u);
        assert(v <= 0real && (-v) * o == u) by (nonlinear_arith)
            requires
                v * o == -u,
                u >= 0real,
                o > 0real,
        ;
        assert(w == -v) by (nonlinear_arith)
            requires
                (-v) * o == u,
                w * o == u,
                o > 0real,
        ;
    } else {
        assert(v >= 0real) by (nonlinear_arith)
            requires
                v * o == u,
                u >= 0real,
                o > 0real,
        ;
    }
    if float_bits::magnitude(x) > 0 {
        order_laws::positive_numbers_have_units(float_bits::magnitude(x));
        assert(size(v) > 0real) by (nonlinear_arith)
            requires
                size(v) * o == u,
                u > 0real,
                o > 0real,
        ;
    } else {
        order_laws::zero_has_no_units(x);
        assert(v == 0real) by (nonlinear_arith)
            requires
                v * o == 0real,
                o > 0real,
        ;
    }
}

proof fn lemma_half_unit()
    ensures
        2real * speck() * (float_bits::one() as real) == 1real,
        speck() > 0real,
{
    lemma_pow2_pos(149);
    let o = float_bits::one() as real;
    assert((2 * float_bits::one()) as real == 2real * o);
    let s = speck();
    assert(s == 1real / (2real * o));
    assert(2real * s * o == 1real && s > 0real) by (nonlinear_arith)
        requires
            s == 1real / (2real * o),
            o > 0real,
    ;
}

/// From errors in units to errors of values. `u / o` stands for the result, `num / (den * o)` for
/// the exact number.
proof fn lemma_error_of_values(u: int, num: int, den: int, r: real, exact: real)
    requires
        num >= 0,
        den > 0,
        ({
            let e = u * den - num;
            (0x100_0000 * e <= num && -0x100_0000 * e <= num) || (2 * e <= den && -2 * e <= den)
        }),
        r * (float_bits::one() as real) == u as real,
        exact * (den as real * float_bits::one() as real) == num as real,
    ensures
        size(r - exact) <= grain() * size(exact) || size(r - exact) <= speck(),
        exact >= 0real,
{
    lemma_pow2_pos(149);
    lemma_half_unit();
    let o = float_bits::one() as real;
    let d = den as real;
    let c = d * o;
    assert(c > 0real) by (nonlinear_arith)
        requires
            c == d * o,
            d > 0real,
            o > 0real,
    ;
    assert(exact >= 0real) by (nonlinear_arith)
        requires
            exact * c == num as real,
            num as real >= 0real,
            c > 0real,
    ;
    let e = u * den - num;
    assert((u * den) as real == u as real * d) by (nonlinear_arith)
        requires
            d == den as real,
    ;
    assert(e as real == (r - exact) * c) by (nonlinear_arith)
        requires
            e as real == u as real * d - num as real,
            r * o == u as real,
            exact * c == num as real,
            c == d * o,
    ;
    if 0x100_0000 * e <= num && -0x100_0000 * e <= num {
        assert((0x100_0000 * e) as real == 16777216real * (e as real));
        let q = 16777216real * (r - exact);
        assert(q * c == 16777216real * (e as real)) by (nonlinear_arith)
            requires
                e as real == (r - exact) * c,
                q == 16777216real * (r - exact),
        ;
        common_factors_cancel(q, exact, c);
        assert((-q) * c == -(q * c)) by (nonlinear_arith);
        common_factors_cancel(-q, exact, c);
        grains(exact);
    } else {
        let s = speck();
        assert(2real * s * c == d) by (nonlinear_arith)
            requires
                2real * s * o == 1real,
                c == d * o,
        ;
        let q = 2real * (r - exact);
        let b = 2real * s;
        assert(q * c == 2real * (e as real)) by (nonlinear_arith)
            requires
                e as real == (r - exact) * c,
                q == 2real * (r - exact),
        ;
        assert(b * c == d);
        common_factors_cancel(q, b, c);
        assert((-q) * c == -(q * c)) by (nonlinear_arith);
        common_factors_cancel(-q, b, c);
    }
}

/// A finite pattern put together from a sign and a magnitude.
proof fn lemma_signed(neg: bool, m: int, r: u32)
    requires
        m >= 0,
        r == (float_bits::sign_of(neg) + rounding::capped(m)) as u32,
        float_bits::finite(r),
    ensures
        m < INFINITY_BITS,
        float_bits::negative(r) == neg,
        float_bits::magnitude(r) == m,
        float_bits::units(r) == float_bits::units(m as u32),
{
}

/// A finite product is the exact product up to one rounding.
pub proof fn products_are_close(x: u32, y: u32)
    requires
        float_bits::finite(x),
        float_bits::finite(y),
        float_bits::finite(rounding::product(x, y)),
    ensures
        close(rounding::product(x, y), value(x) * value(y)),
        float_bits::negative(rounding::product(x, y)) == (float_bits::negative(x)
            != float_bits::negative(y)),
{
    let r = rounding::product(x, y);
    let o = float_bits::one();
    value_has_the_sign(x);
    value_has_the_sign(y);
    value_in_units(x);
    let (ux, uy) = (float_bits::units(x), float_bits::units(y));
    assert(ux * uy >= 0) by (nonlinear_arith)
        requires
            ux >= 0,
            uy >= 0,
    ;
    rounding::nearest_is_not_negative(ux * uy, o);
    lemma_signed(
        float_bits::negative(x) != float_bits::negative(y),
        rounding::nearest(ux * uy, o),
        r,
    );
    lemma_nearest_error(ux * uy, o);
    value_has_the_sign(r);
    let (a, b, q) = (size(value(x)), size(value(y)), o as real);
    assert((a * b) * (q * q) == (a * q) * (b * q)) by (nonlinear_arith);
    assert((ux * uy) as real == ux as real * uy as real) by (nonlinear_arith);
    lemma_error_of_values(float_bits::units(r), ux * uy, o, size(value(r)), a * b);
    sizes_multiply(value(x), value(y));
    lemma_half_unit();
    grains(a * b);
}

/// Distances from zero multiply.
pub proof fn sizes_multiply(a: real, b: real)
    ensures
        size(a * b) == size(a) * size(b),
        a <= 0real && b <= 0real ==> a * b >= 0real,
        a >= 0real && b >= 0real ==> a * b >= 0real,
        a <= 0real && b >= 0real ==> a * b <= 0real,
        a >= 0real && b <= 0real ==> a * b <= 0real,
{
    let (s, t) = (size(a), size(b));
    assert(s * t >= 0real) by (nonlinear_arith)
        requires
            s >= 0real,
            t >= 0real,
    ;
    assert((-a) * b == -(a * b)) by (nonlinear_arith);
    assert(a * (-b) == -(a * b)) by (nonlinear_arith);
    assert((-a) * (-b) == a * b) by (nonlinear_arith);
}

/// A finite quotient of finite numbers is the exact quotient up to one rounding.
pub proof fn quotients_are_close(x: u32, y: u32)
    requires
        float_bits::finite(x),
        float_bits::finite(y),
        float_bits::magnitude(y) > 0,
        float_bits::finite(rounding::quotient(x, y)),
    ensures
        value(y) != 0real,
        close(rounding::quotient(x, y), value(x) / value(y)),
{
    let r = rounding::quotient(x, y);
    let o = float_bits::one();
    value_has_the_sign(x);
    value_has_the_sign(y);
    value_in_units(x);
    let (ux, uy) = (float_bits::units(x), float_bits::units(y));
    order_laws::positive_numbers_have_units(float_bits::magnitude(y));
    assert(float_bits::units(float_bits::magnitude(y)) == uy);
    assert(ux * o >= 0) by (nonlinear_arith)
        requires
            ux >= 0,
            o > 0,
    ;
    rounding::nearest_is_not_negative(ux * o, uy);
    lemma_signed(
        float_bits::negative(x) != float_bits::negative(y),
        rounding::nearest(ux * o, uy),
        r,
    );
    lemma_nearest_error(ux * o, uy);
    value_has_the_sign(r);
    let (a, b, q) = (size(value(x)), size(value(y)), o as real);
    let c = a / b;
    assert(c * b == a) by (nonlinear_arith)
        requires
            c == a / b,
            b > 0real,
    ;
    assert(c * ((b * q) * q) == (a * q) * q) by (nonlinear_arith)
        requires
            c * b == a,
    ;
    assert((ux * o) as real == ux as real * o as real) by (nonlinear_arith);
    lemma_error_of_values(float_bits::units(r), ux * o, uy, size(value(r)), c);
    lemma_half_unit();
    let (v, w) = (value(x), value(y));
    let f = v / w;
    assert(f * w == v) by (nonlinear_arith)
        requires
            f == v / w,
            w != 0real,
    ;
    sizes_multiply(f, w);
    assert(size(f) == c) by (nonlinear_arith)
        requires
            size(f) * b == a,
            c * b == a,
            b > 0real,
    ;
    assert(f >= 0real || v == 0real || (v < 0real) != (w < 0real)) by {
        if f < 0real && v != 0real {
            sizes_multiply(f, w);
        }
    }
    grains(c);
    if v == 0real {
        assert(f == 0real) by (nonlinear_arith)
            requires
                f * w == 0real,
                w != 0real,
        ;
    } else if f > 0real {
        sizes_multiply(f, w);
        assert((v < 0real) == (w < 0real));
    }
}

/// A finite sum of finite numbers is the exact sum up to one rounding, which is none where the sum
/// is small.
pub proof fn sums_are_close(x: u32, y: u32)
    requires
        float_bits::finite(x),
        float_bits::finite(y),
        float_bits::finite(rounding::sum(x, y)),
    ensures
        size(value(rounding::sum(x, y)) - (value(x) + value(y))) <= grain() * size(
            value(x) + value(y),
        ),
        close(rounding::sum(x, y), value(x) + value(y)),
{
    let r = rounding::sum(x, y);
    let o = float_bits::one();
    lemma_half_unit();
    value_in_units(x);
    value_in_units(y);
    value_in_units(r);
    let q = o as real;
    let v = rounding::signed_units(x) + rounding::signed_units(y);
    let exact = value(x) + value(y);
    grains(size(exact));
    let v1 = value(x);
    let v2 = value(y);
    let u1 = rounding::signed_units(x);
    let u2 = rounding::signed_units(y);
    assert(exact * q == v as real) by (nonlinear_arith)
        requires
            v1 * q == u1 as real,
            v2 * q == u2 as real,
            exact == v1 + v2,
            v as real == u1 as real + u2 as real,
    ;
    if x == SIGN_BIT && y == SIGN_BIT {
        order_laws::zero_is_rounded_to_zero();
        value_has_the_sign(x);
        value_has_the_sign(r);
    } else {
        lemma_rounded_units(v, r, exact);
    }
}

/// A whole number of units, rounded.
proof fn lemma_rounded_units(v: int, r: u32, exact: real)
    requires
        r == rounding::from_units(v),
        float_bits::finite(r),
        exact * (float_bits::one() as real) == v as real,
    ensures
        size(value(r) - exact) <= grain() * size(exact),
{
    let o = float_bits::one();
    lemma_pow2_pos(149);
    let q = o as real;
    let m = if v < 0 {
        -v
    } else {
        v
    };
    rounding::nearest_is_not_negative(m, 1);
    lemma_signed(v < 0, rounding::nearest(m, 1), r);
    lemma_nearest_error(m, 1);
    value_has_the_sign(r);
    let a = size(exact);
    assert((exact < 0real) == (v < 0)) by (nonlinear_arith)
        requires
            exact * q == v as real,
            q > 0real,
    ;
    assert((-exact) * q == -(exact * q)) by (nonlinear_arith);
    assert(1real * q == q);
    lemma_error_of_values(float_bits::units(r), m, 1, size(value(r)), a);
    let e = float_bits::units(r) * 1 - m;
    assert(float_bits::units(r) * 1 == float_bits::units(r));
    if !(0x100_0000 * e <= m && -0x100_0000 * e <= m) {
        assert(e == 0);
        let v1 = value(r);
        assert(size(v1) == a) by (nonlinear_arith)
            requires
                size(v1) * q == m as real,
                a * q == m as real,
                q > 0real,
        ;
    } else {
        lemma_error_in_grains(float_bits::units(r), m, size(value(r)), a);
    }
    grains(a);
}

proof fn lemma_error_in_grains(u: int, m: int, r: real, exact: real)
    requires
        0x100_0000 * (u - m) <= m,
        -0x100_0000 * (u - m) <= m,
        r * (float_bits::one() as real) == u as real,
        exact * (float_bits::one() as real) == m as real,
        exact >= 0real,
    ensures
        size(r - exact) <= grain() * exact,
{
    lemma_pow2_pos(149);
    let o = float_bits::one() as real;
    let q = 16777216real * (r - exact);
    let e = u - m;
    assert((0x100_0000 * e) as real == 16777216real * (e as real));
    assert(q * o == 16777216real * (e as real)) by (nonlinear_arith)
        requires
            r * o == u as real,
            exact * o == m as real,
            q == 16777216real * (r - exact),
            e as real == u as real - m as real,
    ;
    common_factors_cancel(q, exact, o);
    assert((-q) * o == -(q * o)) by (nonlinear_arith);
    common_factors_cancel(-q, exact, o);
    grains(exact);
}

/// The opposite of a number has the opposite value.
pub proof fn opposites_are_exact(x: u32)
    ensures
        value(rounding::opposite(x)) == -value(x),
        float_bits::finite(rounding::opposite(x)) == float_bits::finite(x),
        float_bits::magnitude(rounding::opposite(x)) == float_bits::magnitude(x),
{
    value_in_units(x);
    let y = rounding::opposite(x);
    value_in_units(y);
    assert(float_bits::magnitude(y) == float_bits::magnitude(x));
    assert(float_bits::units(y) == float_bits::units(x));
    let (v, w, o) = (value(x), value(y), float_bits::one() as real);
    assert(w == -v) by (nonlinear_arith)
        requires
            w * o == -(v * o),
            o > 0real,
    ;
}

/// A finite difference of finite numbers is the exact difference up to one rounding.
pub proof fn differences_are_close(x: u32, y: u32)
    requires
        float_bits::finite(x),
        float_bits::finite(y),
        float_bits::finite(rounding::difference(x, y)),
    ensures
        size(value(rounding::difference(x, y)) - (value(x) - value(y))) <= grain() * size(
            value(x) - value(y),
        ),
{
    opposites_are_exact(y);
    sums_are_close(x, rounding::opposite(y));
}

/// One is worth one, and zero nothing.
pub proof fn one_has_value_one()
    ensures
        value(ONE_BITS) == 1real,
        value(0) == 0real,
        value(SIGN_BIT) == 0real,
{
    value_has_the_sign(0);
    value_has_the_sign(SIGN_BIT);
    value_in_units(ONE_BITS);
    quant_laws::one_is_one();
    let (v, o) = (value(ONE_BITS), float_bits::one() as real);
    assert(v == 1real) by (nonlinear_arith)
        requires
            v * o == o,
            o > 0real,
    ;
}

/// Two is worth two.
pub proof fn two_has_value_two()
    ensures
        value(0x4000_0000u32) == 2real,
        float_bits::finite(0x4000_0000u32),
{
    let o = float_bits::one();
    let b = 0x4000_0000u32;
    lemma_pow2_pos(149);
    vstd::arithmetic::power2::lemma_pow2_adds(23, 127);
    lemma2_to64();
    lemma_pow2_unfold(150);
    assert(float_bits::mantissa(b) == 0x80_0000);
    assert(float_bits::doublings(b) == 127);
    assert(float_bits::units(b) == 2 * o);
    value_in_units(b);
    let (v, q) = (value(b), o as real);
    assert(v == 2real) by (nonlinear_arith)
        requires
            v * q == 2real * q,
            q > 0real,
    ;
}

/// A count of at most `2^24` is exact.
pub proof fn counts_are_exact(n: int)
    requires
        0 <= n <= 0x100_0000,
    ensures
        float_bits::finite(rounding::count_value(n)),
        !float_bits::negative(rounding::count_value(n)),
        value(rounding::count_value(n)) == n as real,
        n > 0 ==> float_bits::magnitude(rounding::count_value(n)) > 0,
{
    lemma_count_units(n);
    let c = rounding::count_value(n);
    value_in_units(c);
    let (v, o) = (value(c), float_bits::one() as real);
    let o1 = float_bits::one();
    assert((n * o1) as real == n as real * o) by (nonlinear_arith)
        requires
            o == o1 as real,
    ;
    assert(v == n as real) by (nonlinear_arith)
        requires
            v * o == n as real * o,
            o > 0real,
    ;
    value_has_the_sign(c);
}

proof fn lemma_count_units(n: int)
    requires
        0 <= n <= 0x100_0000,
    ensures
        float_bits::finite(rounding::count_value(n)),
        !float_bits::negative(rounding::count_value(n)),
        float_bits::units(rounding::count_value(n)) == n * float_bits::one(),
{
    lemma_pow2_pos(149);
    let o = float_bits::one();
    assert(n * o >= 0) by (nonlinear_arith)
        requires
            n >= 0,
            o > 0,
    ;
    let c = rounding::nearest(n * o, 1);
    rounding::nearest_is_not_negative(n * o, 1);
    // It is below infinity, and on a grid that holds it.
    lemma_count_grid(n, 149, 0);
    assert(1 * pow2(0) == 1) by {
        lemma2_to64();
    }
}

/// The rounding of `n * 2^j` on the grid `2^i` is exact.
proof fn lemma_count_grid(n: int, j: nat, i: nat)
    requires
        0 <= n <= 0x100_0000,
        i <= j <= 149,
        i > 0 ==> n * pow2(j) >= 0x80_0000 * pow2(i),
    ensures
        0 <= i * 0x80_0000 + rounding::nearest(n * pow2(j), pow2(i) as int) < INFINITY_BITS,
        float_bits::units(
            (i * 0x80_0000 + rounding::nearest(n * pow2(j), pow2(i) as int)) as u32,
        ) == n * pow2(j),
        !float_bits::negative(
            (i * 0x80_0000 + rounding::nearest(n * pow2(j), pow2(i) as int)) as u32,
        ),
    decreases j - i,
{
    lemma_pow2_pos(i);
    lemma_pow2_pos(j);
    let (num, den) = (n * pow2(j), pow2(i) as int);
    vstd::arithmetic::power2::lemma_pow2_adds((j - i) as nat, i);
    let k = pow2((j - i) as nat) as int;
    lemma_pow2_pos((j - i) as nat);
    assert(num == (n * k) * den) by (nonlinear_arith)
        requires
            num == n * pow2(j),
            pow2(j) == k * den,
    ;
    let m = n * k;
    assert(m >= 0) by (nonlinear_arith)
        requires
            m == n * k,
            n >= 0,
            k > 0,
    ;
    if num < 0x100_0000 * den || i == j {
        lemma_fundamental_div_mod_converse(num, den, m, 0);
        if i == j {
            lemma2_to64();
            assert(m == n) by (nonlinear_arith)
                requires
                    m == n * k,
                    k == 1,
            ;
        }
        if num < 0x100_0000 * den {
            assert(m < 0x100_0000) by (nonlinear_arith)
                requires
                    num == m * den,
                    num < 0x100_0000 * den,
                    den > 0,
            ;
            if i > 0 {
                assert(m >= 0x80_0000) by (nonlinear_arith)
                    requires
                        num == m * den,
                        num >= 0x80_0000 * den,
                        den > 0,
                ;
            }
            rounding::units_of_mantissa(i, m);
        } else {
            // The largest count on its last grid: one doubling more.
            assert(n == 0x100_0000) by (nonlinear_arith)
                requires
                    num == n * den,
                    num >= 0x100_0000 * den,
                    den > 0,
                    n <= 0x100_0000,
            ;
            assert(2 * den > 0);
            assert(num == 0x80_0000 * (2 * den)) by (nonlinear_arith)
                requires
                    num == n * den,
                    n == 0x100_0000,
            ;
            assert(num < 0x100_0000 * (2 * den));
            lemma_fundamental_div_mod_converse(num, 2 * den, 0x80_0000, 0);
            assert(rounding::nearest(num, 2 * den) == 0x80_0000);
            rounding::units_of_mantissa((i + 1) as nat, 0x80_0000);
            lemma_pow2_unfold((i + 1) as nat);
            assert((i + 1) * 0x80_0000 == i * 0x80_0000 + 0x80_0000);
        }
    } else {
        lemma_pow2_unfold((i + 1) as nat);
        assert(0x80_0000 * (2 * den) == 0x100_0000 * den) by (nonlinear_arith);
        lemma_count_grid(n, j, (i + 1) as nat);
    }
}

/// Every whole number has a whole part of its root.
proof fn lemma_root_exists(n: int)
    requires
        n >= 0,
    ensures
        roots::is_floor_root(roots::floor_root(n), n),
    decreases n,
{
    if n == 0 {
        assert(roots::is_floor_root(0, 0));
    } else {
        lemma_root_exists(n - 1);
        let q = roots::floor_root(n - 1);
        if n < (q + 1) * (q + 1) {
            assert(roots::is_floor_root(q, n));
        } else {
            assert((q + 1) * (q + 1) <= n < (q + 2) * (q + 2)) by (nonlinear_arith)
                requires
                    n - 1 < (q + 1) * (q + 1),
                    n >= (q + 1) * (q + 1),
                    q >= 0,
            ;
            assert(roots::is_floor_root(q + 1, n));
        }
    }
}

/// A root on its grid: the mantissa is a full one and its square is off by one part in `2^22`.
proof fn lemma_root_on_grid(n: int, den: int)
    requires
        den > 0,
        (0x80_0000 * den) * (0x80_0000 * den) <= n < (0x100_0000 * den) * (0x100_0000 * den),
    ensures
        0x80_0000 <= roots::round_root(n, den) <= 0x100_0000,
        ({
            let m = roots::round_root(n, den) * den;
            0x40_0000 * (m * m - n) <= n && 0x40_0000 * (n - m * m) <= n
        }),
{
    let s = den * den;
    assert(s > 0) by (nonlinear_arith)
        requires
            s == den * den,
            den > 0,
    ;
    let a = n / s;
    let k = n % s;
    lemma_fundamental_div_mod(n, s);
    assert(0x4000_0000_0000 * s <= n < 0x1_0000_0000_0000 * s) by (nonlinear_arith)
        requires
            (0x80_0000 * den) * (0x80_0000 * den) <= n < (0x100_0000 * den) * (0x100_0000 * den),
            s == den * den,
    ;
    assert(0x4000_0000_0000 <= a < 0x1_0000_0000_0000) by (nonlinear_arith)
        requires
            n == s * a + k,
            0 <= k < s,
            0x4000_0000_0000 * s <= n < 0x1_0000_0000_0000 * s,
    ;
    lemma_root_exists(a);
    let q = roots::floor_root(a);
    assert(0x80_0000 <= q < 0x100_0000) by (nonlinear_arith)
        requires
            q >= 0,
            q * q <= a < (q + 1) * (q + 1),
            0x4000_0000_0000 <= a < 0x1_0000_0000_0000,
    ;
    assert((q * q) * s <= n < ((q + 1) * (q + 1)) * s) by (nonlinear_arith)
        requires
            n == s * a + k,
            0 <= k < s,
            q * q <= a,
            a + 1 <= (q + 1) * (q + 1),
    ;
    let r = roots::round_root(n, den);
    let m = r * den;
    assert(m * m == (r * r) * s) by (nonlinear_arith)
        requires
            m == r * den,
            s == den * den,
    ;
    let w = (2 * q + 1) * (2 * q + 1);
    assert(w == 4 * (q * q) + 4 * q + 1) by (nonlinear_arith)
        requires
            w == (2 * q + 1) * (2 * q + 1),
    ;
    assert((q + 1) * (q + 1) == q * q + 2 * q + 1) by (nonlinear_arith);
    let (qq, qs) = ((q * q) * s, q * s);
    assert(w * s == 4 * qq + 4 * qs + s) by (nonlinear_arith)
        requires
            w == 4 * (q * q) + 4 * q + 1,
            qq == (q * q) * s,
            qs == q * s,
    ;
    assert(((q + 1) * (q + 1)) * s == qq + 2 * qs + s) by (nonlinear_arith)
        requires
            (q + 1) * (q + 1) == q * q + 2 * q + 1,
            qq == (q * q) * s,
            qs == q * s,
    ;
    assert(qq >= 0x80_0000 * qs && qs >= 0x80_0000 * s) by (nonlinear_arith)
        requires
            qq == (q * q) * s,
            qs == q * s,
            q >= 0x80_0000,
            s > 0,
    ;
    assert(w * (den * den) == w * s);
}

/// The rounded root of `n`, on the grids from `2^j` on.
proof fn lemma_root_shape(n: int, j: nat)
    requires
        j <= 190,
        (0x80_0000 * pow2(j)) * (0x80_0000 * pow2(j)) <= n,
        n < (0x100_0000 * pow2(190)) * (0x100_0000 * pow2(190)),
    ensures
        0 <= j * 0x80_0000 + roots::nearest_root(n, pow2(j) as int) <= 192 * 0x80_0000,
        ({
            let u = float_bits::units(
                (j * 0x80_0000 + roots::nearest_root(n, pow2(j) as int)) as u32,
            );
            0x40_0000 * (u * u - n) <= n && 0x40_0000 * (n - u * u) <= n
        }),
    decreases 190 - j,
{
    lemma_pow2_pos(j);
    let den = pow2(j) as int;
    if n < (0x100_0000 * den) * (0x100_0000 * den) {
        lemma_root_on_grid(n, den);
        rounding::units_of_mantissa(j, roots::round_root(n, den));
    } else {
        lemma_pow2_unfold((j + 1) as nat);
        assert(0x80_0000 * (2 * den) == 0x100_0000 * den) by (nonlinear_arith);
        assert((0x100_0000 * den) * (0x100_0000 * den) >= 2 * den) by (nonlinear_arith)
            requires
                den >= 1,
        ;
        lemma_root_shape(n, (j + 1) as nat);
    }
}

/// The square of a root is the number itself, up to one part in `2^22`.
pub proof fn roots_square_back(x: u32)
    requires
        float_bits::finite(x),
        !float_bits::negative(x),
    ensures
        float_bits::finite(roots::root(x)),
        !float_bits::negative(roots::root(x)),
        roots::root(x) <= 192 * 0x80_0000,
        size(value(roots::root(x)) * value(roots::root(x)) - value(x)) <= 4real * (grain() * value(
            x,
        )),
{
    let r = roots::root(x);
    let o = float_bits::one();
    value_has_the_sign(x);
    value_in_units(x);
    if x == 0 {
        let z = value(x);
        assert(z * z == 0real) by (nonlinear_arith)
            requires
                z == 0real,
        ;
        grains(z);
    } else {
        let u = float_bits::units(x);
        let n = u * o;
        order_laws::positive_numbers_have_units(x);
        vstd::arithmetic::power2::lemma_pow2_adds(46, 103);
        vstd::arithmetic::power2::lemma_pow2_adds(23, 23);
        lemma_pow2_pos(103);
        lemma2_to64();
        let one_grid = pow2(0) as int;
        assert((0x80_0000 * one_grid) * (0x80_0000 * one_grid) == 0x4000_0000_0000)
            by (nonlinear_arith)
            requires
                one_grid == 1,
        ;
        assert(o >= 0x4000_0000_0000) by (nonlinear_arith)
            requires
                o == pow2(46) * pow2(103),
                pow2(46) == 0x4000_0000_0000,
                pow2(103) >= 1,
        ;
        assert(n >= o) by (nonlinear_arith)
            requires
                n == u * o,
                u >= 1,
                o > 0,
        ;
        lemma_root_range(x);
        lemma_root_shape(n, 0);
        assert(0 * 0x80_0000 == 0);
        value_has_the_sign(r);
        value_in_units(r);
        let w = float_bits::units(r);
        let (a, b, q) = (value(r), value(x), o as real);
        assert((w * w) as real == w as real * w as real) by (nonlinear_arith);
        assert((u * o) as real == u as real * q) by (nonlinear_arith)
            requires
                q == o as real,
        ;
        let c = q * q;
        assert(c > 0real) by (nonlinear_arith)
            requires
                c == q * q,
                q > 0real,
        ;
        let e = (w * w - n) as real;
        assert(e == (a * a - b) * c) by (nonlinear_arith)
            requires
                e == w as real * w as real - u as real * q,
                a * q == w as real,
                b * q == u as real,
                c == q * q,
        ;
        assert(n as real == b * c) by (nonlinear_arith)
            requires
                n as real == u as real * q,
                b * q == u as real,
                c == q * q,
        ;
        let f = 4194304real * (a * a - b);
        assert(f * c == 4194304real * e) by (nonlinear_arith)
            requires
                f == 4194304real * (a * a - b),
                e == (a * a - b) * c,
        ;
        assert((0x40_0000 * (w * w - n)) as real == 4194304real * e);
        common_factors_cancel(f, b, c);
        assert((-f) * c == -(f * c)) by (nonlinear_arith);
        common_factors_cancel(-f, b, c);
        grains(b);
    }
}

proof fn lemma_root_range(x: u32)
    requires
        float_bits::finite(x),
    ensures
        float_bits::units(x) * float_bits::one() < (0x100_0000 * pow2(190)) * (0x100_0000 * pow2(
            190,
        )),
{
    let d = float_bits::doublings(x);
    let (m, p) = (float_bits::mantissa(x), pow2(d) as int);
    let o = float_bits::one();
    lemma2_to64();
    lemma_pow2_pos(d);
    lemma_pow2_pos(149);
    vstd::arithmetic::power2::lemma_pow2_adds(253, 127);
    vstd::arithmetic::power2::lemma_pow2_adds(190, 190);
    vstd::arithmetic::power2::lemma_pow2_adds(149, 231);
    vstd::arithmetic::power2::lemma_pow2_adds(24, 253);
    if d < 253 {
        vstd::arithmetic::power2::lemma_pow2_strictly_increases(d, 253);
    }
    let (t, h) = (pow2(253) as int, pow2(190) as int);
    assert(m * p <= 0x100_0000 * t) by (nonlinear_arith)
        requires
            0 <= m < 0x100_0000,
            0 < p <= t,
    ;
    // `t * o` is `2^402`, the square on the right `2^428`.
    vstd::arithmetic::power2::lemma_pow2_adds(253, 149);
    vstd::arithmetic::power2::lemma_pow2_adds(380, 22);
    let z = h * h;
    assert(t * o == z * 0x40_0000) by {
        assert(pow2(22) == 0x40_0000);
    }
    lemma_pow2_pos(380);
    let u = m * p;
    assert(u * o <= (0x100_0000 * t) * o) by (nonlinear_arith)
        requires
            u <= 0x100_0000 * t,
            o > 0,
    ;
    assert((0x100_0000 * t) * o == 0x100_0000 * (t * o)) by (nonlinear_arith);
    assert((0x100_0000 * h) * (0x100_0000 * h) == 0x1_0000_0000_0000 * z) by (nonlinear_arith)
        requires
            z == h * h,
    ;
}

/// Numbers far below the largest have a finite sum.
pub proof fn small_sums_are_finite(x: u32, y: u32)
    requires
        float_bits::magnitude(x) <= 200 * 0x80_0000,
        float_bits::magnitude(y) <= 200 * 0x80_0000,
    ensures
        float_bits::finite(rounding::sum(x, y)),
{
    lemma_small_units(x);
    lemma_small_units(y);
    lemma_pow2_unfold(201);
    lemma_pow2_unfold(200);
    let v = rounding::signed_units(x) + rounding::signed_units(y);
    let m = if v < 0 {
        -v
    } else {
        v
    };
    assert(1 * pow2(201) == pow2(201));
    assert(m < 0x100_0000 * pow2(201));
    rounding::nearest_is_bounded(m, 1, 201);
    rounding::nearest_is_not_negative(m, 1);
    order_laws::zero_is_rounded_to_zero();
}

proof fn lemma_small_units(x: u32)
    requires
        float_bits::magnitude(x) <= 200 * 0x80_0000,
    ensures
        0 <= float_bits::units(x) < 0x100_0000 * pow2(200),
{
    let d = float_bits::doublings(x);
    let (m, p, t) = (float_bits::mantissa(x), pow2(d) as int, pow2(200) as int);
    lemma_pow2_pos(d);
    assert(d < 200);
    vstd::arithmetic::power2::lemma_pow2_strictly_increases(d, 200);
    assert(0 <= m * p < 0x100_0000 * t) by (nonlinear_arith)
        requires
            0 <= m < 0x100_0000,
            0 < p <= t,
    ;
}

/// A product one factor of which stands for a number it is near to.
pub proof fn products_of_near_numbers(x: u32, y: u32, exact: real, t: real)
    requires
        float_bits::finite(rounding::product(x, y)),
        size(value(x) - exact) <= t,
    ensures
        float_bits::finite(x),
        float_bits::finite(y),
        size(value(rounding::product(x, y)) - exact * value(y)) <= 2real * (t * size(value(y)))
            + grain() * size(exact * value(y)) + speck(),
{
    products_are_close(x, y);
    let (a, b) = (value(x), value(y));
    let e = a - exact;
    sizes_multiply(e, b);
    assert(e * b == a * b - exact * b) by (nonlinear_arith)
        requires
            e == a - exact,
    ;
    let tb = t * size(b);
    assert(size(e) * size(b) <= tb) by (nonlinear_arith)
        requires
            size(e) <= t,
            size(b) >= 0real,
            tb == t * size(b),
    ;
    let (y1, y2) = (size(a * b), size(exact * b));
    assert(y1 <= y2 + tb);
    let g = grain();
    grains(tb);
    assert(g * y1 <= g * y2 + g * tb) by (nonlinear_arith)
        requires
            y1 <= y2 + tb,
            g > 0real,
    ;
}

/// A sum whose parts stand for numbers that they are near to.
pub proof fn sums_of_near_numbers(x: u32, y: u32, a: real, b: real, t: real, u: real)
    requires
        float_bits::finite(rounding::sum(x, y)),
        size(value(x) - a) <= t,
        size(value(y) - b) <= u,
    ensures
        float_bits::finite(x),
        float_bits::finite(y),
        size(value(rounding::sum(x, y)) - (a + b)) <= 2real * (t + u) + grain() * (size(a) + size(
            b,
        )),
{
    sums_are_close(x, y);
    let g = grain();
    let (e, f) = (t + u, size(a) + size(b));
    let y1 = size(value(x) + value(y));
    assert(y1 <= e + f);
    grains(e);
    assert(g * y1 <= g * e + g * f) by (nonlinear_arith)
        requires
            y1 <= e + f,
            g > 0real,
    ;
}

/// A difference whose parts stand for numbers that they are near to.
pub proof fn differences_of_near_numbers(x: u32, y: u32, a: real, b: real, t: real, u: real)
    requires
        float_bits::finite(rounding::difference(x, y)),
        size(value(x) - a) <= t,
        size(value(y) - b) <= u,
    ensures
        float_bits::finite(x),
        float_bits::finite(y),
        size(value(rounding::difference(x, y)) - (a - b)) <= 2real * (t + u) + grain() * (size(a)
            + size(b)),
{
    opposites_are_exact(y);
    sums_of_near_numbers(x, rounding::opposite(y), a, -b, t, u);
}

/// A quotient times its divisor gives the dividend back, up to one rounding.
pub proof fn quotients_multiply_back(x: u32, y: u32)
    requires
        float_bits::finite(x),
        float_bits::finite(y),
        float_bits::magnitude(y) > 0,
        float_bits::finite(rounding::quotient(x, y)),
    ensures
        size(value(rounding::quotient(x, y)) * value(y) - value(x)) <= grain() * size(value(x))
            + speck() * size(value(y)),
{
    quotients_are_close(x, y);
    let (a, b, r) = (value(x), value(y), value(rounding::quotient(x, y)));
    let q = a / b;
    assert(q * b == a) by (nonlinear_arith)
        requires
            q == a / b,
            b != 0real,
    ;
    let e = r - q;
    sizes_multiply(e, b);
    sizes_multiply(q, b);
    assert(e * b == r * b - a) by (nonlinear_arith)
        requires
            e == r - q,
            q * b == a,
    ;
    let (g, s) = (grain(), speck());
    assert(size(e) * size(b) <= g * (size(q) * size(b)) + s * size(b)) by (nonlinear_arith)
        requires
            size(e) <= g * size(q) + s,
            size(b) >= 0real,
    ;
}

/// Half of the smallest positive number is far below a grain.
pub proof fn specks_are_small()
    ensures
        0real < speck() <= grain(),
        1073741824real * speck() <= grain(),
{
    lemma_half_unit();
    lemma2_to64();
    vstd::arithmetic::power2::lemma_pow2_adds(24, 125);
    vstd::arithmetic::power2::lemma_pow2_adds(30, 95);
    lemma_pow2_pos(95);
    let o = float_bits::one() as real;
    grains(1real);
    let (s, g) = (speck(), grain());
    let n = float_bits::one();
    assert(n >= 0x100_0000 * 0x4000_0000) by (nonlinear_arith)
        requires
            n == pow2(24) * (pow2(30) * pow2(95)),
            pow2(24) == 0x100_0000,
            pow2(30) == 0x4000_0000,
            pow2(95) >= 1,
    ;
    assert(o >= 16777216real * 1073741824real);
    assert(1073741824real * s <= g) by (nonlinear_arith)
        requires
            2real * s * o == 1real,
            16777216real * (g * 1real) == 1real,
            o >= 16777216real * 1073741824real,
            s > 0real,
    ;
}

/// A larger magnitude is a larger value.
pub proof fn values_follow_magnitudes(a: u32, b: u32)
    requires
        float_bits::finite(a),
        float_bits::finite(b),
        float_bits::magnitude(a) <= float_bits::magnitude(b),
    ensures
        size(value(a)) <= size(value(b)),
{
    rounding::units_follow_magnitudes(a, b);
    value_has_the_sign(a);
    value_has_the_sign(b);
    value_in_units(a);
    let o = float_bits::one() as real;
    let (x, y) = (size(value(a)), size(value(b)));
    assert(x * o <= y * o);
    common_factors_cancel(x, y, o);
}

/// One more than a count is the next count.
pub proof fn counts_go_up(n: int)
    requires
        0 <= n < 0x100_0000,
    ensures
        rounding::sum(rounding::count_value(n), ONE_BITS) == rounding::count_value(n + 1),
{
    lemma_count_units(n);
    quant_laws::one_is_one();
    let o = float_bits::one();
    assert((n + 1) * o == n * o + o) by (nonlinear_arith);
}

/// Multiplying by the inverse of a count shares out: the count times the result is the number.
pub proof fn inverse_counts_share_out(x: u32, n: int)
    requires
        0 < n <= 0x100_0000,
        float_bits::finite(
            rounding::product(x, rounding::quotient(ONE_BITS, rounding::count_value(n))),
        ),
    ensures
        float_bits::finite(x),
        size(
            value(rounding::product(x, rounding::quotient(ONE_BITS, rounding::count_value(n))))
                * (n as real) - value(x),
        ) <= 4real * (grain() * size(value(x))) + n as real * speck(),
{
    let c = rounding::count_value(n);
    let inv = rounding::quotient(ONE_BITS, c);
    let r = rounding::product(x, inv);
    counts_are_exact(n);
    one_has_value_one();
    quotients_multiply_back(ONE_BITS, c);
    products_are_close(x, inv);
    specks_are_small();
    let (g, s, nr) = (grain(), speck(), n as real);
    let (v, i, w) = (value(x), value(inv), value(r));
    grains(1real);
    let k = i * nr;
    let sn = s * nr;
    assert(sn <= g) by (nonlinear_arith)
        requires
            sn == s * nr,
            0real < nr <= 16777216real,
            1073741824real * s <= g,
            s > 0real,
    ;
    assert(size(k - 1real) <= 2real * g);
    // The product and its count.
    let f = w - v * i;
    sizes_multiply(f, nr);
    assert(f * nr == w * nr - v * k) by (nonlinear_arith)
        requires
            f == w - v * i,
            k == i * nr,
    ;
    sizes_multiply(v, i);
    sizes_multiply(v, k);
    sizes_multiply(i, nr);
    let a = size(v);
    assert(size(f) * nr <= g * (a * size(k)) + s * nr) by (nonlinear_arith)
        requires
            size(f) <= g * (a * size(i)) + s,
            size(k) == size(i) * nr,
            nr > 0real,
    ;
    assert(a * size(k) <= 2real * a) by (nonlinear_arith)
        requires
            size(k) <= 2real,
            a >= 0real,
    ;
    let b = a * size(k);
    assert(g * b <= 2real * (g * a)) by (nonlinear_arith)
        requires
            b <= 2real * a,
            g > 0real,
    ;
    sizes_multiply(v, k - 1real);
    assert(v * (k - 1real) == v * k - v) by (nonlinear_arith);
    assert(a * size(k - 1real) <= 2real * (g * a)) by (nonlinear_arith)
        requires
            size(k - 1real) <= 2real * g,
            a >= 0real,
    ;
    assert(s * nr == nr * s) by (nonlinear_arith);
}

/// The exact sum of the first `k` numbers.
pub open spec fn total(v: Seq<u32>, k: nat) -> real
    decreases k,
{
    if k == 0 {
        0real
    } else {
        total(v, (k - 1) as nat) + value(v[k - 1])
    }
}

/// The exact sum of the distances of the first `k` numbers from zero.
pub open spec fn total_size(v: Seq<u32>, k: nat) -> real
    decreases k,
{
    if k == 0 {
        0real
    } else {
        total_size(v, (k - 1) as nat) + size(value(v[k - 1]))
    }
}

/// What is finite when a sum in order is.
pub proof fn finite_sums_have_finite_parts(v: Seq<u32>, k: nat)
    requires
        float_bits::finite(loss::running_sum(v, k)),
    ensures
        forall|j: int| 0 <= j < k ==> float_bits::finite(#[trigger] v[j]),
    decreases k,
{
    if k > 0 {
        finite_sums_have_finite_parts(v, (k - 1) as nat);
    }
}

/// A sum of `k` numbers in order is the exact sum up to `2 * k` grains of the summed distances from
/// zero.
pub proof fn running_sums_are_close(v: Seq<u32>, k: nat)
    requires
        k <= 0x80_0000,
        float_bits::finite(loss::running_sum(v, k)),
    ensures
        size(value(loss::running_sum(v, k)) - total(v, k)) <= 2real * (k as real) * (grain()
            * total_size(v, k)),
        size(total(v, k)) <= total_size(v, k),
    decreases k,
{
    if k == 0 {
        one_has_value_one();
        let g1 = grain();
        assert(2real * 0real * (g1 * 0real) == 0real) by (nonlinear_arith);
    } else {
        let j = (k - 1) as nat;
        running_sums_are_close(v, j);
        let (s, x) = (loss::running_sum(v, j), v[k - 1]);
        sums_are_close(s, x);
        let (a, b) = (total_size(v, j), size(value(x)));
        let (ga, gb) = (grain() * a, grain() * b);
        grains(a);
        grains(b);
        let jr = j as real;
        let kr = k as real;
        assert(kr == jr + 1real);
        assert(jr <= 8388608real && jr >= 0real);
        let ea = 2real * jr * ga;
        // What the sum so far is off by is itself at most as large as the sum.
        assert(0real <= ea <= a) by (nonlinear_arith)
            requires
                ea == 2real * jr * ga,
                16777216real * ga == a,
                0real <= jr <= 8388608real,
                ga >= 0real,
        ;
        let y = size(value(s) + value(x));
        assert(y <= a + ea + b);
        grains(y);
        let gea = grain() * ea;
        grains(ea);
        let g1 = grain();
        assert(g1 * y <= ga + gea + gb) by (nonlinear_arith)
            requires
                y <= a + ea + b,
                g1 > 0real,
                ga == g1 * a,
                gb == g1 * b,
                gea == g1 * ea,
        ;
        assert(gea <= ga);
        let g1 = grain();
        assert(g1 * (a + b) == ga + gb) by (nonlinear_arith)
            requires
                ga == g1 * a,
                gb == g1 * b,
        ;
        assert(2real * kr * (ga + gb) >= ea + 2real * ga + 2real * gb) by (nonlinear_arith)
            requires
                kr == jr + 1real,
                ea == 2real * jr * ga,
                jr >= 0real,
                gb >= 0real,
        ;
    }
}

/// The exact sum of the first `k` products of pairs.
pub open spec fn paired(a: Seq<u32>, b: Seq<u32>, k: nat) -> real
    decreases k,
{
    if k == 0 {
        0real
    } else {
        paired(a, b, (k - 1) as nat) + value(a[k - 1]) * value(b[k - 1])
    }
}

/// The exact sum of the distances of the first `k` products from zero.
pub open spec fn paired_size(a: Seq<u32>, b: Seq<u32>, k: nat) -> real
    decreases k,
{
    if k == 0 {
        0real
    } else {
        paired_size(a, b, (k - 1) as nat) + size(value(a[k - 1]) * value(b[k - 1]))
    }
}

proof fn lemma_products_total(p: Seq<u32>, a: Seq<u32>, b: Seq<u32>, k: nat)
    requires
        forall|i: int| 0 <= i < k ==> close(#[trigger] p[i], value(a[i]) * value(b[i])),
    ensures
        size(total(p, k) - paired(a, b, k)) <= grain() * paired_size(a, b, k) + k as real
            * speck(),
        total_size(p, k) <= paired_size(a, b, k) + grain() * paired_size(a, b, k) + k as real
            * speck(),
        size(paired(a, b, k)) <= paired_size(a, b, k),
    decreases k,
{
    let g = grain();
    if k == 0 {
        let s1 = speck();
        assert(g * 0real == 0real && 0real * s1 == 0real) by (nonlinear_arith);
    } else {
        let j = (k - 1) as nat;
        lemma_products_total(p, a, b, j);
        assert(close(p[k - 1], value(a[k - 1]) * value(b[k - 1])));
        let (x, y) = (paired_size(a, b, j), size(value(a[k - 1]) * value(b[k - 1])));
        assert(g * (x + y) == g * x + g * y) by (nonlinear_arith);
        let s1 = speck();
        assert(k as real * s1 == j as real * s1 + s1) by (nonlinear_arith)
            requires
                k as real == j as real + 1real,
        ;
    }
}

/// A sum of products in order is the exact one, up to a few grains for every product.
pub proof fn sums_of_products_are_close(p: Seq<u32>, a: Seq<u32>, b: Seq<u32>, k: nat)
    requires
        k <= 0x80_0000,
        float_bits::finite(loss::running_sum(p, k)),
        forall|i: int| 0 <= i < k ==> #[trigger] p[i] == rounding::product(a[i], b[i]),
    ensures
        size(value(loss::running_sum(p, k)) - paired(a, b, k)) <= (4real * (k as real) + 1real) * (
        grain() * paired_size(a, b, k)) + 2real * (k as real * speck()),
        size(paired(a, b, k)) <= paired_size(a, b, k),
{
    finite_sums_have_finite_parts(p, k);
    assert forall|i: int| 0 <= i < k implies close(#[trigger] p[i], value(a[i]) * value(b[i])) by {
        assert(p[i] == rounding::product(a[i], b[i]));
        products_are_close(a[i], b[i]);
    }
    lemma_products_total(p, a, b, k);
    running_sums_are_close(p, k);
    specks_are_small();
    let (g, s, kr) = (grain(), speck(), k as real);
    let (x, t) = (paired_size(a, b, k), total_size(p, k));
    let (gx, ks) = (g * x, kr * s);
    grains(x);
    assert(ks >= 0real) by (nonlinear_arith)
        requires
            ks == kr * s,
            kr >= 0real,
            s > 0real,
    ;
    let gt = g * t;
    assert(gt <= gx + g * gx + g * ks) by (nonlinear_arith)
        requires
            t <= x + gx + ks,
            gt == g * t,
            gx == g * x,
            g > 0real,
    ;
    grains(gx);
    grains(ks);
    assert(2real * kr * gt <= 4real * kr * gx + ks) by (nonlinear_arith)
        requires
            gt <= 2real * gx + g * ks,
            16777216real * (g * ks) == ks,
            g * ks >= 0real,
            0real <= kr <= 8388608real,
    ;
    assert((4real * kr + 1real) * gx == 4real * kr * gx + gx) by (nonlinear_arith);
}

} // verus!
