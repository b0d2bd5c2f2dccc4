//! Correctly rounded arithmetic on bit patterns: products, quotients and rounding to whole numbers.
//!
//! Every operation is stated as the exact rational result rounded to the nearest representable
//! value, ties to the even mantissa.

use crate::float_bits;
use crate::float_bits::{INFINITY_BITS, NAN_BITS, SIGN_BIT, STEP};
use vstd::arithmetic::div_mod::*;
use vstd::arithmetic::power2::*;
use vstd::prelude::*;

verus! {

/// `num / den` rounded to a whole number, ties to the even one.
pub open spec fn round_half_even(num: int, den: int) -> int {
    let q = num / den;
    let r = num % den;
    if 2 * r > den || (2 * r == den && q % 2 == 1) {
        q + 1
    } else {
        q
    }
}

/// The magnitude nearest to `num / den` units, before the cap at infinity. As long as the value
/// does not fit twenty-four mantissa bits the grid doubles, which is one exponent step.
pub open spec fn nearest(num: int, den: int) -> int
    decreases num - den,
{
    if den <= 0 {
        0
    } else if num < 0x100_0000 * den {
        round_half_even(num, den)
    } else {
        STEP + nearest(num, 2 * den)
    }
}

/// The nearest magnitude, or infinity where it is out of range.
pub open spec fn capped(m: int) -> int {
    if m < INFINITY_BITS {
        m
    } else {
        INFINITY_BITS as int
    }
}

/// `a * 2^k / b` as a fraction of whole numbers.
pub open spec fn scaled_nearest(a: int, b: int, k: int) -> int {
    if k >= 0 {
        nearest(a * pow2(k as nat), b)
    } else {
        nearest(a, b * pow2((-k) as nat))
    }
}

/// Rounding a value that is not negative gives a magnitude.
pub proof fn nearest_is_not_negative(num: int, den: int)
    requires
        num >= 0,
        den > 0,
    ensures
        nearest(num, den) >= 0,
    decreases num - den,
{
    if num < 0x100_0000 * den {
        lemma_div_pos_is_pos(num, den);
    } else {
        nearest_is_not_negative(num, 2 * den);
    }
}

proof fn lemma_round_half_even_scale(num: int, den: int)
    requires
        den > 0,
        num >= 0,
    ensures
        round_half_even(2 * num, 2 * den) == round_half_even(num, den),
{
    let q = num / den;
    let r = num % den;
    lemma_fundamental_div_mod(num, den);
    assert(2 * num == q * (2 * den) + 2 * r) by (nonlinear_arith)
        requires
            num == den * q + r,
    ;
    lemma_fundamental_div_mod_converse(2 * num, 2 * den, q, 2 * r);
}

proof fn lemma_nearest_scale(num: int, den: int)
    requires
        den > 0,
        num >= 0,
    ensures
        nearest(2 * num, 2 * den) == nearest(num, den),
    decreases num - den,
{
    if num < 0x100_0000 * den {
        lemma_round_half_even_scale(num, den);
    } else {
        lemma_nearest_scale(num, 2 * den);
    }
}

/// A doubling of the numerator pays for one binary exponent.
proof fn lemma_scaled_shift_up(a: int, b: int, k: int)
    requires
        b > 0,
        k > 0,
    ensures
        scaled_nearest(a, b, k) == scaled_nearest(2 * a, b, k - 1),
{
    lemma_pow2_unfold(k as nat);
    let p = pow2((k - 1) as nat) as int;
    assert(a * (2 * p) == (2 * a) * p) by (nonlinear_arith);
}

/// A numerator beyond twenty-four bits gives up one exponent step.
proof fn lemma_scaled_step(a: int, b: int, k: int)
    requires
        b > 0,
        k > 0,
        a >= 0x100_0000 * b,
    ensures
        scaled_nearest(a, b, k) == STEP + scaled_nearest(a, b, k - 1),
{
    lemma_pow2_unfold(k as nat);
    lemma_pow2_pos((k - 1) as nat);
    let p = pow2((k - 1) as nat) as int;
    assert(a * (2 * p) == 2 * (a * p)) by (nonlinear_arith);
    assert(2 * (a * p) >= a && a * p >= 0) by (nonlinear_arith)
        requires
            p >= 1,
            a >= 0,
    ;
    lemma_nearest_scale(a * p, b);
}

/// A numerator beyond twenty-four bits gives up every exponent step.
proof fn lemma_scaled_steps(a: int, b: int, k: int)
    requires
        b > 0,
        k >= 0,
        a >= 0x100_0000 * b,
    ensures
        scaled_nearest(a, b, k) == STEP * k + scaled_nearest(a, b, 0),
    decreases k,
{
    if k > 0 {
        lemma_scaled_step(a, b, k);
        lemma_scaled_steps(a, b, k - 1);
    }
}

/// A doubling of the denominator uses up one negative exponent.
proof fn lemma_scaled_shift_down(a: int, b: int, k: int)
    requires
        b > 0,
        k < 0,
    ensures
        scaled_nearest(a, b, k) == scaled_nearest(a, 2 * b, k + 1),
{
    lemma_pow2_unfold((-k) as nat);
    let p = pow2((-k - 1) as nat) as int;
    assert(b * (2 * p) == (2 * b) * p) by (nonlinear_arith);
    if k == -1 {
        lemma2_to64();
        assert(p == 1);
        assert(a * 1 == a && (2 * b) * 1 == 2 * b) by (nonlinear_arith);
    }
}

/// A value below a quarter of a unit rounds to zero.
proof fn lemma_scaled_vanishes(a: int, b: int, k: int)
    requires
        a >= 0,
        b > 4 * a,
        k <= 0,
    ensures
        scaled_nearest(a, b, k) == 0,
{
    let p = pow2((-k) as nat) as int;
    lemma_pow2_pos((-k) as nat);
    assert(b * p >= b) by (nonlinear_arith)
        requires
            b > 0,
            p >= 1,
    ;
    if k == 0 {
        lemma2_to64();
        assert(a * 1 == a) by (nonlinear_arith);
        lemma_small_mod(a as nat, b as nat);
        lemma_fundamental_div_mod_converse(a, b, 0, a);
    } else {
        lemma_fundamental_div_mod_converse(a, b * p, 0, a);
    }
}

/// `a * 2^k / b` units rounded to the nearest magnitude.
fn round_scaled(a: u64, b: u64, k: i32) -> (r: u32)
    requires
        0 < b < 0x100_0000,
        -500 <= k <= 500,
    ensures
        r == capped(scaled_nearest(a as int, b as int, k as int)),
{
    let mut num: u128 = a as u128;
    let mut den: u128 = b as u128;
    let mut j: i32 = k;
    let mut acc: u128 = 0;
    while j > 0
        invariant
            den == b,
            0 < b < 0x100_0000,
            num < 0x1_0000_0000_0000_0000,
            j <= k || j == k,
            k <= 500,
            j < k ==> j >= 0,
            acc + scaled_nearest(num as int, den as int, j as int) == scaled_nearest(
                a as int,
                b as int,
                k as int,
            ),
            acc <= 0x80_0000 * (k - j),
            k <= 0 ==> acc == 0,
        decreases j,
    {
        if num < 0x100_0000 * den {
            proof {
                lemma_scaled_shift_up(num as int, den as int, j as int);
            }
            num = 2 * num;
            j = j - 1;
        } else {
            proof {
                lemma_scaled_steps(num as int, den as int, j as int);
            }
            acc = acc + 0x80_0000 * (j as u128);
            j = 0;
        }
    }
    while j < 0
        invariant
            j <= 0,
            0 < den < 0x10_0000_0000_0000_0000,
            num < 0x1_0000_0000_0000_0000,
            j < 0 ==> acc == 0,
            acc + scaled_nearest(num as int, den as int, j as int) == scaled_nearest(
                a as int,
                b as int,
                k as int,
            ),
        decreases -j,
    {
        if den > 4 * num {
            proof {
                lemma_scaled_vanishes(num as int, den as int, j as int);
            }
            return 0;
        }
        proof {
            lemma_scaled_shift_down(num as int, den as int, j as int);
        }
        den = 2 * den;
        j = j + 1;
    }
    proof {
        lemma2_to64();
        assert(num * 1 == num) by (nonlinear_arith);
    }
    while num >= 0x100_0000 * den
        invariant
            0 < den < 0x10_0000_0000_0000_0000,
            num < 0x1_0000_0000_0000_0000,
            acc <= 0x80_0000 * 500 + 0x80_0000 * den,
            den > 0x200_0000_0000 ==> num < 0x100_0000 * den,
            acc + nearest(num as int, den as int) == scaled_nearest(a as int, b as int, k as int),
        decreases num - den,
    {
        den = 2 * den;
        acc = acc + 0x80_0000;
    }
    let q: u128 = num / den;
    let r: u128 = num % den;
    let m: u128 = if 2 * r > den || (2 * r == den && q % 2 == 1) {
        q + 1
    } else {
        q
    };
    proof {
        assert(q < 0x100_0000) by (nonlinear_arith)
            requires
                q == num / den,
                num < 0x100_0000 * den,
                den > 0,
        ;
    }
    let total: u128 = acc + m;
    if total < INFINITY_BITS as u128 {
        total as u32
    } else {
        INFINITY_BITS
    }
}

/// Common powers of two cancel.
proof fn lemma_nearest_cancel(a: int, b: int, n: nat)
    requires
        a >= 0,
        b > 0,
    ensures
        nearest(a * pow2(n), b * pow2(n)) == nearest(a, b),
    decreases n,
{
    if n == 0 {
        lemma2_to64();
        assert(a * 1 == a && b * 1 == b) by (nonlinear_arith);
    } else {
        let p = pow2((n - 1) as nat) as int;
        lemma_pow2_unfold(n);
        lemma_pow2_pos((n - 1) as nat);
        assert(a * (2 * p) == 2 * (a * p) && b * (2 * p) == 2 * (b * p)) by (nonlinear_arith);
        assert(a * p >= 0 && b * p > 0) by (nonlinear_arith)
            requires
                a >= 0,
                b > 0,
                p > 0,
        ;
        lemma_nearest_scale(a * p, b * p);
        lemma_nearest_cancel(a, b, (n - 1) as nat);
    }
}

/// A fraction of two scaled mantissas depends on the difference of the exponents alone.
proof fn lemma_fraction(a: int, b: int, p: nat, q: nat)
    requires
        a >= 0,
        b > 0,
    ensures
        nearest(a * pow2(p), b * pow2(q)) == scaled_nearest(a, b, p - q),
{
    if p >= q {
        let d = (p - q) as nat;
        lemma_pow2_adds(d, q);
        lemma_pow2_pos(d);
        assert(a * (pow2(d) * pow2(q)) == (a * pow2(d)) * pow2(q)) by (nonlinear_arith);
        assert(a * pow2(d) >= 0) by (nonlinear_arith)
            requires
                a >= 0,
                pow2(d) > 0,
        ;
        lemma_nearest_cancel(a * pow2(d), b, q);
    } else {
        let d = (q - p) as nat;
        lemma_pow2_adds(d, p);
        lemma_pow2_pos(d);
        assert(b * (pow2(d) * pow2(p)) == (b * pow2(d)) * pow2(p)) by (nonlinear_arith);
        assert(b * pow2(d) > 0) by (nonlinear_arith)
            requires
                b > 0,
                pow2(d) > 0,
        ;
        lemma_nearest_cancel(a, b * pow2(d), p);
    }
}

/// `x / y` in single precision.
pub open spec fn quotient(x: u32, y: u32) -> u32 {
    let sign = float_bits::sign_of(float_bits::negative(x) != float_bits::negative(y));
    if float_bits::nan(x) || float_bits::nan(y) || (float_bits::infinite(x)
        && float_bits::infinite(y)) || (float_bits::magnitude(x) == 0 && float_bits::magnitude(y)
        == 0) {
        NAN_BITS
    } else if float_bits::infinite(x) || float_bits::magnitude(y) == 0 {
        (sign + INFINITY_BITS) as u32
    } else if float_bits::infinite(y) {
        sign as u32
    } else {
        (sign + capped(
            nearest(float_bits::units(x) * float_bits::one(), float_bits::units(y)),
        )) as u32
    }
}

/// `x * y` in single precision.
pub open spec fn product(x: u32, y: u32) -> u32 {
    let sign = float_bits::sign_of(float_bits::negative(x) != float_bits::negative(y));
    if float_bits::nan(x) || float_bits::nan(y) || (float_bits::infinite(x)
        && float_bits::magnitude(y) == 0) || (float_bits::magnitude(x) == 0
        && float_bits::infinite(y)) {
        NAN_BITS
    } else if float_bits::infinite(x) || float_bits::infinite(y) {
        (sign + INFINITY_BITS) as u32
    } else {
        (sign + capped(
            nearest(float_bits::units(x) * float_bits::units(y), float_bits::one()),
        )) as u32
    }
}

/// The mantissa of a finite pattern vanishes with its magnitude only.
proof fn lemma_mantissa_positive(x: u32)
    requires
        float_bits::finite(x),
        float_bits::magnitude(x) != 0,
    ensures
        float_bits::mantissa(x) > 0,
        float_bits::units(x) > 0,
{
    lemma_pow2_pos(float_bits::doublings(x));
    assert(float_bits::mantissa(x) > 0);
    assert(float_bits::mantissa(x) * pow2(float_bits::doublings(x)) > 0) by (nonlinear_arith)
        requires
            float_bits::mantissa(x) > 0,
            pow2(float_bits::doublings(x)) > 0,
    ;
}

/// `x / y`, rounded to nearest.
pub fn divide(x: u32, y: u32) -> (r: u32)
    ensures
        r == quotient(x, y),
{
    let mx: u32 = float_bits::abs_bits(x);
    let my: u32 = float_bits::abs_bits(y);
    let sign: u32 = if float_bits::is_negative(x) != float_bits::is_negative(y) {
        SIGN_BIT
    } else {
        0
    };
    if mx > INFINITY_BITS || my > INFINITY_BITS || (mx == INFINITY_BITS && my == INFINITY_BITS) || (
    mx == 0 && my == 0) {
        return NAN_BITS;
    }
    if mx == INFINITY_BITS || my == 0 {
        return sign + INFINITY_BITS;
    }
    if my == INFINITY_BITS {
        return sign;
    }
    let (a, p) = float_bits::split_bits(x);
    let (b, q) = float_bits::split_bits(y);
    proof {
        lemma_mantissa_positive(y);
        lemma_fraction(a as int, b as int, (p + 149) as nat, q as nat);
        lemma_pow2_adds(p as nat, 149);
        assert((a * pow2(p as nat)) * pow2(149) == a * (pow2(p as nat) * pow2(149)))
            by (nonlinear_arith);
    }
    let m: u32 = round_scaled(a as u64, b as u64, p as i32 + 149 - q as i32);
    sign + m
}

/// `x * y`, rounded to nearest.
pub fn multiply(x: u32, y: u32) -> (r: u32)
    ensures
        r == product(x, y),
{
    let mx: u32 = float_bits::abs_bits(x);
    let my: u32 = float_bits::abs_bits(y);
    let sign: u32 = if float_bits::is_negative(x) != float_bits::is_negative(y) {
        SIGN_BIT
    } else {
        0
    };
    if mx > INFINITY_BITS || my > INFINITY_BITS || (mx == INFINITY_BITS && my == 0) || (mx == 0
        && my == INFINITY_BITS) {
        return NAN_BITS;
    }
    if mx == INFINITY_BITS || my == INFINITY_BITS {
        return sign + INFINITY_BITS;
    }
    let (a, p) = float_bits::split_bits(x);
    let (b, q) = float_bits::split_bits(y);
    assert(a * b < 0x1_0000_0000_0000) by (nonlinear_arith)
        requires
            a < 0x100_0000,
            b < 0x100_0000,
    ;
    proof {
        lemma_fraction(a * b, 1, (p + q) as nat, 149);
        lemma_pow2_adds(p as nat, q as nat);
        assert((a * pow2(p as nat)) * (b * pow2(q as nat)) == (a * b) * (pow2(p as nat) * pow2(
            q as nat,
        ))) by (nonlinear_arith);
        assert(a * b >= 0) by (nonlinear_arith);
        assert(1 * pow2(149) == pow2(149));
    }
    let m: u32 = round_scaled(a as u64 * b as u64, 1, p as i32 + q as i32 - 149);
    sign + m
}

/// `num / den` rounded to a whole number, ties away from zero.
pub open spec fn round_half_away(num: int, den: int) -> int {
    (2 * num + den) / (2 * den)
}

/// `x` rounded to the nearest whole number (ties away from zero) and held to `-limit..=limit`; a
/// NaN counts as zero.
pub open spec fn whole(x: u32, limit: int) -> int {
    if float_bits::nan(x) {
        0
    } else {
        let w = if float_bits::infinite(x) {
            limit
        } else {
            let k = round_half_away(float_bits::units(x), float_bits::one());
            if k < limit {
                k
            } else {
                limit
            }
        };
        if float_bits::negative(x) {
            -w
        } else {
            w
        }
    }
}

/// A half-away rounding does not depend on how far the fraction is expanded.
proof fn lemma_round_half_away_expand(a: int, n: nat, c: nat)
    requires
        a >= 0,
    ensures
        round_half_away(a * pow2(c), pow2(n + c) as int) == round_half_away(a, pow2(n) as int),
{
    let d = pow2(n) as int;
    let p = pow2(c) as int;
    lemma_pow2_pos(n);
    lemma_pow2_pos(c);
    lemma_pow2_adds(n, c);
    let num = 2 * a + d;
    let q = num / (2 * d);
    let r = num % (2 * d);
    lemma_fundamental_div_mod(num, 2 * d);
    assert(2 * (a * p) + d * p == q * (2 * (d * p)) + r * p) by (nonlinear_arith)
        requires
            2 * a + d == (2 * d) * q + r,
    ;
    assert(0 <= r * p < 2 * (d * p)) by (nonlinear_arith)
        requires
            0 <= r < 2 * d,
            p > 0,
    ;
    lemma_fundamental_div_mod_converse(2 * (a * p) + d * p, 2 * (d * p), q, r * p);
}

/// Rounds to a whole number held to `-limit..=limit`.
pub fn to_whole(x: u32, limit: i8) -> (r: i8)
    requires
        0 <= limit <= 127,
    ensures
        r == whole(x, limit as int),
{
    let m: u32 = float_bits::abs_bits(x);
    if m > INFINITY_BITS {
        return 0;
    }
    let w: i8 = if m == INFINITY_BITS {
        limit
    } else {
        let (a, p) = float_bits::split_bits(x);
        if p >= 149 {
            proof {
                lemma_whole_large(x, limit as int);
            }
            limit
        } else {
            let n: u32 = 149 - p;
            proof {
                lemma_round_half_away_expand(a as int, n as nat, p as nat);
            }
            if n > 25 {
                proof {
                    lemma_whole_small(a as int, n as nat);
                }
                0
            } else {
                let d: u64 = 1u64 << n;
                proof {
                    lemma2_to64();
                    lemma_pow2_strictly_increases(n as nat, 26);
                    vstd::bits::lemma_u64_shl_is_mul(1, n as u64);
                }
                let k: u64 = (2 * (a as u64) + d) / (2 * d);
                if k < limit as u64 {
                    k as i8
                } else {
                    limit
                }
            }
        }
    };
    if float_bits::is_negative(x) {
        -w
    } else {
        w
    }
}

/// A normal number of `2^149` units or more is at least `2^23`.
proof fn lemma_whole_large(x: u32, limit: int)
    requires
        float_bits::finite(x),
        float_bits::doublings(x) >= 149,
        0 <= limit <= 127,
    ensures
        round_half_away(float_bits::units(x), float_bits::one()) >= limit,
{
    let a = float_bits::mantissa(x);
    let c = (float_bits::doublings(x) - 149) as nat;
    lemma_pow2_adds(c, 149);
    lemma_pow2_pos(c);
    lemma_pow2_pos(149);
    let u = float_bits::units(x);
    let o = float_bits::one();
    assert(u == (a * pow2(c)) * o) by (nonlinear_arith)
        requires
            u == a * (pow2(c) * o),
    ;
    assert(a * pow2(c) >= 0x80_0000) by (nonlinear_arith)
        requires
            a >= 0x80_0000,
            pow2(c) >= 1,
    ;
    let w = a * pow2(c);
    assert((2 * u + o) / (2 * o) >= w) by {
        assert(2 * u + o == w * (2 * o) + o) by (nonlinear_arith)
            requires
                u == w * o,
        ;
        lemma_fundamental_div_mod_converse(2 * u + o, 2 * o, w, o);
    }
}

/// Less than a quarter rounds to zero.
proof fn lemma_whole_small(a: int, n: nat)
    requires
        0 <= a < 0x100_0000,
        n > 25,
    ensures
        round_half_away(a, pow2(n) as int) == 0,
{
    lemma2_to64();
    if n > 26 {
        lemma_pow2_strictly_increases(26, n);
    }
    let d = pow2(n) as int;
    lemma_fundamental_div_mod_converse(2 * a + d, 2 * d, 0, 2 * a + d);
}

/// The value of a finite pattern in units, with its sign.
pub open spec fn signed_units(x: u32) -> int {
    if float_bits::negative(x) {
        -float_bits::units(x)
    } else {
        float_bits::units(x)
    }
}

/// A whole number of units rounded to single precision.
pub open spec fn from_units(v: int) -> u32 {
    if v < 0 {
        (SIGN_BIT + capped(nearest(-v, 1))) as u32
    } else {
        capped(nearest(v, 1)) as u32
    }
}

/// `x + y` in single precision.
pub open spec fn sum(x: u32, y: u32) -> u32 {
    if float_bits::nan(x) || float_bits::nan(y) {
        NAN_BITS
    } else if float_bits::infinite(x) {
        if float_bits::infinite(y) && x != y {
            NAN_BITS
        } else {
            x
        }
    } else if float_bits::infinite(y) {
        y
    } else if x == SIGN_BIT && y == SIGN_BIT {
        SIGN_BIT
    } else {
        from_units(signed_units(x) + signed_units(y))
    }
}

/// `-x`: only the sign bit changes.
pub open spec fn opposite(x: u32) -> u32 {
    if float_bits::negative(x) {
        (x - SIGN_BIT) as u32
    } else {
        (x + SIGN_BIT) as u32
    }
}

/// `x - y` in single precision.
pub open spec fn difference(x: u32, y: u32) -> u32 {
    sum(x, opposite(y))
}

/// Twenty-four mantissa bits on a doubled grid keep their value under an error below a quarter of
/// the grid.
proof fn lemma_nearest_absorbs(m: int, d: nat, e: int, den: int)
    requires
        0x80_0000 <= m < 0x100_0000,
        den > 0,
        -(pow2(d) * den) < 4 * e,
        4 * e < pow2(d) * den,
    ensures
        nearest(m * (pow2(d) * den) + e, den) == d * STEP + m,
    decreases d,
{
    let g = pow2(d) * den;
    let num = m * g + e;
    lemma_pow2_pos(d);
    assert(g > 0) by (nonlinear_arith)
        requires
            g == pow2(d) * den,
            pow2(d) > 0,
            den > 0,
    ;
    if d == 0 {
        lemma2_to64();
        assert(pow2(0) * den == den) by (nonlinear_arith)
            requires
                pow2(0) == 1,
        ;
        assert(g == den);
        if e >= 0 {
            assert(num == m * den + e);
            lemma_fundamental_div_mod_converse(num, den, m, e);
            assert(num < 0x100_0000 * den) by (nonlinear_arith)
                requires
                    num == m * den + e,
                    m < 0x100_0000,
                    e < den,
                    den > 0,
            ;
        } else {
            assert(num == (m - 1) * den + (den + e)) by (nonlinear_arith)
                requires
                    num == m * den + e,
            ;
            lemma_fundamental_div_mod_converse(num, den, m - 1, den + e);
            assert(num < 0x100_0000 * den) by (nonlinear_arith)
                requires
                    num == m * den + e,
                    m < 0x100_0000,
                    e < 0,
                    den > 0,
            ;
        }
    } else {
        let h = pow2((d - 1) as nat) * den;
        lemma_pow2_unfold(d);
        lemma_pow2_pos((d - 1) as nat);
        assert(g == 2 * h) by (nonlinear_arith)
            requires
                g == (2 * pow2((d - 1) as nat)) * den,
                h == pow2((d - 1) as nat) * den,
        ;
        assert(h >= den) by (nonlinear_arith)
            requires
                h == pow2((d - 1) as nat) * den,
                pow2((d - 1) as nat) >= 1,
                den > 0,
        ;
        if num >= 0x100_0000 * den {
            assert(pow2((d - 1) as nat) * (2 * den) == g) by (nonlinear_arith)
                requires
                    g == (2 * pow2((d - 1) as nat)) * den,
            ;
            lemma_nearest_absorbs(m, (d - 1) as nat, e, 2 * den);
        } else {
            // only at the bottom of the binade, one grid step away
            assert(m == 0x80_0000 && h == den && e < 0) by (nonlinear_arith)
                requires
                    m * (2 * h) + e < 0x100_0000 * den,
                    m >= 0x80_0000,
                    h >= den,
                    -2 * h < 4 * e,
                    den > 0,
                    h == pow2((d - 1) as nat) * den,
                    pow2((d - 1) as nat) >= 1,
            ;
            assert(d == 1) by {
                if d > 1 {
                    lemma_pow2_unfold((d - 1) as nat);
                    lemma_pow2_pos((d - 2) as nat);
                    assert(h >= 2 * den) by (nonlinear_arith)
                        requires
                            h == (2 * pow2((d - 2) as nat)) * den,
                            pow2((d - 2) as nat) >= 1,
                            den > 0,
                    ;
                }
            }
            assert(num == 0xff_ffff * den + (den + e));
            lemma_fundamental_div_mod_converse(num, den, 0xff_ffff, den + e);
        }
    }
}

/// Mantissa and doublings put back together give the magnitude.
proof fn lemma_magnitude_parts(x: u32)
    requires
        float_bits::finite(x),
        float_bits::doublings(x) > 0,
    ensures
        float_bits::magnitude(x) == float_bits::doublings(x) * STEP + float_bits::mantissa(x),
        0x80_0000 <= float_bits::mantissa(x) < 0x100_0000,
{
}

/// A summand more than twenty-six binary orders smaller does not change the sum.
proof fn lemma_sum_absorbs(x: u32, y: u32)
    requires
        float_bits::finite(x),
        float_bits::finite(y),
        float_bits::doublings(x) >= float_bits::doublings(y) + 27,
    ensures
        from_units(signed_units(x) + signed_units(y)) == x,
        from_units(signed_units(y) + signed_units(x)) == x,
{
    let a = float_bits::mantissa(x);
    let b = float_bits::mantissa(y);
    let p = float_bits::doublings(x);
    let q = float_bits::doublings(y);
    let d = (p - q) as nat;
    lemma_magnitude_parts(x);
    lemma_pow2_adds(d, q);
    lemma_pow2_pos(q);
    lemma2_to64();
    if d > 27 {
        lemma_pow2_strictly_increases(27, d);
    }
    let e = float_bits::units(y);
    let g = pow2(p) as int;
    assert(0 <= 4 * e && 4 * e < g) by (nonlinear_arith)
        requires
            e == b * pow2(q),
            0 <= b < 0x100_0000,
            g == pow2(d) * pow2(q),
            pow2(d) >= 0x800_0000,
            pow2(q) > 0,
    ;
    assert(g * 1 == g);
    lemma_nearest_absorbs(a, p, e, 1);
    lemma_nearest_absorbs(a, p, -e, 1);
    assert(a * g > e) by (nonlinear_arith)
        requires
            a >= 1,
            4 * e < g,
            g > 0,
    ;
}

/// A count in single precision.
pub open spec fn count_value(n: int) -> u32 {
    from_units(n * float_bits::one())
}

/// The single-precision number nearest to a count.
pub fn from_count(n: u64) -> (r: u32)
    ensures
        r == count_value(n as int),
{
    proof {
        lemma_pow2_pos(149);
        assert(n * pow2(149) >= 0) by (nonlinear_arith)
            requires
                n >= 0,
                pow2(149) > 0,
        ;
    }
    round_scaled(n, 1, 149)
}

/// `x + y`, rounded to nearest.
pub fn plus(x: u32, y: u32) -> (r: u32)
    ensures
        r == sum(x, y),
{
    let mx: u32 = float_bits::abs_bits(x);
    let my: u32 = float_bits::abs_bits(y);
    if mx > INFINITY_BITS || my > INFINITY_BITS {
        return NAN_BITS;
    }
    if mx == INFINITY_BITS {
        return if my == INFINITY_BITS && x != y {
            NAN_BITS
        } else {
            x
        };
    }
    if my == INFINITY_BITS {
        return y;
    }
    if x == SIGN_BIT && y == SIGN_BIT {
        return SIGN_BIT;
    }
    let (_, px) = float_bits::split_bits(x);
    let (_, py) = float_bits::split_bits(y);
    let (big, small) = if px >= py {
        (x, y)
    } else {
        (y, x)
    };
    let (a, p) = float_bits::split_bits(big);
    let (b, q) = float_bits::split_bits(small);
    let d: u32 = p - q;
    if d >= 27 {
        proof {
            lemma_sum_absorbs(big, small);
        }
        return big;
    }
    proof {
        lemma2_to64();
        lemma_pow2_strictly_increases(d as nat, 27);
        vstd::bits::lemma_u64_shl_is_mul(1, d as u64);
        let s = pow2(d as nat) as int;
        assert(0 <= a * s < 0x8_0000_0000_0000) by (nonlinear_arith)
            requires
                0 <= a < 0x100_0000,
                0 <= s < 0x800_0000,
        ;
    }
    let shifted: i64 = (a as i64) * ((1u64 << d) as i64);
    let left: i64 = if float_bits::is_negative(big) {
        -shifted
    } else {
        shifted
    };
    let right: i64 = if float_bits::is_negative(small) {
        -(b as i64)
    } else {
        b as i64
    };
    let total: i64 = left + right;
    let w: u64 = if total < 0 {
        (-total) as u64
    } else {
        total as u64
    };
    proof {
        let g = pow2(q as nat) as int;
        let s = pow2(d as nat) as int;
        lemma_pow2_adds(d as nat, q as nat);
        lemma_pow2_pos(q as nat);
        assert(a * (s * g) == (a * s) * g) by (nonlinear_arith);
        assert(total * g == left * g + right * g) by (nonlinear_arith)
            requires
                total == left + right,
        ;
        assert((-(a * s)) * g == -((a * s) * g) && (-b) * g == -(b * g)) by (nonlinear_arith);
        assert(total < 0 ==> total * g < 0) by (nonlinear_arith)
            requires
                g > 0,
        ;
        assert(total >= 0 ==> total * g >= 0) by (nonlinear_arith)
            requires
                g > 0,
        ;
        assert((-total) * g == -(total * g)) by (nonlinear_arith);
    }
    let m: u32 = round_scaled(w, 1, q as i32);
    if total < 0 {
        SIGN_BIT + m
    } else {
        m
    }
}

/// `-x`.
pub fn negate(x: u32) -> (r: u32)
    ensures
        r == opposite(x),
{
    if x >= SIGN_BIT {
        x - SIGN_BIT
    } else {
        x + SIGN_BIT
    }
}

/// `x - y`, rounded to nearest.
pub fn minus(x: u32, y: u32) -> (r: u32)
    ensures
        r == difference(x, y),
{
    plus(x, negate(y))
}

/// A representable value is its own rounding.
pub proof fn representable_values_are_kept(x: u32)
    requires
        float_bits::finite(x),
    ensures
        nearest(float_bits::units(x), 1) == float_bits::magnitude(x),
        from_units(float_bits::units(x)) == float_bits::magnitude(x),
{
    let m = float_bits::mantissa(x);
    let d = float_bits::doublings(x);
    lemma2_to64();
    if d == 0 {
        assert(m * 1 == m);
        lemma_fundamental_div_mod_converse(m, 1, m, 0);
    } else {
        lemma_magnitude_parts(x);
        lemma_pow2_pos(d);
        assert(pow2(d) * 1 == pow2(d));
        lemma_nearest_absorbs(m, d, 0, 1);
    }
    lemma_pow2_pos(d);
    assert(m * pow2(d) >= 0) by (nonlinear_arith)
        requires
            m >= 0,
            pow2(d) > 0,
    ;
}

/// The pattern with mantissa `m` on the grid `2^j` is worth `m * 2^j` units.
pub proof fn units_of_mantissa(j: nat, m: int)
    requires
        0 <= m <= 0x100_0000,
        j > 0 ==> m >= 0x80_0000,
        j * STEP + m < INFINITY_BITS,
    ensures
        float_bits::units((j * STEP + m) as u32) == m * pow2(j),
{
    let b = (j * STEP + m) as u32;
    assert(b == j * STEP + m);
    assert(!float_bits::negative(b));
    lemma2_to64();
    if m == 0x100_0000 {
        lemma_fundamental_div_mod_converse(b as int, 0x80_0000, (j + 2) as int, 0);
        lemma_pow2_unfold((j + 1) as nat);
        assert(0x80_0000 * (2 * pow2(j)) == 0x100_0000 * pow2(j)) by (nonlinear_arith);
    } else if m >= 0x80_0000 {
        lemma_fundamental_div_mod_converse(b as int, 0x80_0000, (j + 1) as int, m - 0x80_0000);
    } else {
        lemma_fundamental_div_mod_converse(b as int, 0x80_0000, 0, m);
    }
}

/// The rounded value is off by at most half a grid step, where the grid is the coarsest one that
/// the exact value needs.
pub proof fn nearest_is_within_half_a_step(num: int, den: int, n: nat)
    requires
        num >= 0,
        den > 0,
        num < 0x100_0000 * (den * pow2(n)),
        nearest(num, den) < INFINITY_BITS,
    ensures
        0 <= nearest(num, den),
        2 * (float_bits::units(nearest(num, den) as u32) * den - num) <= den * pow2(n),
        2 * (num - float_bits::units(nearest(num, den) as u32) * den) <= den * pow2(n),
{
    lemma2_to64();
    assert(den * 1 == den);
    lemma_nearest_shape(num, den, num, den, 0, n);
}

/// A value that fits twenty-four bits on the grid `2^n` is rounded to no more than the first
/// magnitude of the next grid.
pub proof fn nearest_is_bounded(num: int, den: int, n: nat)
    requires
        num >= 0,
        den > 0,
        num < 0x100_0000 * (den * pow2(n)),
    ensures
        nearest(num, den) <= n * STEP + 0x100_0000,
    decreases n,
{
    if num < 0x100_0000 * den {
        lemma_fundamental_div_mod(num, den);
        let q = num / den;
        assert(q < 0x100_0000) by (nonlinear_arith)
            requires
                num == den * q + num % den,
                0 <= num % den,
                num < 0x100_0000 * den,
                den > 0,
        ;
    } else {
        lemma2_to64();
        assert(n > 0) by {
            if n == 0 {
                assert(den * 1 == den);
            }
        }
        lemma_pow2_unfold(n);
        assert(den * (2 * pow2((n - 1) as nat)) == (2 * den) * pow2((n - 1) as nat))
            by (nonlinear_arith);
        nearest_is_bounded(num, 2 * den, (n - 1) as nat);
        assert(n * STEP == (n - 1) * STEP + STEP) by (nonlinear_arith);
    }
}

/// A larger magnitude is a larger value.
pub proof fn units_follow_magnitudes(a: u32, b: u32)
    requires
        float_bits::finite(a),
        float_bits::finite(b),
        float_bits::magnitude(a) <= float_bits::magnitude(b),
    ensures
        0 <= float_bits::units(a) <= float_bits::units(b),
{
    let (ma, mb) = (float_bits::mantissa(a), float_bits::mantissa(b));
    let (da, db) = (float_bits::doublings(a), float_bits::doublings(b));
    lemma_pow2_pos(da);
    lemma_pow2_pos(db);
    if da == db {
        assert(0 <= ma <= mb);
        assert(ma * pow2(da) <= mb * pow2(db) && ma * pow2(da) >= 0) by (nonlinear_arith)
            requires
                0 <= ma <= mb,
                da == db,
                pow2(da) > 0,
        ;
    } else {
        assert(da < db);
        assert(mb >= 0x80_0000 && ma < 0x100_0000);
        lemma_pow2_strictly_increases(da, db);
        lemma_pow2_unfold(db);
        if da < db - 1 {
            lemma_pow2_strictly_increases(da, (db - 1) as nat);
        }
        assert(ma * pow2(da) <= mb * pow2(db) && ma * pow2(da) >= 0) by (nonlinear_arith)
            requires
                0 <= ma < 0x100_0000,
                mb >= 0x80_0000,
                pow2(db) == 2 * pow2((db - 1) as nat),
                pow2(da) <= pow2((db - 1) as nat),
                pow2(da) > 0,
        ;
    }
}

/// What `nearest` answers after `j` grid doublings, and how far off it is.
proof fn lemma_nearest_shape(num: int, den: int, num0: int, den0: int, j: nat, n: nat)
    requires
        num >= 0,
        den0 > 0,
        num == num0,
        den == den0 * pow2(j),
        j <= n,
        num < 0x100_0000 * (den0 * pow2(n)),
        j > 0 ==> num >= 0x80_0000 * den,
        j * STEP + nearest(num, den) < INFINITY_BITS,
    ensures
        nearest(num, den) >= 0,
        2 * (float_bits::units((j * STEP + nearest(num, den)) as u32) * den0 - num) <= den0 * pow2(
            n,
        ),
        2 * (num - float_bits::units((j * STEP + nearest(num, den)) as u32) * den0) <= den0 * pow2(
            n,
        ),
    decreases n - j,
{
    lemma_pow2_pos(j);
    lemma_pow2_pos(n);
    assert(den > 0) by (nonlinear_arith)
        requires
            den == den0 * pow2(j),
            den0 > 0,
            pow2(j) > 0,
    ;
    if num < 0x100_0000 * den {
        let m = round_half_even(num, den);
        let q = num / den;
        let r = num % den;
        lemma_fundamental_div_mod(num, den);
        assert(0 <= q < 0x100_0000) by (nonlinear_arith)
            requires
                num == den * q + r,
                0 <= r < den,
                0 <= num < 0x100_0000 * den,
        ;
        if j > 0 {
            assert(q >= 0x80_0000) by (nonlinear_arith)
                requires
                    num == den * q + r,
                    0 <= r < den,
                    num >= 0x80_0000 * den,
            ;
        }
        units_of_mantissa(j, m);
        let u = float_bits::units((j * STEP + m) as u32);
        assert(u * den0 == m * den) by (nonlinear_arith)
            requires
                u == m * pow2(j),
                den == den0 * pow2(j),
        ;
        if m == q + 1 {
            assert(m * den == q * den + den) by (nonlinear_arith)
                requires
                    m == q + 1,
            ;
        } else {
            assert(m * den == q * den);
        }
        assert(den * q == q * den) by (nonlinear_arith);
        if j < n {
            lemma_pow2_strictly_increases(j, n);
        }
        assert(den <= den0 * pow2(n)) by (nonlinear_arith)
            requires
                den == den0 * pow2(j),
                pow2(j) <= pow2(n),
                den0 > 0,
        ;
    } else {
        assert(j < n);
        lemma_pow2_unfold((j + 1) as nat);
        assert(2 * den == den0 * (2 * pow2(j))) by (nonlinear_arith)
            requires
                den == den0 * pow2(j),
        ;
        assert((j + 1) * STEP == j * STEP + STEP) by (nonlinear_arith);
        lemma_nearest_shape(num, 2 * den, num0, den0, (j + 1) as nat, n);
        assert(j * STEP + nearest(num, den) == (j + 1) * STEP + nearest(num, 2 * den));
    }
}

} // verus!
