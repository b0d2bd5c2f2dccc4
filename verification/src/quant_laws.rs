//! How faithful codes are: rounding errors and what survives a round trip.

use crate::codes::QBits;
use crate::float_bits;
use crate::float_bits::{ONE_BITS, STEP};
use crate::layer_laws;
use crate::order_laws;
use crate::quant;
use crate::rounding;
use vstd::arithmetic::div_mod::*;
use vstd::arithmetic::power2::*;
use vstd::prelude::*;

verus! {

/// The bit pattern of the largest code is worth that many ones.
proof fn lemma_qmax_value(bits: QBits)
    ensures
        float_bits::units(bits.qmax_bits()) == bits.limit() * float_bits::one(),
        float_bits::finite(bits.qmax_bits()),
        !float_bits::negative(bits.qmax_bits()),
{
    match bits {
        QBits::Int8 => {
            lemma_pow2_adds(17, 132);
            lemma2_to64();
            assert(float_bits::mantissa(0x42fe_0000) == 127 * 0x2_0000);
            assert(float_bits::doublings(0x42fe_0000) == 132);
            assert((127 * 0x2_0000) * pow2(132) == 127 * (0x2_0000 * pow2(132)))
                by (nonlinear_arith);
        },
        QBits::Int4 => {
            lemma_pow2_adds(21, 128);
            lemma2_to64();
            assert(float_bits::mantissa(0x40e0_0000) == 7 * 0x20_0000);
            assert(float_bits::doublings(0x40e0_0000) == 128);
            assert((7 * 0x20_0000) * pow2(128) == 7 * (0x20_0000 * pow2(128)))
                by (nonlinear_arith);
        },
    }
}

/// The magnitude of a code and how far it is from `|v| / scale * limit`.
proof fn lemma_code_error(u: int, s: int, limit: int, q1: u32, q2: u32, k: int)
    requires
        0 <= u <= s,
        s > 0,
        0 < limit <= 127,
        q1 == rounding::nearest(u * float_bits::one(), s),
        q2 == rounding::nearest(
            float_bits::units(q1) * (limit * float_bits::one()),
            float_bits::one(),
        ),
        k == rounding::round_half_away(float_bits::units(q2), float_bits::one()),
    ensures
        0 <= k <= limit,
        0x1_0000 * (k * s - u * limit) <= 0x8001 * s,
        0x1_0000 * (u * limit - k * s) <= 0x8001 * s,
{
    let o = float_bits::one();
    let p = pow2(125) as int;
    lemma_pow2_pos(125);
    lemma_pow2_adds(24, 125);
    lemma_pow2_adds(1, 125);
    lemma_pow2_adds(7, 125);
    lemma2_to64();
    assert(o == 0x100_0000 * p);
    // the quotient
    assert(0 <= u * o < 0x100_0000 * (s * pow2(126))) by (nonlinear_arith)
        requires
            0 <= u <= s,
            s > 0,
            o == 0x100_0000 * p,
            pow2(126) == 2 * p,
            p > 0,
    ;
    rounding::nearest_is_bounded(u * o, s, 126);
    rounding::nearest_is_within_half_a_step(u * o, s, 126);
    let u1 = float_bits::units(q1);
    let e1 = u1 * s - u * o;
    assert(s * pow2(126) == 2 * (s * p)) by (nonlinear_arith)
        requires
            pow2(126) == 2 * p,
    ;
    assert(-(s * p) <= e1 <= s * p);
    assert(u1 * s <= s * (o + p)) by (nonlinear_arith)
        requires
            u1 * s - u * o <= s * p,
            u <= s,
            o > 0,
    ;
    assert(u1 <= o + p) by (nonlinear_arith)
        requires
            u1 * s <= s * (o + p),
            s > 0,
    ;
    rounding::units_follow_magnitudes(0, q1);
    assert(float_bits::units(0) == 0) by {
        assert(0 * pow2(float_bits::doublings(0)) == 0);
    }
    assert(u1 >= 0);
    // the product
    let num = u1 * (limit * o);
    assert(num == (u1 * limit) * o) by (nonlinear_arith)
        requires
            num == u1 * (limit * o),
    ;
    assert(0 <= u1 * limit && u1 * limit < 0x8000_0000 * p) by (nonlinear_arith)
        requires
            0 <= u1 <= o + p,
            o == 0x100_0000 * p,
            0 < limit <= 127,
            p > 0,
    ;
    assert(0 <= num < 0x100_0000 * (o * pow2(132))) by (nonlinear_arith)
        requires
            num == (u1 * limit) * o,
            0 <= u1 * limit < 0x8000_0000 * p,
            pow2(132) == 128 * p,
            o > 0,
    ;
    rounding::nearest_is_bounded(num, o, 132);
    rounding::nearest_is_within_half_a_step(num, o, 132);
    let u2 = float_bits::units(q2);
    assert(o * pow2(132) == 128 * (o * p)) by (nonlinear_arith)
        requires
            pow2(132) == 128 * p,
    ;
    assert(u2 - u1 * limit <= 64 * p && u1 * limit - u2 <= 64 * p) by (nonlinear_arith)
        requires
            2 * (u2 * o - (u1 * limit) * o) <= 128 * (o * p),
            2 * ((u1 * limit) * o - u2 * o) <= 128 * (o * p),
            o > 0,
    ;
    rounding::units_follow_magnitudes(0, q2);
    // the whole number
    lemma_fundamental_div_mod(2 * u2 + o, 2 * o);
    let r = (2 * u2 + o) % (2 * o);
    assert(2 * u2 + o == (2 * o) * k + r);
    lemma_mod_bound(2 * u2 + o, 2 * o);
    let ko = k * o;
    assert((2 * o) * k == 2 * ko) by (nonlinear_arith)
        requires
            ko == k * o,
    ;
    assert(-o <= 2 * (ko - u2) <= o);
    assert(k >= 0) by (nonlinear_arith)
        requires
            2 * (k * o - u2) >= -o,
            u2 >= 0,
            o > 0,
    ;
    assert(u1 * limit <= limit * o + 127 * p) by (nonlinear_arith)
        requires
            u1 <= o + p,
            0 < limit <= 127,
            p > 0,
    ;
    assert(k <= limit) by (nonlinear_arith)
        requires
            2 * (k * o - u2) <= o,
            u2 <= limit * o + 191 * p,
            o == 0x100_0000 * p,
            p > 0,
    ;
    // together, all times s
    let d = ko - u1 * limit;
    assert(2 * d <= o + 128 * p && -2 * d <= o + 128 * p);
    assert(s * d == (k * s) * o - (u1 * s) * limit) by (nonlinear_arith)
        requires
            d == k * o - u1 * limit,
    ;
    let w = k * s - u * limit;
    assert(w * o == s * d + e1 * limit) by (nonlinear_arith)
        requires
            w == k * s - u * limit,
            s * d == (k * s) * o - (u1 * s) * limit,
            e1 == u1 * s - u * o,
    ;
    assert(2 * (s * d) <= s * (o + 128 * p) && -2 * (s * d) <= s * (o + 128 * p))
        by (nonlinear_arith)
        requires
            2 * d <= o + 128 * p,
            -2 * d <= o + 128 * p,
            s > 0,
    ;
    assert(e1 * limit <= 127 * (s * p) && e1 * limit >= -(127 * (s * p))) by (nonlinear_arith)
        requires
            -(s * p) <= e1 <= s * p,
            0 < limit <= 127,
            s > 0,
            p > 0,
    ;
    assert(s * (o + 128 * p) == s * o + 128 * (s * p)) by (nonlinear_arith);
    assert(s * o == 0x100_0000 * (s * p)) by (nonlinear_arith)
        requires
            o == 0x100_0000 * p,
    ;
    let sp = s * p;
    assert(w * o == 0x100_0000 * (w * p)) by (nonlinear_arith)
        requires
            o == 0x100_0000 * p,
    ;
    let (wp, sd, el) = (w * p, s * d, e1 * limit);
    assert(0x100_0000 * wp == sd + el);
    assert(2 * sd <= 0x100_0000 * sp + 128 * sp && -2 * sd <= 0x100_0000 * sp + 128 * sp);
    assert(el <= 127 * sp && -el <= 127 * sp);
    assert(0x200_0000 * wp <= 0x100_017e * sp);
    assert(-0x200_0000 * wp <= 0x100_017e * sp);
    assert(0x1_0000 * w <= 0x8001 * s && 0x1_0000 * (-w) <= 0x8001 * s) by (nonlinear_arith)
        requires
            0x200_0000 * (w * p) <= 0x100_017e * (s * p),
            -0x200_0000 * (w * p) <= 0x100_017e * (s * p),
            p > 0,
            s > 0,
    ;
}

/// Quantisation is off by at most half a step (and a 65536th of a step for the rounding of the
/// quotient and the product): `|code / qmax * scale - v| <= (1/2 + 2^-16) * scale / qmax`, for
/// every number no larger than its scale.
pub proof fn code_is_within_half_a_step(v: u32, scale: u32, bits: QBits)
    requires
        float_bits::finite(v),
        float_bits::finite(scale),
        !float_bits::negative(scale),
        scale > 0,
        float_bits::magnitude(v) <= scale,
    ensures
        ({
            let s = float_bits::units(scale);
            let e = quant::code_of(v, scale, bits) * s - rounding::signed_units(v) * bits.limit();
            0x1_0000 * e <= 0x8001 * s && -0x1_0000 * e <= 0x8001 * s
        }),
{
    let u = float_bits::units(v);
    let s = float_bits::units(scale);
    let o = float_bits::one();
    let limit = bits.limit();
    lemma_pow2_pos(149);
    rounding::units_follow_magnitudes(v, scale);
    lemma_qmax_value(bits);
    assert(s > 0) by {
        lemma_pow2_pos(float_bits::doublings(scale));
        assert(float_bits::mantissa(scale) * pow2(float_bits::doublings(scale)) > 0)
            by (nonlinear_arith)
            requires
                float_bits::mantissa(scale) > 0,
                pow2(float_bits::doublings(scale)) > 0,
        ;
    }
    let a = rounding::nearest(u * o, s);
    lemma_pow2_adds(1, 149);
    lemma_pow2_adds(24, 126);
    lemma_pow2_adds(24, 132);
    lemma_pow2_adds(17, 132);
    lemma2_to64();
    assert(0 <= u * o && u * o < 0x100_0000 * (s * pow2(126))) by (nonlinear_arith)
        requires
            0 <= u <= s,
            s > 0,
            o > 0,
            0x100_0000 * pow2(126) == 2 * o,
    ;
    rounding::nearest_is_bounded(u * o, s, 126);
    rounding::nearest_is_not_negative(u * o, s);
    let q1 = a as u32;
    let signed_q1 = rounding::quotient(v, scale);
    assert(float_bits::magnitude(signed_q1) == q1);
    assert(float_bits::units(signed_q1) == float_bits::units(q1));
    lemma_code_quotient_bound(u, s, q1);
    let num = float_bits::units(q1) * (limit * o);
    let b = rounding::nearest(num, o);
    rounding::nearest_is_bounded(num, o, 132);
    rounding::nearest_is_not_negative(num, o);
    let q2 = b as u32;
    let signed_q2 = rounding::product(signed_q1, bits.qmax_bits());
    assert(float_bits::magnitude(signed_q2) == q2);
    assert(float_bits::units(signed_q2) == float_bits::units(q2));
    let k = rounding::round_half_away(float_bits::units(q2), o);
    lemma_code_error(u, s, limit, q1, q2, k);
    let c = quant::code_of(v, scale, bits);
    if float_bits::negative(v) {
        assert(c == -k);
        assert((-k) * s == -(k * s) && (-u) * limit == -(u * limit)) by (nonlinear_arith);
    } else {
        assert(c == k);
    }
}

/// A quotient of at most one, times a code limit, stays on the grid `2^132`.
proof fn lemma_code_quotient_bound(u: int, s: int, q1: u32)
    requires
        0 <= u <= s,
        s > 0,
        q1 == rounding::nearest(u * float_bits::one(), s),
        q1 < float_bits::INFINITY_BITS,
    ensures
        forall|limit: int|
            0 < limit <= 127 ==> 0 <= #[trigger] (float_bits::units(q1) * (limit
                * float_bits::one())) < 0x100_0000 * (float_bits::one() * pow2(132)),
{
    let o = float_bits::one();
    let p = pow2(125) as int;
    lemma_pow2_pos(125);
    lemma_pow2_adds(24, 125);
    lemma_pow2_adds(1, 125);
    lemma_pow2_adds(7, 125);
    lemma2_to64();
    assert(0 <= u * o < 0x100_0000 * (s * pow2(126))) by (nonlinear_arith)
        requires
            0 <= u <= s,
            s > 0,
            o == 0x100_0000 * p,
            pow2(126) == 2 * p,
            p > 0,
    ;
    rounding::nearest_is_within_half_a_step(u * o, s, 126);
    let u1 = float_bits::units(q1);
    assert(u1 <= o + p) by (nonlinear_arith)
        requires
            2 * (u1 * s - u * o) <= s * pow2(126),
            pow2(126) == 2 * p,
            u <= s,
            s > 0,
            o > 0,
    ;
    rounding::units_follow_magnitudes(0, q1);
    assert(0 * pow2(float_bits::doublings(0)) == 0);
    assert forall|limit: int| 0 < limit <= 127 implies 0 <= #[trigger] (u1 * (limit * o))
        < 0x100_0000 * (o * pow2(132)) by {
        assert(0 <= u1 * (limit * o) && u1 * (limit * o) < 0x100_0000 * (o * (128 * p)))
            by (nonlinear_arith)
            requires
                0 <= u1 <= o + p,
                o == 0x100_0000 * p,
                0 < limit <= 127,
                p > 0,
        ;
    }
}

/// Rounding does not depend on how far a fraction is expanded.
pub proof fn nearest_ignores_expansion(num: int, den: int, c: int)
    requires
        num >= 0,
        den > 0,
        c > 0,
    ensures
        rounding::nearest(num * c, den * c) == rounding::nearest(num, den),
    decreases num - den,
{
    assert(den * c > 0) by (nonlinear_arith)
        requires
            den > 0,
            c > 0,
    ;
    assert(num * c < 0x100_0000 * (den * c) <==> num < 0x100_0000 * den) by (nonlinear_arith)
        requires
            c > 0,
    ;
    if num < 0x100_0000 * den {
        let q = num / den;
        let r = num % den;
        lemma_fundamental_div_mod(num, den);
        assert(num * c == q * (den * c) + r * c) by (nonlinear_arith)
            requires
                num == den * q + r,
        ;
        assert(0 <= r * c < den * c) by (nonlinear_arith)
            requires
                0 <= r < den,
                c > 0,
        ;
        lemma_fundamental_div_mod_converse(num * c, den * c, q, r * c);
        assert(2 * (r * c) > den * c <==> 2 * r > den) by (nonlinear_arith)
            requires
                c > 0,
        ;
        assert(2 * (r * c) == den * c <==> 2 * r == den) by (nonlinear_arith)
            requires
                c > 0,
        ;
    } else {
        assert((2 * den) * c == 2 * (den * c)) by (nonlinear_arith);
        nearest_ignores_expansion(num, 2 * den, c);
    }
}

/// A value of twenty-four bits or more is rounded to no less than a full mantissa.
proof fn lemma_nearest_floor(num: int, den: int)
    requires
        den > 0,
        num >= 0x80_0000 * den,
    ensures
        rounding::nearest(num, den) >= 0x80_0000,
    decreases num - den,
{
    if num < 0x100_0000 * den {
        lemma_fundamental_div_mod(num, den);
        let q = num / den;
        assert(q >= 0x80_0000) by (nonlinear_arith)
            requires
                num == den * q + num % den,
                num % den < den,
                num >= 0x80_0000 * den,
        ;
    } else {
        lemma_nearest_floor(num, 2 * den);
    }
}

/// Rounding keeps the order of values.
pub proof fn nearest_is_monotone(a: int, b: int, den: int)
    requires
        0 <= a <= b,
        den > 0,
    ensures
        rounding::nearest(a, den) <= rounding::nearest(b, den),
    decreases b - den,
{
    if b < 0x100_0000 * den {
        lemma_round_half_even_monotone(a, b, den);
    } else if a < 0x100_0000 * den {
        lemma_fundamental_div_mod(a, den);
        let q = a / den;
        assert(q < 0x100_0000) by (nonlinear_arith)
            requires
                a == den * q + a % den,
                0 <= a % den,
                a < 0x100_0000 * den,
                den > 0,
        ;
        lemma_nearest_floor(b, 2 * den);
    } else {
        nearest_is_monotone(a, b, 2 * den);
    }
}

proof fn lemma_round_half_even_monotone(a: int, b: int, den: int)
    requires
        0 <= a <= b,
        den > 0,
    ensures
        rounding::round_half_even(a, den) <= rounding::round_half_even(b, den),
{
    let (qa, ra) = (a / den, a % den);
    let (qb, rb) = (b / den, b % den);
    lemma_fundamental_div_mod(a, den);
    lemma_fundamental_div_mod(b, den);
    if qa == qb {
        assert(ra <= rb);
    } else {
        assert(qa < qb) by (nonlinear_arith)
            requires
                den * qa + ra <= den * qb + rb,
                0 <= ra < den,
                0 <= rb < den,
                qa != qb,
        ;
    }
}

/// A whole number below 128 is a single-precision number.
proof fn lemma_small_count(c: int)
    requires
        0 <= c <= 127,
    ensures
        0 <= rounding::nearest(c * float_bits::one(), 1) < float_bits::INFINITY_BITS,
        float_bits::units(rounding::nearest(c * float_bits::one(), 1) as u32) == c
            * float_bits::one(),
{
    let o = float_bits::one();
    lemma2_to64();
    if c == 0 {
        assert(0 * o == 0);
        lemma_fundamental_div_mod_converse(0, 1, 0, 0);
        assert(0 * pow2(float_bits::doublings(0)) == 0);
    } else if c < 2 {
        lemma_count_in_binade(c, 23);
    } else if c < 4 {
        lemma_count_in_binade(c, 22);
    } else if c < 8 {
        lemma_count_in_binade(c, 21);
    } else if c < 16 {
        lemma_count_in_binade(c, 20);
    } else if c < 32 {
        lemma_count_in_binade(c, 19);
    } else if c < 64 {
        lemma_count_in_binade(c, 18);
    } else {
        lemma_count_in_binade(c, 17);
    }
}

proof fn lemma_count_in_binade(c: int, t: nat)
    requires
        17 <= t <= 23,
        0x80_0000 <= c * pow2(t) < 0x100_0000,
        c > 0,
    ensures
        0 <= rounding::nearest(c * float_bits::one(), 1) < float_bits::INFINITY_BITS,
        float_bits::units(rounding::nearest(c * float_bits::one(), 1) as u32) == c
            * float_bits::one(),
{
    let d = (149 - t) as nat;
    let m = c * pow2(t);
    lemma_pow2_adds(t, d);
    lemma_pow2_pos(d);
    let b = d * STEP + m;
    assert(b < float_bits::INFINITY_BITS) by (nonlinear_arith)
        requires
            b == d * STEP + m,
            d <= 132,
            m < 0x100_0000,
            STEP == 0x80_0000,
    ;
    assert(c * (pow2(t) * pow2(d)) == m * pow2(d)) by (nonlinear_arith)
        requires
            m == c * pow2(t),
    ;
    rounding::units_of_mantissa(d, m);
    rounding::representable_values_are_kept(b as u32);
}

/// The magnitude that a code stands for: `ua` ones for the code over the limit, then times the
/// scale.
proof fn lemma_value_of_code(code: i8, scale: u32, bits: QBits) -> (ua: int)
    requires
        -bits.limit() <= code <= bits.limit(),
        float_bits::finite(scale),
        !float_bits::negative(scale),
        float_bits::units(scale) > 0,
    ensures
        ({
            let o = float_bits::one();
            let p = pow2(125) as int;
            let limit = bits.limit();
            let s = float_bits::units(scale);
            let c = if code < 0 {
                -(code as int)
            } else {
                code as int
            };
            let d = quant::value_of(code, scale, bits);
            let ud = float_bits::units(d);
            let g = pow2(float_bits::doublings(scale)) as int;
            &&& ua * limit - c * o <= limit * p
            &&& c * o - ua * limit <= limit * p
            &&& 2 * (ud * o - ua * s) <= o * g
            &&& 2 * (ua * s - ud * o) <= o * g
            &&& 0 <= ud <= s
            &&& float_bits::magnitude(d) <= scale
            &&& float_bits::negative(d) == (code < 0)
            &&& float_bits::magnitude(
                rounding::quotient(quant::code_value(code), bits.qmax_bits()),
            ) <= ONE_BITS
        }),
{
    let o = float_bits::one();
    let limit = bits.limit();
    let s = float_bits::units(scale);
    let c = if code < 0 {
        -(code as int)
    } else {
        code as int
    };
    lemma_pow2_pos(149);
    lemma_qmax_value(bits);
    lemma_small_count(c);
    // the code as a number
    let v = quant::code_value(code);
    assert((-code) * o == -(code * o)) by (nonlinear_arith);
    assert(code < 0 ==> code * o < 0) by (nonlinear_arith)
        requires
            o > 0,
    ;
    let vm = rounding::nearest(c * o, 1) as u32;
    assert(float_bits::magnitude(v) == vm);
    assert(float_bits::units(v) == c * o);
    // divided by the limit: at most one
    let den = limit * o;
    assert(den > 0) by (nonlinear_arith)
        requires
            den == limit * o,
            limit > 0,
            o > 0,
    ;
    let num = (c * o) * o;
    assert(0 <= num <= o * den) by (nonlinear_arith)
        requires
            num == (c * o) * o,
            den == limit * o,
            0 <= c <= limit,
            o > 0,
    ;
    one_is_one();
    nearest_is_monotone(num, o * den, den);
    nearest_ignores_expansion(o, 1, den);
    assert(1 * den == den);
    rounding::nearest_is_not_negative(num, den);
    let am = rounding::nearest(num, den) as u32;
    assert(am <= ONE_BITS);
    let a = rounding::quotient(v, bits.qmax_bits());
    assert(float_bits::magnitude(a) == am);
    let ua = float_bits::units(am);
    assert(float_bits::units(a) == ua);
    rounding::units_follow_magnitudes(am, ONE_BITS);
    assert(0 <= ua <= o);
    let p = pow2(125) as int;
    lemma_pow2_pos(125);
    lemma_pow2_adds(24, 125);
    lemma_pow2_adds(1, 125);
    lemma2_to64();
    assert(o == 0x100_0000 * p);
    assert(num < 0x100_0000 * (den * pow2(126))) by (nonlinear_arith)
        requires
            num <= o * den,
            o == 0x100_0000 * p,
            pow2(126) == 2 * p,
            den > 0,
            p > 0,
    ;
    rounding::nearest_is_within_half_a_step(num, den, 126);
    assert(ua * limit - c * o <= limit * p && c * o - ua * limit <= limit * p)
        by (nonlinear_arith)
        requires
            2 * (ua * den - num) <= den * pow2(126),
            2 * (num - ua * den) <= den * pow2(126),
            pow2(126) == 2 * p,
            den == limit * o,
            num == (c * o) * o,
            o > 0,
    ;
    // times the scale: at most the scale
    assert(s > 0);
    let num2 = ua * s;
    assert(0 <= num2 <= s * o) by (nonlinear_arith)
        requires
            num2 == ua * s,
            0 <= ua <= o,
            s > 0,
    ;
    nearest_is_monotone(num2, s * o, o);
    nearest_ignores_expansion(s, 1, o);
    assert(1 * o == o);
    rounding::representable_values_are_kept(scale);
    rounding::nearest_is_not_negative(num2, o);
    let dm = rounding::nearest(num2, o) as u32;
    assert(dm <= scale);
    let d = rounding::product(a, scale);
    assert(float_bits::magnitude(d) == dm);
    let ud = float_bits::units(dm);
    rounding::units_follow_magnitudes(dm, scale);
    assert(0 <= ud <= s);
    let e = float_bits::doublings(scale);
    lemma_pow2_pos(e);
    let g = pow2(e) as int;
    let m = float_bits::mantissa(scale);
    assert(s == m * g && m < 0x100_0000);
    assert(num2 < 0x100_0000 * (o * pow2(e))) by (nonlinear_arith)
        requires
            num2 <= s * o,
            s == m * g,
            m < 0x100_0000,
            g == pow2(e),
            g > 0,
            o > 0,
    ;
    rounding::nearest_is_within_half_a_step(num2, o, e);
    ua
}

/// Turning a code back into a number and quantising that number under the same scale gives the
/// code again, for every finite scale of at least as many units as there are codes on one side.
pub proof fn codes_survive_a_round_trip(code: i8, scale: u32, bits: QBits)
    requires
        -bits.limit() <= code <= bits.limit(),
        float_bits::finite(scale),
        !float_bits::negative(scale),
        float_bits::units(scale) >= bits.limit(),
    ensures
        quant::code_of(quant::value_of(code, scale, bits), scale, bits) == code,
{
    let o = float_bits::one();
    let p = pow2(125) as int;
    let limit = bits.limit();
    let s = float_bits::units(scale);
    let c = if code < 0 {
        -(code as int)
    } else {
        code as int
    };
    let ua = lemma_value_of_code(code, scale, bits);
    let d = quant::value_of(code, scale, bits);
    let ud = float_bits::units(d);
    let e = float_bits::doublings(scale);
    let g = pow2(e) as int;
    let m = float_bits::mantissa(scale);
    lemma_pow2_pos(149);
    lemma_pow2_pos(125);
    lemma_pow2_pos(e);
    lemma_pow2_adds(24, 125);
    lemma_pow2_adds(1, 125);
    lemma2_to64();
    lemma_qmax_value(bits);
    lemma_round_trip_bound(ua, ud, s, c, limit, o, p, g, m, e);
    // quantised again
    let u = ud;
    let q1 = rounding::nearest(u * o, s);
    assert(0 <= u * o && u * o < 0x100_0000 * (s * pow2(126))) by (nonlinear_arith)
        requires
            0 <= u <= s,
            s > 0,
            o > 0,
            0x100_0000 * pow2(126) == 2 * o,
    ;
    rounding::nearest_is_bounded(u * o, s, 126);
    rounding::nearest_is_not_negative(u * o, s);
    let sq1 = rounding::quotient(d, scale);
    assert(float_bits::units(d) == ud);
    assert(float_bits::magnitude(scale) != 0) by {
        assert(0 * pow2(float_bits::doublings(0)) == 0);
    }
    assert(float_bits::magnitude(sq1) == q1);
    lemma_code_quotient_bound(u, s, q1 as u32);
    let num3 = float_bits::units(q1 as u32) * (limit * o);
    lemma_pow2_adds(17, 132);
    let q2 = rounding::nearest(num3, o);
    rounding::nearest_is_bounded(num3, o, 132);
    rounding::nearest_is_not_negative(num3, o);
    let sq2 = rounding::product(sq1, bits.qmax_bits());
    assert(float_bits::magnitude(sq2) == q2);
    let k = rounding::round_half_away(float_bits::units(q2 as u32), o);
    lemma_code_error(u, s, limit, q1 as u32, q2 as u32, k);
    assert(k == c) by (nonlinear_arith)
        requires
            0x1_0000 * (k * s - u * limit) <= 0x8001 * s,
            0x1_0000 * (u * limit - k * s) <= 0x8001 * s,
            0x1_0000 * (u * limit - c * s) <= 0x7ffe * s,
            0x1_0000 * (c * s - u * limit) <= 0x7ffe * s,
            s > 0,
    ;
}

/// The number behind a code is no larger than its scale.
pub proof fn values_stay_under_their_scales(code: i8, scale: u32, bits: QBits)
    requires
        -bits.limit() <= code <= bits.limit(),
        scale < float_bits::INFINITY_BITS,
    ensures
        float_bits::magnitude(quant::value_of(code, scale, bits)) <= scale,
{
    if scale == 0 {
        one_is_one();
        lemma_pow2_pos(149);
        lemma_value_of_code(code, ONE_BITS, bits);
        layer_laws::product_with_zero(
            rounding::quotient(quant::code_value(code), bits.qmax_bits()),
            0,
        );
    } else {
        order_laws::positive_numbers_have_units(scale);
        lemma_value_of_code(code, scale, bits);
    }
}

/// Under a scale of fewer units than there are codes on one side, a number no larger than the scale
/// comes back as it was, but for the sign of a zero.
pub proof fn numbers_come_back_under_tiny_scales(v: u32, scale: u32, bits: QBits)
    requires
        float_bits::finite(v),
        float_bits::finite(scale),
        !float_bits::negative(scale),
        scale > 0,
        float_bits::units(scale) < bits.limit(),
        float_bits::magnitude(v) <= scale,
    ensures
        ({
            let back = quant::value_of(quant::code_of(v, scale, bits), scale, bits);
            back == v || float_bits::magnitude(back) == 0 && float_bits::magnitude(v) == 0
        }),
{
    let o = float_bits::one();
    let p = pow2(125) as int;
    let limit = bits.limit();
    let s = float_bits::units(scale);
    let u = float_bits::units(v);
    let code = quant::code_of(v, scale, bits);
    let e = float_bits::doublings(scale);
    let m = float_bits::mantissa(scale);
    lemma_pow2_pos(125);
    lemma_pow2_pos(e);
    lemma_pow2_adds(24, 125);
    lemma2_to64();
    quant::code_is_in_range(v, scale, bits);
    code_is_within_half_a_step(v, scale, bits);
    rounding::units_follow_magnitudes(v, scale);
    assert(s > 0) by (nonlinear_arith)
        requires
            s == m * pow2(e),
            m > 0,
            pow2(e) > 0,
    ;
    let ua = lemma_value_of_code(code, scale, bits);
    let back = quant::value_of(code, scale, bits);
    let ud = float_bits::units(back);
    assert(e == 0) by {
        if e > 0 {
            assert(m >= 0x80_0000);
            assert(m * pow2(e) >= 0x80_0000) by (nonlinear_arith)
                requires
                    m >= 0x80_0000,
                    pow2(e) > 0,
            ;
        }
    }
    let c = if code < 0 {
        -(code as int)
    } else {
        code as int
    };
    assert(u == 0 || float_bits::negative(v) == (code < 0)) by (nonlinear_arith)
        requires
            -0x1_0000 * (code * s - rounding::signed_units(v) * limit) <= 0x8001 * s,
            0x1_0000 * (code * s - rounding::signed_units(v) * limit) <= 0x8001 * s,
            rounding::signed_units(v) == if float_bits::negative(v) {
                -u
            } else {
                u
            },
            0 <= u <= s,
            0 < s < limit,
    ;
    let x = c * s - u * limit;
    assert(0x1_0000 * x <= 0x8001 * s && -0x1_0000 * x <= 0x8001 * s) by (nonlinear_arith)
        requires
            -0x1_0000 * (code * s - rounding::signed_units(v) * limit) <= 0x8001 * s,
            0x1_0000 * (code * s - rounding::signed_units(v) * limit) <= 0x8001 * s,
            x == c * s - u * limit,
            c == if code < 0 {
                -(code as int)
            } else {
                code as int
            },
            rounding::signed_units(v) == if float_bits::negative(v) {
                -u
            } else {
                u
            },
            u == 0 || float_bits::negative(v) == (code < 0),
    ;
    let f = ua * limit - c * o;
    let h = ud * o - ua * s;
    let w = ud * limit - c * s;
    assert(w * o == h * limit + f * s) by (nonlinear_arith)
        requires
            w == ud * limit - c * s,
            f == ua * limit - c * o,
            h == ud * o - ua * s,
    ;
    assert(2 * (h * limit) <= limit * o && -2 * (h * limit) <= limit * o) by (nonlinear_arith)
        requires
            2 * h <= o,
            -2 * h <= o,
            limit > 0,
    ;
    assert(f * s <= 127 * (127 * p) && -(f * s) <= 127 * (127 * p)) by (nonlinear_arith)
        requires
            f <= limit * p,
            -f <= limit * p,
            0 < s < limit,
            limit <= 127,
            p > 0,
    ;
    // what the number behind the code is off by
    let off = ud - u;
    assert(off * limit == w + x) by (nonlinear_arith)
        requires
            off == ud - u,
            w == ud * limit - c * s,
            x == c * s - u * limit,
    ;
    assert(2 * (w * o) <= limit * o + 32258 * p && -2 * (w * o) <= limit * o + 32258 * p);
    assert(w * o == 0x100_0000 * (w * p) && limit * o == 0x100_0000 * (limit * p))
        by (nonlinear_arith)
        requires
            o == 0x100_0000 * p,
    ;
    assert(0x200_0000 * w <= 0x100_0000 * limit + 32258 && -0x200_0000 * w <= 0x100_0000 * limit
        + 32258) by (nonlinear_arith)
        requires
            0x200_0000 * (w * p) <= 0x100_0000 * (limit * p) + 32258 * p,
            -0x200_0000 * (w * p) <= 0x100_0000 * (limit * p) + 32258 * p,
            p > 0,
    ;
    assert(off == 0) by (nonlinear_arith)
        requires
            off * limit == w + x,
            0x200_0000 * w <= 0x100_0000 * limit + 32258,
            -0x200_0000 * w <= 0x100_0000 * limit + 32258,
            0x1_0000 * x <= 0x8001 * s,
            -0x1_0000 * x <= 0x8001 * s,
            0 < s < limit,
            limit <= 127,
    ;
    rounding::representable_values_are_kept(v);
    rounding::representable_values_are_kept(back);
}

/// `1.0` is its own rounding.
pub proof fn one_is_one()
    ensures
        float_bits::units(ONE_BITS) == float_bits::one(),
        rounding::nearest(float_bits::one(), 1) == ONE_BITS,
{
    lemma_pow2_adds(23, 126);
    lemma2_to64();
    assert(float_bits::mantissa(ONE_BITS) == 0x80_0000);
    assert(float_bits::doublings(ONE_BITS) == 126);
    rounding::representable_values_are_kept(ONE_BITS);
}

/// How far the number behind a code is from the exact one.
proof fn lemma_round_trip_bound(
    ua: int,
    ud: int,
    s: int,
    c: int,
    limit: int,
    o: int,
    p: int,
    g: int,
    m: int,
    e: nat,
)
    requires
        0 <= c <= limit,
        limit == 7 || limit == 127,
        o == 0x100_0000 * p,
        p > 0,
        s == m * g,
        g == pow2(e),
        g > 0,
        s >= limit,
        e == 0 || m >= 0x80_0000,
        ua * limit - c * o <= limit * p,
        c * o - ua * limit <= limit * p,
        2 * (ud * o - ua * s) <= o * g,
        2 * (ua * s - ud * o) <= o * g,
    ensures
        0x1_0000 * (ud * limit - c * s) <= 0x7ffe * s,
        0x1_0000 * (c * s - ud * limit) <= 0x7ffe * s,
{
    lemma2_to64();
    let w = ud * limit - c * s;
    let f = ua * limit - c * o;
    let h = ud * o - ua * s;
    // w * o == h * limit + f * s
    assert(w * o == h * limit + f * s) by (nonlinear_arith)
        requires
            w == ud * limit - c * s,
            f == ua * limit - c * o,
            h == ud * o - ua * s,
    ;
    let sp = s * p;
    assert(f * s <= limit * sp && -(f * s) <= limit * sp) by (nonlinear_arith)
        requires
            f <= limit * p,
            -f <= limit * p,
            s > 0,
            sp == s * p,
    ;
    let og = o * g;
    assert(2 * (h * limit) <= limit * og && -2 * (h * limit) <= limit * og) by (nonlinear_arith)
        requires
            2 * h <= og,
            -2 * h <= og,
            limit > 0,
    ;
    let hl = h * limit;
    let fs = f * s;
    assert(og == 0x100_0000 * (p * g)) by (nonlinear_arith)
        requires
            og == o * g,
            o == 0x100_0000 * p,
    ;
    let pg = p * g;
    let wp = w * p;
    assert(w * o == 0x100_0000 * wp) by (nonlinear_arith)
        requires
            o == 0x100_0000 * p,
            wp == w * p,
    ;
    if e == 0 {
        assert(g == 1);
        if s == limit {
            // the exact product is the code itself
            assert(ud == c) by (nonlinear_arith)
                requires
                    2 * (ud * o - ua * s) <= o * 1,
                    2 * (ua * s - ud * o) <= o * 1,
                    ua * limit - c * o <= limit * p,
                    c * o - ua * limit <= limit * p,
                    s == limit,
                    limit <= 127,
                    o == 0x100_0000 * p,
                    p > 0,
            ;
            assert(w == 0) by (nonlinear_arith)
                requires
                    w == ud * limit - c * s,
                    ud == c,
                    s == limit,
            ;
        } else {
            assert(pg == p) by (nonlinear_arith)
                requires
                    pg == p * g,
                    g == 1,
            ;
            assert(0x200_0000 * wp <= limit * (0x100_0000 * p) + 2 * (limit * sp));
            assert(-0x200_0000 * wp <= limit * (0x100_0000 * p) + 2 * (limit * sp));
            assert(limit * (0x100_0000 * p) <= 0xff_0000 * sp) by (nonlinear_arith)
                requires
                    sp == s * p,
                    s >= limit + 1,
                    limit == 7 || limit == 127,
                    p > 0,
            ;
            assert(limit * sp <= 127 * sp) by (nonlinear_arith)
                requires
                    limit <= 127,
                    sp == s * p,
                    s > 0,
                    p > 0,
            ;
            assert(0x1_0000 * w <= 0x7ffe * s && -0x1_0000 * w <= 0x7ffe * s) by (nonlinear_arith)
                requires
                    0x200_0000 * wp <= 0xff_00fe * sp,
                    -0x200_0000 * wp <= 0xff_00fe * sp,
                    wp == w * p,
                    sp == s * p,
                    p > 0,
                    s > 0,
            ;
        }
    } else {
        assert(0x80_0000 * pg <= sp) by (nonlinear_arith)
            requires
                pg == p * g,
                sp == s * p,
                s == m * g,
                m >= 0x80_0000,
                g > 0,
                p > 0,
        ;
        assert(limit * og == limit * (0x100_0000 * pg));
        assert(limit * (0x100_0000 * pg) <= 254 * sp) by (nonlinear_arith)
            requires
                0x80_0000 * pg <= sp,
                limit <= 127,
                limit > 0,
                pg >= 0,
        ;
        assert(limit * sp <= 127 * sp) by (nonlinear_arith)
            requires
                limit <= 127,
                sp == s * p,
                s > 0,
                p > 0,
        ;
        assert(0x200_0000 * wp <= 508 * sp && -0x200_0000 * wp <= 508 * sp);
        assert(0x1_0000 * w <= 0x7ffe * s && -0x1_0000 * w <= 0x7ffe * s) by (nonlinear_arith)
            requires
                0x200_0000 * wp <= 508 * sp,
                -0x200_0000 * wp <= 508 * sp,
                wp == w * p,
                sp == s * p,
                p > 0,
                s > 0,
        ;
    }
}

} // verus!
