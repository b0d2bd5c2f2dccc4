//! Correctly rounded square roots on bit patterns.

use crate::float_bits;
use crate::float_bits::{INFINITY_BITS, NAN_BITS, SIGN_BIT, STEP};
use vstd::arithmetic::div_mod::*;
use vstd::arithmetic::power2::*;
use vstd::prelude::*;

verus! {

/// Whether `q` is the whole part of the square root of `n`.
pub open spec fn is_floor_root(q: int, n: int) -> bool {
    0 <= q && q * q <= n < (q + 1) * (q + 1)
}

/// The whole part of the square root of `n`.
pub open spec fn floor_root(n: int) -> int {
    choose|q: int| is_floor_root(q, n)
}

/// `sqrt(n)` on the grid `den`, rounded to the nearest grid point.
pub open spec fn round_root(n: int, den: int) -> int {
    let q = floor_root(n / (den * den));
    if 4 * n > (2 * q + 1) * (2 * q + 1) * (den * den) {
        q + 1
    } else {
        q
    }
}

/// The magnitude nearest to `sqrt(n)` units: the grid doubles until twenty-four bits suffice.
pub open spec fn nearest_root(n: int, den: int) -> int
    decreases n - den,
{
    if den <= 0 {
        0
    } else if n < (0x100_0000 * den) * (0x100_0000 * den) {
        round_root(n, den)
    } else if n >= 2 * den {
        STEP + nearest_root(n, 2 * den)
    } else {
        0
    }
}

/// `sqrt(x)` in single precision.
pub open spec fn root(x: u32) -> u32 {
    if float_bits::magnitude(x) == 0 {
        x
    } else if float_bits::nan(x) || float_bits::negative(x) {
        NAN_BITS
    } else if float_bits::infinite(x) {
        INFINITY_BITS
    } else {
        nearest_root(float_bits::units(x) * float_bits::one(), 1) as u32
    }
}

/// The whole part of a square root is unique.
pub proof fn floor_root_is_unique(q: int, n: int)
    requires
        is_floor_root(q, n),
    ensures
        floor_root(n) == q,
{
    let p = floor_root(n);
    assert(is_floor_root(p, n));
    if p < q {
        assert((p + 1) * (p + 1) <= q * q) by (nonlinear_arith)
            requires
                0 <= p,
                p + 1 <= q,
        ;
    } else if q < p {
        assert((q + 1) * (q + 1) <= p * p) by (nonlinear_arith)
            requires
                0 <= q,
                q + 1 <= p,
        ;
    }
}

/// `n = a * 4^k` with `a` of forty-seven or forty-eight bits is rounded on the grid `2^k`.
proof fn lemma_nearest_root(a: int, n: int, den: int, k: nat)
    requires
        0x4000_0000_0000 <= a < 0x1_0000_0000_0000,
        den > 0,
        n == a * ((pow2(k) * den) * (pow2(k) * den)),
    ensures
        nearest_root(n, den) == k * STEP + round_root(a, 1),
    decreases k,
{
    let g = pow2(k) * den;
    lemma_pow2_pos(k);
    assert(g > 0) by (nonlinear_arith)
        requires
            g == pow2(k) * den,
            pow2(k) > 0,
            den > 0,
    ;
    if k == 0 {
        lemma2_to64();
        assert(g == den) by (nonlinear_arith)
            requires
                g == pow2(0) * den,
                pow2(0) == 1,
        ;
        let s = den * den;
        assert(s > 0) by (nonlinear_arith)
            requires
                s == den * den,
                den > 0,
        ;
        assert(n < (0x100_0000 * den) * (0x100_0000 * den)) by (nonlinear_arith)
            requires
                n == a * s,
                s == den * den,
                a < 0x1_0000_0000_0000,
                s > 0,
        ;
        lemma_fundamental_div_mod_converse(n, s, a, 0);
        lemma_fundamental_div_mod_converse(a, 1, a, 0);
        let q = floor_root(a);
        let w = (2 * q + 1) * (2 * q + 1);
        assert(4 * n > w * s <==> 4 * a > w) by (nonlinear_arith)
            requires
                n == a * s,
                s > 0,
        ;
        assert(w * (1 * 1) == w);
    } else {
        let h = pow2((k - 1) as nat) * den;
        lemma_pow2_unfold(k);
        lemma_pow2_pos((k - 1) as nat);
        assert(g == 2 * h && pow2((k - 1) as nat) * (2 * den) == g) by (nonlinear_arith)
            requires
                g == (2 * pow2((k - 1) as nat)) * den,
                h == pow2((k - 1) as nat) * den,
        ;
        assert(h >= den) by (nonlinear_arith)
            requires
                h == pow2((k - 1) as nat) * den,
                pow2((k - 1) as nat) >= 1,
                den > 0,
        ;
        assert(n >= (0x100_0000 * den) * (0x100_0000 * den)) by (nonlinear_arith)
            requires
                n == a * (g * g),
                g == 2 * h,
                h >= den,
                den > 0,
                a >= 0x4000_0000_0000,
        ;
        assert((0x100_0000 * den) * (0x100_0000 * den) >= 2 * den) by (nonlinear_arith)
            requires
                den >= 1,
        ;
        lemma_nearest_root(a, n, 2 * den, (k - 1) as nat);
        assert(k * STEP == (k - 1) * STEP + STEP) by (nonlinear_arith);
    }
}

/// The whole part of the square root of a number of forty-seven or forty-eight bits.
fn whole_root(a: u64) -> (q: u64)
    requires
        0x4000_0000_0000 <= a < 0x1_0000_0000_0000,
    ensures
        is_floor_root(q as int, a as int),
        0x80_0000 <= q < 0x100_0000,
{
    let mut lo: u64 = 0x80_0000;
    let mut hi: u64 = 0x100_0000;
    while hi - lo > 1
        invariant
            0x80_0000 <= lo < hi <= 0x100_0000,
            lo * lo <= a < hi * hi,
        decreases hi - lo,
    {
        let mid: u64 = lo + (hi - lo) / 2;
        assert(mid * mid < 0x1_0000_0000_0000) by (nonlinear_arith)
            requires
                0 <= mid < 0x100_0000,
        ;
        if mid * mid <= a {
            lo = mid;
        } else {
            hi = mid;
        }
    }
    lo
}

/// `sqrt(x)`, rounded to nearest.
pub fn square_root(x: u32) -> (r: u32)
    ensures
        r == root(x),
{
    let m: u32 = float_bits::abs_bits(x);
    if m == 0 {
        return x;
    }
    if m > INFINITY_BITS || x >= SIGN_BIT {
        return NAN_BITS;
    }
    if m == INFINITY_BITS {
        return INFINITY_BITS;
    }
    let (a, p) = float_bits::split_bits(x);
    let ghost n = float_bits::units(x) * float_bits::one();
    let odd: bool = (p + 149) % 2 == 1;
    let mut w: u64 = if odd {
        2 * (a as u64)
    } else {
        a as u64
    };
    let mut h: u32 = (p + 149) / 2;
    proof {
        lemma_pow2_adds(p as nat, 149);
        lemma_pow2_adds(h as nat, h as nat);
        lemma_pow2_unfold((2 * h + 1) as nat);
        let g = pow2(h as nat) as int;
        assert((a * pow2(p as nat)) * pow2(149) == a * (pow2(p as nat) * pow2(149)))
            by (nonlinear_arith);
        assert(n == w * (g * g)) by (nonlinear_arith)
            requires
                n == a * (g * g) && w == a || n == a * (2 * (g * g)) && w == 2 * a,
        ;
        assert(a > 0);
    }
    let ghost start = h;
    proof {
        lemma2_to64();
    }
    while w < 0x4000_0000_0000
        invariant
            0 < w < 0x1_0000_0000_0000,
            h <= start <= 201,
            start >= 74,
            h + 23 >= start,
            pow2((2 * (start - h)) as nat) <= w,
            n == w * (pow2(h as nat) * pow2(h as nat)),
        ensures
            w >= 0x4000_0000_0000,
            h + 23 >= start,
        decreases h,
    {
        proof {
            lemma2_to64_rest();
            let e = (2 * (start - h)) as nat;
            if e > 46 {
                lemma_pow2_strictly_increases(46, e);
            }
            lemma_pow2_unfold((e + 2) as nat);
            lemma_pow2_unfold((e + 1) as nat);
            lemma_pow2_unfold(h as nat);
            let g = pow2((h - 1) as nat) as int;
            assert(w * ((2 * g) * (2 * g)) == (4 * w) * (g * g)) by (nonlinear_arith);
        }
        w = 4 * w;
        h = h - 1;
    }
    let q: u64 = whole_root(w);
    proof {
        floor_root_is_unique(q as int, w as int);
        lemma_fundamental_div_mod_converse(w as int, 1, w as int, 0);
        let g = pow2(h as nat) as int;
        assert(g * 1 == g);
        lemma_nearest_root(w as int, n, 1, h as nat);
    }
    assert((2 * q + 1) * (2 * q + 1) <= 0x4_0000_0000_0000) by (nonlinear_arith)
        requires
            0 <= q < 0x100_0000,
    ;
    let t: u64 = (2 * q + 1) * (2 * q + 1);
    let m2: u64 = if 4 * w > t {
        q + 1
    } else {
        q
    };
    proof {
        assert(t * (1 * 1) == t);
    }
    h * 0x80_0000 + m2 as u32
}

} // verus!
