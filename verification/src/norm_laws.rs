//! What normalised rows are worth as real numbers.

use crate::float_bits;
use crate::float_bits::{INFINITY_BITS, ONE_BITS};
use crate::loss;
use crate::norms;
use crate::norms::NormView;
use crate::optim_laws;
use crate::order_laws;
use crate::roots;
use crate::rounding;
use crate::values;
use crate::values::{grain, size, speck, value};
use vstd::prelude::*;

verus! {

/// The exact sum of the first `k` squares.
pub open spec fn square_total(delta: Seq<real>, k: nat) -> real
    decreases k,
{
    if k == 0 {
        0real
    } else {
        square_total(delta, (k - 1) as nat) + delta[k - 1] * delta[k - 1]
    }
}

/// The square of a number that stands for another one.
proof fn lemma_square(e: u32, d: real)
    requires
        float_bits::finite(rounding::product(e, e)),
        size(value(e) - d) <= grain() * size(d),
    ensures
        float_bits::finite(e),
        size(value(rounding::product(e, e)) - d * d) <= 4real * (grain() * (d * d)) + speck(),
        d * d >= 0real,
        value(rounding::product(e, e)) >= 0real,
{
    values::products_are_close(e, e);
    values::value_has_the_sign(rounding::product(e, e));
    let (v, g) = (value(e), grain());
    values::sizes_multiply(d, d);
    let s = d * d;
    values::grains(s);
    let t = v - d;
    let gd = g * size(d);
    values::grains(size(d));
    values::sizes_multiply(t, t);
    values::sizes_multiply(t, d);
    assert(v * v - s == 2real * (t * d) + t * t) by (nonlinear_arith)
        requires
            t == v - d,
            s == d * d,
    ;
    assert(size(t) * size(d) <= g * s) by (nonlinear_arith)
        requires
            size(t) <= g * size(d),
            s == size(d) * size(d),
            size(d) >= 0real,
    ;
    values::grains(g * s);
    assert(size(t) * size(t) <= g * (g * s)) by (nonlinear_arith)
        requires
            0real <= size(t) <= g * size(d),
            s == size(d) * size(d),
            g > 0real,
    ;
    let gs = g * s;
    assert(size(v * v) <= s + 2real * gs + g * gs);
    assert(g * size(v * v) <= gs + 2real * (g * gs) + g * (g * gs)) by (nonlinear_arith)
        requires
            size(v * v) <= s + 2real * gs + g * gs,
            gs == g * s,
            g > 0real,
    ;
    values::grains(g * gs);
}

/// Squares that are each near, summed.
proof fn lemma_square_total(sq: Seq<u32>, delta: Seq<real>, k: nat)
    requires
        forall|i: int|
            0 <= i < k ==> {
                &&& size(value(#[trigger] sq[i]) - delta[i] * delta[i]) <= 4real * (grain() * (
                delta[i] * delta[i])) + speck()
                &&& delta[i] * delta[i] >= 0real
                &&& value(sq[i]) >= 0real
            },
    ensures
        size(values::total(sq, k) - square_total(delta, k)) <= 4real * (grain() * square_total(
            delta,
            k,
        )) + k as real * speck(),
        values::total_size(sq, k) == values::total(sq, k),
        square_total(delta, k) >= 0real,
    decreases k,
{
    let g = grain();
    if k == 0 {
        let s1 = speck();
        assert(g * 0real == 0real && 0real * s1 == 0real) by (nonlinear_arith);
    } else {
        let j = (k - 1) as nat;
        lemma_square_total(sq, delta, j);
        let (a, b) = (square_total(delta, j), delta[k - 1] * delta[k - 1]);
        assert(size(value(sq[k - 1]) - b) <= 4real * (g * b) + speck());
        assert(g * (a + b) == g * a + g * b) by (nonlinear_arith);
        let s1 = speck();
        assert(k as real * s1 == j as real * s1 + s1) by (nonlinear_arith)
            requires
                k as real == j as real + 1real,
        ;
    }
}

/// A running sum of squares is the exact one.
pub proof fn sums_of_squares_are_close(e: Seq<u32>, sq: Seq<u32>, delta: Seq<real>, n: nat)
    requires
        n <= 0x80_0000,
        float_bits::finite(loss::running_sum(sq, n)),
        forall|i: int|
            0 <= i < n ==> #[trigger] sq[i] == rounding::product(e[i], e[i]),
        forall|i: int|
            0 <= i < n ==> size(value(#[trigger] e[i]) - delta[i]) <= grain() * size(delta[i]),
    ensures
        size(value(loss::running_sum(sq, n)) - square_total(delta, n)) <= (4real * (n as real)
            + 4real) * (grain() * square_total(delta, n)) + 2real * (n as real * speck()),
        square_total(delta, n) >= 0real,
{
    values::finite_sums_have_finite_parts(sq, n);
    assert forall|i: int| 0 <= i < n implies {
        &&& size(value(#[trigger] sq[i]) - delta[i] * delta[i]) <= 4real * (grain() * (delta[i]
            * delta[i])) + speck()
        &&& delta[i] * delta[i] >= 0real
        &&& value(sq[i]) >= 0real
    } by {
        assert(sq[i] == rounding::product(e[i], e[i]));
        lemma_square(e[i], delta[i]);
    }
    lemma_square_total(sq, delta, n);
    values::running_sums_are_close(sq, n);
    let (g, s, nr) = (grain(), speck(), n as real);
    let (d, t) = (square_total(delta, n), values::total(sq, n));
    let (gd, ns) = (g * d, nr * s);
    values::grains(d);
    values::specks_are_small();
    assert(ns >= 0real) by (nonlinear_arith)
        requires
            ns == nr * s,
            nr >= 0real,
            s > 0real,
    ;
    assert(0real <= t <= d + 4real * gd + ns);
    let gt = g * t;
    values::grains(t);
    assert(gt <= 2real * gd + g * ns) by (nonlinear_arith)
        requires
            t <= d + 4real * gd + ns,
            gt == g * t,
            gd == g * d,
            g > 0real,
            16777216real * (g * d) == d,
            gd >= 0real,
            g <= 1real / 16777216real,
    ;
    values::grains(ns);
    assert(2real * nr * gt <= 4real * nr * gd + ns) by (nonlinear_arith)
        requires
            gt <= 2real * gd + g * ns,
            16777216real * (g * ns) == ns,
            0real <= nr <= 8388608real,
            g * ns >= 0real,
    ;
    assert((4real * nr + 4real) * gd == 4real * nr * gd + 4real * gd) by (nonlinear_arith);
}

/// Row `t` of a matrix.
pub open spec fn row(x: Seq<u32>, d: int, t: int) -> Seq<u32> {
    Seq::new(d as nat, |k: int| x[t * d + k])
}

proof fn lemma_row_sum(x: Seq<u32>, d: int, t: int, k: nat)
    requires
        k <= d,
    ensures
        norms::row_sum(x, d, t, k) == loss::running_sum(row(x, d, t), k),
    decreases k,
{
    if k > 0 {
        lemma_row_sum(x, d, t, (k - 1) as nat);
    }
}

/// The mean of a row times its length is its sum.
pub proof fn means_share_out_the_sum(x: Seq<u32>, d: int, t: int)
    requires
        0 < d <= 0x80_0000,
        float_bits::finite(norms::row_mean(x, d, t)),
        float_bits::finite(norms::row_sum(x, d, t, d as nat)),
    ensures
        size(value(norms::row_mean(x, d, t)) * (d as real) - values::total(row(x, d, t), d as nat))
            <= (2real * (d as real) + 2real) * (grain() * values::total_size(
            row(x, d, t),
            d as nat,
        )) + speck() * (d as real),
{
    lemma_row_sum(x, d, t, d as nat);
    values::running_sums_are_close(row(x, d, t), d as nat);
    values::counts_are_exact(d);
    let s = norms::row_sum(x, d, t, d as nat);
    values::quotients_multiply_back(s, rounding::count_value(d));
    let (g, dr, a) = (grain(), d as real, values::total_size(row(x, d, t), d as nat));
    let ga = g * a;
    values::grains(a);
    let b = 2real * dr * ga;
    assert(b <= a) by (nonlinear_arith)
        requires
            b == 2real * dr * ga,
            16777216real * ga == a,
            0real < dr <= 8388608real,
            a >= 0real,
    ;
    let v1 = value(s);
    assert(g * size(v1) <= 2real * ga) by (nonlinear_arith)
        requires
            size(v1) <= 2real * a,
            g > 0real,
            ga == g * a,
    ;
    assert((2real * dr + 2real) * ga == b + 2real * ga) by (nonlinear_arith)
        requires
            b == 2real * dr * ga,
    ;
}

/// How far every element of a row is from a centre.
pub open spec fn offsets(x: Seq<u32>, d: int, t: int, centre: real) -> Seq<real> {
    Seq::new(d as nat, |k: int| value(x[t * d + k]) - centre)
}

spec fn rounded_offsets(x: Seq<u32>, d: int, t: int, mean: u32) -> Seq<u32> {
    Seq::new(d as nat, |k: int| rounding::difference(x[t * d + k], mean))
}

spec fn squared(e: Seq<u32>) -> Seq<u32> {
    Seq::new(e.len(), |k: int| rounding::product(e[k], e[k]))
}

proof fn lemma_spread(x: Seq<u32>, d: int, t: int, mean: u32, k: nat)
    requires
        k <= d,
    ensures
        norms::spread(x, d, t, mean, k) == loss::running_sum(
            squared(rounded_offsets(x, d, t, mean)),
            k,
        ),
    decreases k,
{
    if k > 0 {
        lemma_spread(x, d, t, mean, (k - 1) as nat);
    }
}

proof fn lemma_square_sum(x: Seq<u32>, d: int, t: int, k: nat)
    requires
        k <= d,
    ensures
        norms::square_sum(x, d, t, k) == loss::running_sum(squared(row(x, d, t)), k),
    decreases k,
{
    if k > 0 {
        lemma_square_sum(x, d, t, (k - 1) as nat);
    }
}

/// From a summed square to the root of its mean, with a floor under it.
proof fn lemma_root_of_mean(spread: u32, d: int, eps: u32, exact: real)
    requires
        0 < d <= 0x80_0000,
        spread < INFINITY_BITS,
        eps < INFINITY_BITS,
        exact >= 0real,
        size(value(spread) - exact) <= (4real * (d as real) + 4real) * (grain() * exact) + 2real * (
        d as real * speck()),
        float_bits::finite(rounding::quotient(spread, rounding::count_value(d))),
        float_bits::finite(
            rounding::sum(rounding::quotient(spread, rounding::count_value(d)), eps),
        ),
    ensures
        ({
            let r = value(
                roots::root(
                    rounding::sum(rounding::quotient(spread, rounding::count_value(d)), eps),
                ),
            );
            let full = exact + d as real * value(eps);
            &&& r >= 0real
            &&& size(r * r * (d as real) - full) <= (8real * (d as real) + 16real) * (grain()
                * full) + 8real * (d as real * speck())
        }),
{
    let var = rounding::quotient(spread, rounding::count_value(d));
    let w = rounding::sum(var, eps);
    let root = roots::root(w);
    values::counts_are_exact(d);
    let c = rounding::count_value(d);
    optim_laws::lemma_quotient_sign(spread, c);
    order_laws::sums_grow(var, eps);
    values::roots_square_back(w);
    values::value_has_the_sign(root);
    values::value_has_the_sign(var);
    values::value_has_the_sign(eps);
    values::value_has_the_sign(w);
    values::value_has_the_sign(spread);
    values::quotients_multiply_back(spread, c);
    values::sums_are_close(var, eps);
    let (g, s, dr) = (grain(), speck(), d as real);
    let (r, v, e, wv, sp) = (value(root), value(var), value(eps), value(w), value(spread));
    let a = v + e;
    let b = a * dr;
    // The square of the root, times the length.
    let f = r * r;
    values::grains(a);
    values::grains(wv);
    assert(size(f - a) <= 6real * (g * a)) by {
        assert(g * wv <= 2real * (g * a)) by (nonlinear_arith)
            requires
                wv <= 2real * a,
                g > 0real,
        ;
        assert(g * wv <= g * a + g * (g * a)) by (nonlinear_arith)
            requires
                wv <= a + g * a,
                g > 0real,
        ;
        values::grains(g * a);
    }
    let h = f - a;
    values::sizes_multiply(h, dr);
    assert(h * dr == f * dr - b) by (nonlinear_arith)
        requires
            h == f - a,
            b == a * dr,
    ;
    assert(size(h) * dr <= 6real * (g * b)) by (nonlinear_arith)
        requires
            size(h) <= 6real * (g * a),
            b == a * dr,
            dr > 0real,
    ;
    let ed = dr * e;
    assert(b == v * dr + ed) by (nonlinear_arith)
        requires
            b == (v + e) * dr,
            ed == dr * e,
    ;
    let ds = dr * s;
    values::specks_are_small();
    assert(ds > 0real && s * dr == ds) by (nonlinear_arith)
        requires
            ds == dr * s,
            dr > 0real,
            s > 0real,
    ;
    assert(ed >= 0real) by (nonlinear_arith)
        requires
            ed == dr * e,
            dr > 0real,
            e >= 0real,
    ;
    let full = exact + ed;
    let tau = (4real * dr + 4real) * (g * exact) + 2real * ds;
    let gx = g * exact;
    values::grains(exact);
    values::grains(full);
    values::grains(sp);
    values::grains(ds);
    values::grains(b);
    // No tolerance is larger than what it is a tolerance of.
    assert((4real * dr + 4real) * gx <= 3real * exact) by (nonlinear_arith)
        requires
            16777216real * gx == exact,
            0real < dr <= 8388608real,
            gx >= 0real,
    ;
    assert(sp <= 4real * exact + 2real * ds);
    assert(g * sp <= gx + g * tau) by (nonlinear_arith)
        requires
            sp <= exact + tau,
            gx == g * exact,
            g > 0real,
    ;
    values::grains(tau);
    assert(16777216real * (g * tau) == tau);
    assert(b <= full + tau + g * sp + ds);
    assert(g * b <= g * full + g * tau + g * (g * sp) + g * ds) by (nonlinear_arith)
        requires
            b <= full + tau + g * sp + ds,
            g > 0real,
    ;
    values::grains(g * sp);
    assert(gx <= g * full) by (nonlinear_arith)
        requires
            gx == g * exact,
            exact <= full,
            g > 0real,
    ;
    assert((4real * dr + 4real) * gx <= (4real * dr + 4real) * (g * full)) by (nonlinear_arith)
        requires
            gx <= g * full,
            dr > 0real,
    ;
    let gf = g * full;
    assert((8real * dr + 16real) * gf == 2real * ((4real * dr + 4real) * gf) + 8real * gf)
        by (nonlinear_arith);
    let k = (4real * dr + 4real) * gf;
    assert(k >= 0real) by (nonlinear_arith)
        requires
            k == (4real * dr + 4real) * gf,
            dr > 0real,
            gf >= 0real,
    ;
}

/// The deviation of a row, squared and times its length, is the sum of the squared distances from
/// the mean with `eps` for every element.
pub proof fn deviations_measure_the_spread(x: Seq<u32>, d: int, t: int, eps: u32)
    requires
        0 < d <= 0x80_0000,
        eps < INFINITY_BITS,
        float_bits::finite(norms::row_mean(x, d, t)),
        float_bits::finite(norms::spread(x, d, t, norms::row_mean(x, d, t), d as nat)),
        float_bits::finite(
            rounding::sum(
                rounding::quotient(
                    norms::spread(x, d, t, norms::row_mean(x, d, t), d as nat),
                    rounding::count_value(d),
                ),
                eps,
            ),
        ),
    ensures
        ({
            let r = value(norms::row_deviation(x, d, t, eps));
            let full = square_total(
                offsets(x, d, t, value(norms::row_mean(x, d, t))),
                d as nat,
            ) + d as real * value(eps);
            &&& r >= 0real
            &&& size(r * r * (d as real) - full) <= (8real * (d as real) + 16real) * (grain()
                * full) + 8real * (d as real * speck())
        }),
{
    let m = norms::row_mean(x, d, t);
    let (e, delta) = (rounded_offsets(x, d, t, m), offsets(x, d, t, value(m)));
    let sq = squared(e);
    lemma_spread(x, d, t, m, d as nat);
    values::finite_sums_have_finite_parts(sq, d as nat);
    assert forall|i: int| 0 <= i < d implies size(value(#[trigger] e[i]) - delta[i]) <= grain()
        * size(delta[i]) by {
        assert(float_bits::finite(sq[i]));
        values::opposites_are_exact(m);
        values::differences_are_close(x[t * d + i], m);
    }
    sums_of_squares_are_close(e, sq, delta, d as nat);
    lemma_sums_of_squares_have_no_sign(sq, e, d as nat);
    lemma_root_of_mean(
        norms::spread(x, d, t, m, d as nat),
        d,
        eps,
        square_total(delta, d as nat),
    );
}

/// A sum of squares is not negative.
proof fn lemma_sums_of_squares_have_no_sign(sq: Seq<u32>, e: Seq<u32>, k: nat)
    requires
        float_bits::finite(loss::running_sum(sq, k)),
        forall|i: int| 0 <= i < k ==> #[trigger] sq[i] == rounding::product(e[i], e[i]),
    ensures
        loss::running_sum(sq, k) < INFINITY_BITS,
    decreases k,
{
    if k > 0 {
        let (a, b) = (loss::running_sum(sq, (k - 1) as nat), sq[k - 1]);
        assert(sq[k - 1] == rounding::product(e[k - 1], e[k - 1]));
        lemma_sums_of_squares_have_no_sign(sq, e, (k - 1) as nat);
        order_laws::squares_are_not_negative(e[k - 1]);
        order_laws::sums_grow(a, b);
    }
}

/// The root mean square of a row, squared and times its length, is the sum of the squares with
/// `eps` for every element.
pub proof fn root_mean_squares_measure_the_row(x: Seq<u32>, d: int, t: int, eps: u32)
    requires
        0 < d <= 0x80_0000,
        eps < INFINITY_BITS,
        float_bits::finite(norms::square_sum(x, d, t, d as nat)),
        float_bits::finite(
            rounding::sum(
                rounding::quotient(
                    norms::square_sum(x, d, t, d as nat),
                    rounding::count_value(d),
                ),
                eps,
            ),
        ),
    ensures
        ({
            let r = value(norms::row_rms(x, d, t, eps));
            let full = square_total(offsets(x, d, t, 0real), d as nat) + d as real * value(eps);
            &&& r >= 0real
            &&& size(r * r * (d as real) - full) <= (8real * (d as real) + 16real) * (grain()
                * full) + 8real * (d as real * speck())
        }),
{
    let (e, delta) = (row(x, d, t), offsets(x, d, t, 0real));
    let sq = squared(e);
    lemma_square_sum(x, d, t, d as nat);
    assert forall|i: int| 0 <= i < d implies size(value(#[trigger] e[i]) - delta[i]) <= grain()
        * size(delta[i]) by {
        values::grains(size(delta[i]));
    }
    sums_of_squares_are_close(e, sq, delta, d as nat);
    lemma_sums_of_squares_have_no_sign(sq, e, d as nat);
    lemma_root_of_mean(norms::square_sum(x, d, t, d as nat), d, eps, square_total(delta, d as nat));
}

/// Whether `y` is `(x - centre) / width * gamma + beta`: for some `z` that times the width is the
/// distance from the centre.
pub open spec fn is_normed(
    x: real,
    centre: real,
    width: real,
    gamma: real,
    beta: real,
    y: real,
) -> bool {
    exists|z: real| #[trigger] normed_by(x, centre, width, gamma, beta, y, z)
}

/// The part `z` of a normalised element before it is scaled and shifted.
pub open spec fn normed_by(
    x: real,
    centre: real,
    width: real,
    gamma: real,
    beta: real,
    y: real,
    z: real,
) -> bool {
    &&& size(z * width - (x - centre)) <= 4real * (grain() * size(x - centre)) + speck() * width
    &&& size(y - (z * gamma + beta)) <= 4real * (grain() * (size(z * gamma) + size(beta))) + 2real
        * speck()
}

proof fn lemma_scaled_and_shifted(z: u32, gamma: u32, beta: u32)
    requires
        float_bits::finite(rounding::sum(rounding::product(z, gamma), beta)),
    ensures
        ({
            let y = value(rounding::sum(rounding::product(z, gamma), beta));
            let (p, b) = (value(z) * value(gamma), value(beta));
            size(y - (p + b)) <= 4real * (grain() * (size(p) + size(b))) + 2real * speck()
        }),
{
    let q = rounding::product(z, gamma);
    values::products_are_close(z, gamma);
    let (p, b) = (value(z) * value(gamma), value(beta));
    values::grains(size(p));
    values::grains(size(b));
    values::sums_of_near_numbers(q, beta, p, b, grain() * size(p) + speck(), 0real);
    let g1 = grain();
    assert(g1 * (size(p) + size(b)) == g1 * size(p) + g1 * size(b))
        by (nonlinear_arith);
}

/// Layer normalisation takes the mean of the row away, divides by its deviation, and scales and
/// shifts every channel by its own factor and its own shift.
pub proof fn layer_norm_scales_every_channel(n: NormView, x: Seq<u32>, d: int, t: int, k: int)
    requires
        n.beta is Some,
        0 <= k < d,
        0 <= t,
        t * d + k < x.len(),
        float_bits::finite(norms::row_mean(x, d, t)),
        0 < norms::row_deviation(x, d, t, n.eps) < INFINITY_BITS,
        float_bits::finite(n.output(x, d)[t * d + k]),
    ensures
        is_normed(
            value(x[t * d + k]),
            value(norms::row_mean(x, d, t)),
            value(norms::row_deviation(x, d, t, n.eps)),
            value(n.gamma.data[k]),
            value(n.beta->0.data[k]),
            value(n.output(x, d)[t * d + k]),
        ),
{
    let p = t * d + k;
    lemma_place(t, k, d);
    let (m, w) = (norms::row_mean(x, d, t), norms::row_deviation(x, d, t, n.eps));
    let (gamma, beta) = (n.gamma.data[k], n.beta->0.data[k]);
    let off = rounding::difference(x[p], m);
    let z = rounding::quotient(off, w);
    lemma_scaled_and_shifted(z, gamma, beta);
    values::opposites_are_exact(m);
    values::differences_are_close(x[p], m);
    values::value_has_the_sign(w);
    values::quotients_multiply_back(off, w);
    let e = value(x[p]) - value(m);
    let g = grain();
    values::grains(size(e));
    let v1 = value(off);
    assert(g * size(v1) <= g * size(e) + g * (g * size(e))) by (nonlinear_arith)
        requires
            size(v1) <= size(e) + g * size(e),
            g > 0real,
    ;
    values::grains(g * size(e));
    assert(normed_by(
        value(x[p]),
        value(m),
        value(w),
        value(gamma),
        value(beta),
        value(n.output(x, d)[p]),
        value(z),
    ));
}

/// Root mean square normalisation divides by the root mean square of the row and scales every
/// channel by its own factor.
pub proof fn rms_norm_scales_every_channel(n: NormView, x: Seq<u32>, d: int, t: int, k: int)
    requires
        n.beta is None,
        0 <= k < d,
        0 <= t,
        t * d + k < x.len(),
        0 < norms::row_rms(x, d, t, n.eps) < INFINITY_BITS,
        float_bits::finite(n.output(x, d)[t * d + k]),
    ensures
        is_normed(
            value(x[t * d + k]),
            0real,
            value(norms::row_rms(x, d, t, n.eps)),
            value(n.gamma.data[k]),
            0real,
            value(n.output(x, d)[t * d + k]),
        ),
{
    let p = t * d + k;
    lemma_place(t, k, d);
    let w = norms::row_rms(x, d, t, n.eps);
    let gamma = n.gamma.data[k];
    let z = rounding::quotient(x[p], w);
    values::products_are_close(z, gamma);
    values::value_has_the_sign(w);
    values::quotients_multiply_back(x[p], w);
    values::specks_are_small();
    values::grains(size(value(x[p])));
    values::grains(size(value(z) * value(gamma)));
    assert(normed_by(
        value(x[p]),
        0real,
        value(w),
        value(gamma),
        0real,
        value(n.output(x, d)[p]),
        value(z),
    ));
}

proof fn lemma_place(t: int, k: int, d: int)
    requires
        0 <= k < d,
        0 <= t,
    ensures
        (t * d + k) / d == t,
        (t * d + k) % d == k,
        t * d + k >= 0,
{
    vstd::arithmetic::div_mod::lemma_fundamental_div_mod_converse(t * d + k, d, t, k);
    assert(t * d >= 0) by (nonlinear_arith)
        requires
            t >= 0,
            d >= 0,
    ;
}

/// A channel follows its own factor and shift alone: two normalisations that agree on channel `k`
/// give it the same output, whatever the other channels' factors and shifts are.
pub proof fn channels_follow_their_own_factor(
    a: NormView,
    b: NormView,
    x: Seq<u32>,
    d: int,
    t: int,
    k: int,
)
    requires
        0 <= k < d,
        0 <= t,
        t * d + k < x.len(),
        a.eps == b.eps,
        a.gamma.data[k] == b.gamma.data[k],
        a.beta is Some == b.beta is Some,
        a.beta is Some ==> a.beta->0.data[k] == b.beta->0.data[k],
    ensures
        a.output(x, d)[t * d + k] == b.output(x, d)[t * d + k],
{
    lemma_place(t, k, d);
}

/// Where channel `k` is not shifted, its output is what it is under the factor one, times its own
/// factor: doubling the factor doubles the channel in every row.
pub proof fn factors_multiply_their_channel(
    plain: NormView,
    n: NormView,
    x: Seq<u32>,
    d: int,
    t: int,
    k: int,
)
    requires
        0 <= k < d,
        0 <= t,
        t * d + k < x.len(),
        plain.eps == n.eps,
        plain.gamma.data[k] == ONE_BITS,
        plain.beta is Some == n.beta is Some,
        n.beta is Some ==> plain.beta->0.data[k] == 0 && n.beta->0.data[k] == 0,
        float_bits::finite(plain.output(x, d)[t * d + k]),
        float_bits::finite(n.output(x, d)[t * d + k]),
    ensures
        value(n.output(x, d)[t * d + k]) == value(
            rounding::product(plain.output(x, d)[t * d + k], n.gamma.data[k]),
        ),
{
    lemma_place(t, k, d);
    let p = t * d + k;
    let gamma = n.gamma.data[k];
    let z = if n.beta is Some {
        rounding::quotient(
            rounding::difference(x[p], norms::row_mean(x, d, t)),
            norms::row_deviation(x, d, t, n.eps),
        )
    } else {
        rounding::quotient(x[p], norms::row_rms(x, d, t, n.eps))
    };
    crate::awq::product_by_one(z);
    if n.beta is Some {
        let q = rounding::product(z, gamma);
        assert(float_bits::finite(z));
        optim_laws::lemma_plus_nothing(z, 0);
        optim_laws::lemma_plus_nothing(q, 0);
        let y = plain.output(x, d)[p];
        assert(y == rounding::sum(z, 0));
        if float_bits::magnitude(z) == 0 {
            order_laws::zeros_add_up_to_zero(z, 0);
            crate::layer_laws::product_with_zero(gamma, y);
            crate::layer_laws::product_with_zero(gamma, z);
            values::value_has_the_sign(rounding::product(y, gamma));
            values::value_has_the_sign(q);
        } else {
            crate::layer_laws::sum_with_zero(z, 0);
        }
    }
}

/// A shift is added to its channel.
pub proof fn shifts_are_added_to_their_channel(
    plain: NormView,
    n: NormView,
    x: Seq<u32>,
    d: int,
    t: int,
    k: int,
)
    requires
        0 <= k < d,
        0 <= t,
        t * d + k < x.len(),
        plain.eps == n.eps,
        plain.gamma.data[k] == n.gamma.data[k],
        plain.beta is Some,
        n.beta is Some,
        plain.beta->0.data[k] == 0,
        float_bits::finite(plain.output(x, d)[t * d + k]),
        float_bits::finite(n.output(x, d)[t * d + k]),
    ensures
        value(n.output(x, d)[t * d + k]) == value(
            rounding::sum(plain.output(x, d)[t * d + k], n.beta->0.data[k]),
        ),
{
    lemma_place(t, k, d);
    let p = t * d + k;
    let (gamma, beta) = (n.gamma.data[k], n.beta->0.data[k]);
    let z = rounding::quotient(
        rounding::difference(x[p], norms::row_mean(x, d, t)),
        norms::row_deviation(x, d, t, n.eps),
    );
    let q = rounding::product(z, gamma);
    optim_laws::lemma_plus_nothing(q, 0);
    let y = plain.output(x, d)[p];
    assert(y == rounding::sum(q, 0));
    if float_bits::magnitude(q) == 0 {
        order_laws::zeros_add_up_to_zero(q, 0);
        optim_laws::lemma_plus_nothing(beta, q);
        optim_laws::lemma_plus_nothing(beta, y);
    } else {
        crate::layer_laws::sum_with_zero(q, 0);
    }
}

/// Rows are normalised one by one: a row that two inputs share has the same output in both.
pub proof fn rows_are_normalised_alone(
    n: NormView,
    x: Seq<u32>,
    y: Seq<u32>,
    d: int,
    t: int,
    u: int,
    k: int,
)
    requires
        0 <= k < d,
        0 <= t,
        0 <= u,
        t * d + d <= x.len(),
        u * d + d <= y.len(),
        forall|i: int| 0 <= i < d ==> x[t * d + i] == #[trigger] y[u * d + i],
    ensures
        n.output(x, d)[t * d + k] == n.output(y, d)[u * d + k],
{
    lemma_place(t, k, d);
    lemma_place(u, k, d);
    assert(x[t * d + k] == y[u * d + k]);
    assert(row(x, d, t) =~= row(y, d, u));
    lemma_row_sum(x, d, t, d as nat);
    lemma_row_sum(y, d, u, d as nat);
    let m = norms::row_mean(x, d, t);
    assert(m == norms::row_mean(y, d, u));
    assert(rounded_offsets(x, d, t, m) =~= rounded_offsets(y, d, u, m));
    lemma_spread(x, d, t, m, d as nat);
    lemma_spread(y, d, u, m, d as nat);
    lemma_square_sum(x, d, t, d as nat);
    lemma_square_sum(y, d, u, d as nat);
}

} // verus!
