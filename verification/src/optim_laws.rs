//! What the steps of the optimisers are worth as real numbers.

use crate::float_bits;
use crate::float_bits::{INFINITY_BITS, ONE_BITS};
use crate::layer_laws;
use crate::optim;
use crate::optim::{AdamRates, AdamSlot, EPS};
use crate::order_laws;
use crate::params::ParamView;
use crate::roots;
use crate::rounding;
use crate::values;
use crate::values::{grain, size, speck, value};
use vstd::prelude::*;

verus! {

/// A running mean with weight `b` for what is there: `b * old + (1 - b) * new`.
pub open spec fn mixed(b: real, old: real, new: real) -> real {
    b * old + (1real - b) * new
}

/// How large the parts of a running mean are.
pub open spec fn mixed_size(b: real, old: real, new: real) -> real {
    size(b * old) + size((1real - b) * new)
}

/// The weight of what is new, `1 - b`.
proof fn lemma_rest(b: u32)
    requires
        float_bits::finite(rounding::difference(ONE_BITS, b)),
    ensures
        float_bits::finite(b),
        size(value(rounding::difference(ONE_BITS, b)) - (1real - value(b))) <= grain() * size(
            1real - value(b),
        ),
{
    values::one_has_value_one();
    values::differences_are_close(ONE_BITS, b);
}

/// The first moment after a step is the running mean of the gradients: element by element, it is
/// `beta1` times the old moment plus `1 - beta1` times the gradient of the same element.
pub proof fn first_moments_are_running_means(a: AdamRates, s: AdamSlot, j: int)
    requires
        s.param.requires_grad,
        0 <= j < s.m.len(),
        float_bits::finite(optim::adam_update(a, s).m[j]),
    ensures
        ({
            let (b, m, g) = (value(a.beta1), value(s.m[j]), value(s.param.grad[j]));
            size(value(optim::adam_update(a, s).m[j]) - mixed(b, m, g)) <= 8real * (grain()
                * mixed_size(b, m, g)) + 4real * speck()
        }),
{
    let (m, g) = (s.m[j], s.param.grad[j]);
    let d = rounding::difference(ONE_BITS, a.beta1);
    let (p, q) = (rounding::product(a.beta1, m), rounding::product(d, g));
    lemma_rest(a.beta1);
    let (b, vm, vg) = (value(a.beta1), value(m), value(g));
    let r = 1real - b;
    values::products_are_close(a.beta1, m);
    let t = grain() * size(r);
    values::products_of_near_numbers(d, g, r, t);
    values::sizes_multiply(r, vg);
    let (x, y) = (size(b * vm), size(r * vg));
    let (gx, gy) = (grain() * x, grain() * y);
    values::grains(x);
    values::grains(y);
    let g1 = grain();
    assert(t * size(vg) == gy) by (nonlinear_arith)
        requires
            t == g1 * size(r),
            y == size(r) * size(vg),
            gy == g1 * y,
    ;
    values::sums_of_near_numbers(p, q, b * vm, r * vg, gx + speck(), 3real * gy + speck());
    let g1 = grain();
    assert(g1 * (x + y) == gx + gy) by (nonlinear_arith)
        requires
            gx == g1 * x,
            gy == g1 * y,
    ;
}

/// The second moment after a step is the running mean of the squared gradients.
pub proof fn second_moments_are_running_means(a: AdamRates, s: AdamSlot, j: int)
    requires
        s.param.requires_grad,
        0 <= j < s.v.len(),
        float_bits::finite(optim::adam_update(a, s).v[j]),
    ensures
        ({
            let (b, v, g) = (value(a.beta2), value(s.v[j]), value(s.param.grad[j]));
            size(value(optim::adam_update(a, s).v[j]) - mixed(b, v, g * g)) <= 16real * (grain()
                * mixed_size(b, v, g * g)) + 4real * (speck() * (1real + size(g)))
        }),
{
    let (v, g) = (s.v[j], s.param.grad[j]);
    let d = rounding::difference(ONE_BITS, a.beta2);
    let p = rounding::product(a.beta2, v);
    let h = rounding::product(d, g);
    let q = rounding::product(h, g);
    lemma_rest(a.beta2);
    let (b, vv, vg) = (value(a.beta2), value(v), value(g));
    let r = 1real - b;
    values::products_are_close(a.beta2, v);
    let t = grain() * size(r);
    values::products_of_near_numbers(d, g, r, t);
    values::sizes_multiply(r, vg);
    let z = size(r * vg);
    values::grains(z);
    let g1 = grain();
    assert(t * size(vg) == g1 * z) by (nonlinear_arith)
        requires
            t == g1 * size(r),
            z == size(r) * size(vg),
    ;
    let u = 3real * (grain() * z) + speck();
    values::products_of_near_numbers(h, g, r * vg, u);
    values::sizes_multiply(r * vg, vg);
    assert((r * vg) * vg == r * (vg * vg)) by (nonlinear_arith);
    let (x, y) = (size(b * vv), size(r * (vg * vg)));
    let (gx, gy) = (grain() * x, grain() * y);
    let sg = speck() * size(vg);
    values::grains(x);
    values::grains(y);
    let s1 = speck();
    let g1 = grain();
    assert(u * size(vg) == 3real * gy + sg) by (nonlinear_arith)
        requires
            u == 3real * (g1 * z) + s1,
            y == z * size(vg),
            gy == g1 * y,
            sg == s1 * size(vg),
    ;
    values::sums_of_near_numbers(
        p,
        q,
        b * vv,
        r * (vg * vg),
        gx + speck(),
        7real * gy + 2real * sg + speck(),
    );
    let g1 = grain();
    assert(g1 * (x + y) == gx + gy) by (nonlinear_arith)
        requires
            gx == g1 * x,
            gy == g1 * y,
    ;
    let s1 = speck();
    assert(s1 * (1real + size(vg)) == s1 + sg) by (nonlinear_arith)
        requires
            sg == s1 * size(vg),
    ;
}

/// Without a gradient the moments only fade: the first is `beta1` times the old one and the second
/// `beta2` times.
pub proof fn moments_fade_without_a_gradient(a: AdamRates, s: AdamSlot, j: int)
    requires
        s.param.requires_grad,
        0 <= j < s.m.len(),
        0 <= j < s.v.len(),
        float_bits::magnitude(s.param.grad[j]) == 0,
        float_bits::finite(a.beta1),
        float_bits::finite(a.beta2),
        float_bits::finite(rounding::difference(ONE_BITS, a.beta1)),
        float_bits::finite(rounding::difference(ONE_BITS, a.beta2)),
        float_bits::finite(rounding::product(a.beta1, s.m[j])),
        float_bits::finite(rounding::product(a.beta2, s.v[j])),
    ensures
        value(optim::adam_update(a, s).m[j]) == value(rounding::product(a.beta1, s.m[j])),
        value(optim::adam_update(a, s).v[j]) == value(rounding::product(a.beta2, s.v[j])),
{
    let g = s.param.grad[j];
    let (d, e) = (rounding::difference(ONE_BITS, a.beta1), rounding::difference(ONE_BITS, a.beta2));
    layer_laws::product_with_zero(d, g);
    layer_laws::product_with_zero(e, g);
    layer_laws::product_with_zero(g, rounding::product(e, g));
    lemma_plus_nothing(rounding::product(a.beta1, s.m[j]), rounding::product(d, g));
    lemma_plus_nothing(
        rounding::product(a.beta2, s.v[j]),
        rounding::product(rounding::product(e, g), g),
    );
}

/// Adding zero does not change a finite value.
pub proof fn lemma_plus_nothing(x: u32, z: u32)
    requires
        float_bits::finite(x),
        float_bits::magnitude(z) == 0,
    ensures
        value(rounding::sum(x, z)) == value(x),
        value(rounding::sum(z, x)) == value(x),
        float_bits::finite(rounding::sum(x, z)),
        float_bits::finite(rounding::sum(z, x)),
{
    values::value_has_the_sign(x);
    values::value_has_the_sign(z);
    order_laws::zero_has_no_units(z);
    if float_bits::magnitude(x) == 0 {
        order_laws::zeros_add_up_to_zero(x, z);
        order_laws::zeros_add_up_to_zero(z, x);
        values::value_has_the_sign(rounding::sum(x, z));
        values::value_has_the_sign(rounding::sum(z, x));
    } else {
        layer_laws::sum_with_zero(x, z);
        assert(rounding::sum(z, x) == rounding::sum(x, z));
    }
}

/// The first moment remembers: two states that differ in it by more than rounding can hide still
/// differ in it after a step with the same gradient.
pub proof fn different_moments_stay_different(a: AdamRates, s: AdamSlot, t: AdamSlot, j: int)
    requires
        s.param.requires_grad,
        t.param.requires_grad,
        0 <= j < s.m.len(),
        0 <= j < t.m.len(),
        s.param.grad[j] == t.param.grad[j],
        float_bits::finite(optim::adam_update(a, s).m[j]),
        float_bits::finite(optim::adam_update(a, t).m[j]),
        ({
            let (b, g) = (value(a.beta1), value(s.param.grad[j]));
            let (m, k) = (value(s.m[j]), value(t.m[j]));
            size(b * (m - k)) > 8real * (grain() * (mixed_size(b, m, g) + mixed_size(b, k, g)))
                + 8real * speck()
        }),
    ensures
        optim::adam_update(a, s).m[j] != optim::adam_update(a, t).m[j],
{
    first_moments_are_running_means(a, s, j);
    first_moments_are_running_means(a, t, j);
    let (b, g) = (value(a.beta1), value(s.param.grad[j]));
    let (m, k) = (value(s.m[j]), value(t.m[j]));
    assert(b * (m - k) == b * m - b * k) by (nonlinear_arith);
    let (x, y) = (mixed_size(b, m, g), mixed_size(b, k, g));
    let g1 = grain();
    assert(g1 * (x + y) == g1 * x + g1 * y) by (nonlinear_arith);
}

/// Whether `y` is what one step makes of `x`, given the new moments: the moments are freed of the
/// bias of having started from zero, the step is the first over the root of the second, and the
/// decay is a share of `x` itself, whatever the gradients were.
pub open spec fn is_adam_move(a: AdamRates, x: real, m: real, v: real, y: real) -> bool {
    exists|mh: real, vh: real, root: real, step: real| #[trigger]
        moves_by(a, x, m, v, y, mh, vh, root, step)
}

/// The parts of a step: the freed moments `mh` and `vh`, the root of the second and the step.
pub open spec fn moves_by(
    a: AdamRates,
    x: real,
    m: real,
    v: real,
    y: real,
    mh: real,
    vh: real,
    root: real,
    step: real,
) -> bool {
    let (lr, w, eps) = (value(a.lr), value(a.weight_decay), value(EPS));
    let (bc1, bc2) = (value(a.bc1), value(a.bc2));
    &&& size(mh * bc1 - m) <= grain() * size(m) + speck() * bc1
    &&& size(vh * bc2 - v) <= grain() * size(v) + speck() * bc2
    &&& root >= 0real
    &&& size(root * root - vh) <= 4real * (grain() * vh)
    &&& size(step * (root + eps) - lr * mh) <= 4real * (grain() * (size(step * (root + eps)) + size(
        lr * mh,
    ))) + 4real * (speck() * (1real + root + eps))
    &&& size(y - (x - step - (lr * w) * x)) <= 8real * (grain() * (size(x) + size(step) + size(
        (lr * w) * x,
    ))) + 8real * (speck() * (1real + size(x)))
}

/// A step moves every element by its own freed moments and lets it decay by its own share.
pub proof fn adam_moves_by_its_moments(a: AdamRates, s: AdamSlot, j: int)
    requires
        s.param.requires_grad,
        0 <= j < s.param.data.len(),
        s.m.len() == s.param.data.len(),
        s.v.len() == s.param.data.len(),
        0 < a.bc1 < INFINITY_BITS,
        0 < a.bc2 < INFINITY_BITS,
        optim::adam_update(a, s).v[j] < INFINITY_BITS,
        float_bits::finite(rounding::quotient(optim::adam_update(a, s).v[j], a.bc2)),
        float_bits::finite(optim::adam_update(a, s).param.data[j]),
    ensures
        is_adam_move(
            a,
            value(s.param.data[j]),
            value(optim::adam_update(a, s).m[j]),
            value(optim::adam_update(a, s).v[j]),
            value(optim::adam_update(a, s).param.data[j]),
        ),
{
    let (x, m, v) = (
        s.param.data[j],
        optim::adam_update(a, s).m[j],
        optim::adam_update(a, s).v[j],
    );
    let mh = rounding::quotient(m, a.bc1);
    let vh = rounding::quotient(v, a.bc2);
    let rt = roots::root(vh);
    let d = rounding::sum(rt, EPS);
    let p = rounding::product(a.lr, mh);
    let step = rounding::quotient(p, d);
    let rate = rounding::product(a.lr, a.weight_decay);
    let decay = rounding::product(rate, x);
    let near = rounding::difference(x, step);
    let y = rounding::difference(near, decay);
    values::opposites_are_exact(step);
    values::opposites_are_exact(decay);
    assert(y == optim::adam_update(a, s).param.data[j]);
    // The parts are finite.
    values::specks_are_small();
    lemma_quotient_sign(v, a.bc2);
    values::roots_square_back(vh);
    values::small_sums_are_finite(rt, EPS);
    values::value_has_the_sign(EPS);
    values::value_has_the_sign(rt);
    values::sums_are_close(rt, EPS);
    values::value_has_the_sign(vh);
    order_laws::sums_grow(rt, EPS);
    values::value_has_the_sign(d);
    values::value_has_the_sign(a.bc1);
    values::value_has_the_sign(a.bc2);
    values::quotients_multiply_back(m, a.bc1);
    values::quotients_multiply_back(v, a.bc2);
    values::products_are_close(a.lr, mh);
    values::quotients_multiply_back(p, d);
    let (lr, w, eps) = (value(a.lr), value(a.weight_decay), value(EPS));
    let (r, st, xv) = (value(rt), value(step), value(x));
    lemma_step(st, value(d), r + eps, value(p), lr * value(mh));
    // The decay and the whole.
    values::products_are_close(a.lr, a.weight_decay);
    let k = lr * w;
    let t = grain() * size(k) + speck();
    values::products_of_near_numbers(rate, x, k, t);
    values::sizes_multiply(k, xv);
    let c = size(k * xv);
    let (gc, sx) = (grain() * c, speck() * size(xv));
    let s1 = speck();
    let g1 = grain();
    assert(t * size(xv) == gc + sx) by (nonlinear_arith)
        requires
            t == g1 * size(k) + s1,
            c == size(k) * size(xv),
            gc == g1 * c,
            sx == s1 * size(xv),
    ;
    let s1 = speck();
    assert(sx >= 0real) by (nonlinear_arith)
        requires
            sx == s1 * size(xv),
            s1 > 0real,
            size(xv) >= 0real,
    ;
    values::differences_are_close(x, step);
    let e = grain() * size(xv - st);
    let (gx, gs) = (grain() * size(xv), grain() * size(st));
    let g1 = grain();
    assert(e <= gx + gs) by (nonlinear_arith)
        requires
            e == g1 * size(xv - st),
            size(xv - st) <= size(xv) + size(st),
            gx == g1 * size(xv),
            gs == g1 * size(st),
            g1 > 0real,
    ;
    values::grains(size(xv));
    values::grains(size(st));
    values::grains(c);
    values::differences_of_near_numbers(
        near,
        decay,
        xv - st,
        k * xv,
        e,
        3real * gc + 2real * sx + speck(),
    );
    let g1 = grain();
    assert(g1 * (size(xv - st) + c) == e + gc) by (nonlinear_arith)
        requires
            e == g1 * size(xv - st),
            gc == g1 * c,
    ;
    let g1 = grain();
    assert(g1 * (size(xv) + size(st) + c) == gx + gs + gc) by (nonlinear_arith)
        requires
            gx == g1 * size(xv),
            gs == g1 * size(st),
            gc == g1 * c,
    ;
    let s1 = speck();
    assert(s1 * (1real + size(xv)) == s1 + sx) by (nonlinear_arith)
        requires
            sx == s1 * size(xv),
    ;
    assert(size(value(a.bc1)) == value(a.bc1) && size(value(a.bc2)) == value(a.bc2));
    assert(1real + (r + eps) == 1real + r + eps);
    assert(moves_by(
        a,
        xv,
        value(m),
        value(v),
        value(y),
        value(mh),
        value(vh),
        r,
        st,
    ));
}

/// A quotient of numbers that are not negative is not negative.
pub proof fn lemma_quotient_sign(x: u32, y: u32)
    requires
        x < INFINITY_BITS,
        0 < y < INFINITY_BITS,
    ensures
        !float_bits::negative(rounding::quotient(x, y)),
{
    let (u, w) = (float_bits::units(x), float_bits::units(y));
    rounding::units_follow_magnitudes(x, x);
    order_laws::positive_numbers_have_units(y);
    vstd::arithmetic::power2::lemma_pow2_pos(149);
    let o1 = float_bits::one();
    assert(u * o1 >= 0) by (nonlinear_arith)
        requires
            u >= 0,
            o1 > 0,
    ;
    rounding::nearest_is_not_negative(u * float_bits::one(), w);
}

/// The step times its divisor: from the rounded divisor and dividend to the exact ones.
proof fn lemma_step(st: real, d: real, exact: real, p: real, q: real)
    requires
        exact >= 0real,
        size(d - exact) <= grain() * size(exact),
        size(st * d - p) <= grain() * size(p) + speck() * size(d),
        size(p - q) <= grain() * size(q) + speck(),
        speck() > 0real,
    ensures
        size(st * exact - q) <= 4real * (grain() * (size(st * exact) + size(q))) + 4real * (speck()
            * (1real + exact)),
{
    let g = grain();
    let s = speck();
    values::grains(exact);
    values::grains(size(q));
    values::grains(size(st * exact));
    let e = d - exact;
    assert(st * d - st * exact == st * e) by (nonlinear_arith)
        requires
            e == d - exact,
    ;
    values::sizes_multiply(st, e);
    values::sizes_multiply(st, exact);
    let (ge, gq, z) = (g * exact, g * size(q), size(st * exact));
    assert(size(st) * size(e) <= g * z) by (nonlinear_arith)
        requires
            size(e) <= g * exact,
            z == size(st) * exact,
            size(st) >= 0real,
    ;
    assert(g * size(p) <= gq + g * gq + g * s) by (nonlinear_arith)
        requires
            size(p) <= size(q) + gq + s,
            g > 0real,
            gq == g * size(q),
    ;
    values::grains(gq);
    values::grains(s);
    assert(s * size(d) <= s * exact + s * ge) by (nonlinear_arith)
        requires
            size(d) <= exact + ge,
            s > 0real,
    ;
    assert(s * ge <= s * exact) by (nonlinear_arith)
        requires
            ge <= exact,
            s > 0real,
    ;
    assert(s * (1real + exact) == s + s * exact) by (nonlinear_arith);
    assert(g * (z + size(q)) == g * z + gq) by (nonlinear_arith)
        requires
            gq == g * size(q),
    ;
    assert(s * exact >= 0real) by (nonlinear_arith)
        requires
            s > 0real,
            exact >= 0real,
    ;
}

/// Gradient descent moves every element against its own gradient, by the rate.
pub proof fn descent_moves_against_the_gradient(p: ParamView, lr: u32, j: int)
    requires
        p.requires_grad,
        0 <= j < p.data.len(),
        float_bits::finite(optim::sgd_update(p, lr).data[j]),
    ensures
        ({
            let (x, g) = (value(p.data[j]), value(p.grad[j]));
            let step = value(lr) * g;
            size(value(optim::sgd_update(p, lr).data[j]) - (x - step)) <= 4real * (grain() * (size(x)
                + size(step))) + 2real * speck()
        }),
{
    let (x, g) = (p.data[j], p.grad[j]);
    let m = rounding::product(lr, g);
    values::opposites_are_exact(m);
    values::products_are_close(lr, g);
    let step = value(lr) * value(g);
    let t = grain() * size(step) + speck();
    values::differences_of_near_numbers(x, m, value(x), step, 0real, t);
    values::grains(size(value(x)));
    let v1 = value(x);
    let g1 = grain();
    assert(g1 * (size(v1) + size(step)) == g1 * size(v1) + g1 * size(
        step,
    )) by (nonlinear_arith);
}

/// `x` to the power `n`.
pub open spec fn to_the(x: real, n: nat) -> real
    decreases n,
{
    if n == 0 {
        1real
    } else {
        x * to_the(x, (n - 1) as nat)
    }
}

proof fn lemma_power_range(x: real, n: nat)
    requires
        0real <= x <= 1real,
    ensures
        0real <= to_the(x, n) <= 1real,
    decreases n,
{
    if n > 0 {
        lemma_power_range(x, (n - 1) as nat);
        let p = to_the(x, (n - 1) as nat);
        assert(0real <= x * p <= 1real) by (nonlinear_arith)
            requires
                0real <= x <= 1real,
                0real <= p <= 1real,
        ;
    }
}

/// Powers of near numbers between zero and one are near.
proof fn lemma_powers_are_near(x: real, y: real, n: nat)
    requires
        0real <= x <= 1real,
        0real <= y <= 1real,
    ensures
        size(to_the(x, n) - to_the(y, n)) <= n as real * size(x - y),
    decreases n,
{
    let e = size(x - y);
    if n == 0 {
        assert(0real * e == 0real) by (nonlinear_arith);
    } else {
        let k = (n - 1) as nat;
        lemma_powers_are_near(x, y, k);
        lemma_power_range(x, k);
        lemma_power_range(y, k);
        let (p, q) = (to_the(x, k), to_the(y, k));
        assert(x * p - y * q == x * (p - q) + (x - y) * q) by (nonlinear_arith);
        values::sizes_multiply(x, p - q);
        values::sizes_multiply(x - y, q);
        assert(size(x) * size(p - q) <= size(p - q)) by (nonlinear_arith)
            requires
                0real <= size(x) <= 1real,
                size(p - q) >= 0real,
        ;
        assert(e * size(q) <= e) by (nonlinear_arith)
            requires
                0real <= size(q) <= 1real,
                e >= 0real,
        ;
        assert(n as real * e == k as real * e + e) by (nonlinear_arith)
            requires
                n as real == k as real + 1real,
        ;
    }
}

/// A power of a square.
proof fn lemma_power_of_square(x: real, n: nat)
    ensures
        to_the(x * x, n) == to_the(x, 2 * n),
    decreases n,
{
    if n > 0 {
        let k = (n - 1) as nat;
        lemma_power_of_square(x, k);
        let p = to_the(x, 2 * k);
        assert(to_the(x, (2 * n - 1) as nat) == x * p);
        assert(to_the(x, 2 * n) == x * (x * p));
        assert((x * x) * p == x * (x * p)) by (nonlinear_arith);
    }
}

/// A product of numbers between zero and one is between them, and off by less than two grains.
pub proof fn lemma_unit_product(x: u32, y: u32)
    requires
        x <= ONE_BITS,
        y <= ONE_BITS,
    ensures
        rounding::product(x, y) <= ONE_BITS,
        0real <= value(x) <= 1real,
        0real <= value(y) <= 1real,
        0real <= value(rounding::product(x, y)) <= 1real,
        size(value(rounding::product(x, y)) - value(x) * value(y)) <= 2real * grain(),
{
    let r = rounding::product(x, y);
    lemma_unit_range(x);
    lemma_unit_range(y);
    order_laws::products_keep_order(x, y, ONE_BITS);
    crate::awq::product_by_one(x);
    assert(!float_bits::negative(r)) by {
        let (u, w) = (float_bits::units(x), float_bits::units(y));
        rounding::units_follow_magnitudes(x, x);
        rounding::units_follow_magnitudes(y, y);
        vstd::arithmetic::power2::lemma_pow2_pos(149);
        assert(u * w >= 0) by (nonlinear_arith)
            requires
                u >= 0,
                w >= 0,
        ;
        rounding::nearest_is_not_negative(u * w, float_bits::one());
    }
    assert(r <= ONE_BITS);
    lemma_unit_range(r);
    values::products_are_close(x, y);
    let e = value(x) * value(y);
    let v1 = value(x);
    let v2 = value(y);
    assert(0real <= e <= 1real) by (nonlinear_arith)
        requires
            e == v1 * v2,
            0real <= v1 <= 1real,
            0real <= v2 <= 1real,
    ;
    values::grains(e);
    values::grains(1real);
    values::specks_are_small();
}

proof fn lemma_unit_range(x: u32)
    requires
        x <= ONE_BITS,
    ensures
        0real <= value(x) <= 1real,
{
    values::one_has_value_one();
    values::value_has_the_sign(x);
    values::values_follow_magnitudes(x, ONE_BITS);
}

/// The computed power of a number between zero and one is the exact power, up to `4 * n` grains.
pub proof fn powers_are_close(x: u32, n: nat)
    requires
        x <= ONE_BITS,
    ensures
        size(value(optim::power_from(ONE_BITS, x, n)) - to_the(value(x), n)) <= 4real * (n as real)
            * grain(),
        optim::power_from(ONE_BITS, x, n) <= ONE_BITS,
{
    values::one_has_value_one();
    if n == 0 {
        assert(optim::power_from(ONE_BITS, x, 0) == ONE_BITS);
        let g1 = grain();
        assert(4real * 0real * g1 == 0real) by (nonlinear_arith);
    } else {
        lemma_power_from(ONE_BITS, x, n);
        let p = to_the(value(x), n);
        assert(1real * p == p) by (nonlinear_arith);
    }
}

proof fn lemma_power_from(r: u32, x: u32, n: nat)
    requires
        r <= ONE_BITS,
        x <= ONE_BITS,
        n > 0,
    ensures
        size(value(optim::power_from(r, x, n)) - value(r) * to_the(value(x), n)) <= 4real
            * (n as real) * grain(),
        optim::power_from(r, x, n) <= ONE_BITS,
    decreases n,
{
    let (vr, vx, g) = (value(r), value(x), grain());
    let odd = n % 2 == 1;
    let h = n / 2;
    let taken = if odd {
        rounding::product(r, x)
    } else {
        r
    };
    values::grains(1real);
    lemma_unit_product(r, x);
    lemma_unit_product(x, x);
    let exact = if odd {
        vr * vx
    } else {
        vr
    };
    let vt = value(taken);
    assert(size(vt - exact) <= 2real * g);
    if h == 0 {
        assert(n == 1);
        assert(to_the(vx, 1) == vx * to_the(vx, 0));
        assert(vx * 1real == vx);
        assert(4real * 1real * g == 4real * g) by (nonlinear_arith);
    } else {
        let sq = rounding::product(x, x);
        lemma_power_from(taken, sq, h);
        let vs = value(sq);
        assert(0real <= vx * vx <= 1real) by (nonlinear_arith)
            requires
                0real <= vx <= 1real,
        ;
        lemma_powers_are_near(vs, vx * vx, h);
        lemma_power_of_square(vx, h);
        lemma_power_range(vs, h);
        lemma_power_range(vx * vx, h);
        let (p, q) = (to_the(vs, h), to_the(vx * vx, h));
        let hr = h as real;
        // From the rounded factors to the exact ones.
        assert(vt * p - exact * q == vt * (p - q) + (vt - exact) * q) by (nonlinear_arith);
        values::sizes_multiply(vt, p - q);
        values::sizes_multiply(vt - exact, q);
        assert(size(vt) * size(p - q) <= size(p - q)) by (nonlinear_arith)
            requires
                0real <= size(vt) <= 1real,
                size(p - q) >= 0real,
        ;
        assert(size(vt - exact) * size(q) <= size(vt - exact)) by (nonlinear_arith)
            requires
                0real <= size(q) <= 1real,
                size(vt - exact) >= 0real,
        ;
        assert(hr * size(vs - vx * vx) <= 2real * hr * g) by (nonlinear_arith)
            requires
                size(vs - vx * vx) <= 2real * g,
                hr >= 0real,
        ;
        // And the exact ones give the exact power.
        assert(exact * q == vr * to_the(vx, n)) by {
            if odd {
                assert(n == 2 * h + 1);
                assert(to_the(vx, n) == vx * to_the(vx, 2 * h));
                assert((vr * vx) * q == vr * (vx * q)) by (nonlinear_arith);
            } else {
                assert(n == 2 * h);
            }
        }
        let nr = n as real;
        assert(nr >= 2real * hr && hr >= 1real);
        assert(4real * hr * g + 2real * hr * g + 2real * g <= 4real * nr * g) by (nonlinear_arith)
            requires
                nr >= 2real * hr,
                hr >= 1real,
                g > 0real,
        ;
    }
}

/// What is left of one when the computed power is taken away.
pub proof fn lemma_filled_share(b: u32, t: nat)
    requires
        b <= ONE_BITS,
    ensures
        size(
            value(rounding::difference(ONE_BITS, optim::power_from(ONE_BITS, b, t))) - (1real
                - to_the(value(b), t)),
        ) <= (8real * (t as real) + 1real) * grain(),
{
    let p = optim::power_from(ONE_BITS, b, t);
    powers_are_close(b, t);
    lemma_unit_range(p);
    values::one_has_value_one();
    values::opposites_are_exact(p);
    values::small_sums_are_finite(ONE_BITS, rounding::opposite(p));
    values::differences_are_close(ONE_BITS, p);
    let (e, g) = (1real - value(p), grain());
    values::grains(1real);
    assert(g * size(e) <= g) by (nonlinear_arith)
        requires
            0real <= size(e) <= 1real,
            g > 0real,
    ;
    let tr = t as real;
    assert((8real * tr + 1real) * g >= 4real * tr * g + g) by (nonlinear_arith)
        requires
            tr >= 0real,
            g > 0real,
    ;
}

} // verus!
