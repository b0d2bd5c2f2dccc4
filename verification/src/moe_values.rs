//! What the losses and the mixture of a layer of experts are worth as real numbers.

use crate::comp_values;
use crate::float_bits;
use crate::float_bits::INFINITY_BITS;
use crate::linalg_values;
use crate::loss;
use crate::moe;
use crate::moe_forward;
use crate::moe_layer;
use crate::norm_laws;
use crate::order_laws;
use crate::quant;
use crate::rounding;
use crate::values;
use crate::values::{grain, size, speck, value};
use vstd::prelude::*;

verus! {

/// A coefficient that is in use counts with its value, another one not at all.
pub open spec fn in_use(coef: u32) -> real {
    if float_bits::positive(coef) {
        value(coef)
    } else {
        0real
    }
}

/// The loss that a layer adds is the balance loss times its coefficient plus the router loss times
/// its coefficient, over the coefficients in use; without one nothing is added.
pub proof fn added_losses_are_weighted_sums(aux: u32, aux_coef: u32, z: u32, z_coef: u32)
    requires
        moe_layer::added_loss(aux, aux_coef, z, z_coef) matches Some(l) ==> float_bits::finite(l),
    ensures
        moe_layer::added_loss(aux, aux_coef, z, z_coef) is Some <==> float_bits::positive(aux_coef)
            || float_bits::positive(z_coef),
        moe_layer::added_loss(aux, aux_coef, z, z_coef) matches Some(l) ==> {
            let (a, b) = (value(aux) * in_use(aux_coef), value(z) * in_use(z_coef));
            size(value(l) - (a + b)) <= 4real * (grain() * (size(a) + size(b))) + 4real * speck()
        },
{
    let (p, q) = (rounding::product(aux, aux_coef), rounding::product(z, z_coef));
    let (a, b) = (value(aux) * in_use(aux_coef), value(z) * in_use(z_coef));
    values::specks_are_small();
    values::grains(size(a));
    values::grains(size(b));
    let g1 = grain();
    assert(g1 * (size(a) + size(b)) == g1 * size(a) + g1 * size(b))
        by (nonlinear_arith);
    let v1 = value(aux);
    let v2 = value(z);
    assert(v1 * 0real == 0real && v2 * 0real == 0real) by (nonlinear_arith);
    if float_bits::positive(aux_coef) {
        if float_bits::positive(z_coef) {
            let l = rounding::sum(p, q);
            assert(moe_layer::added_loss(aux, aux_coef, z, z_coef) == Some(l));
            values::products_are_close(aux, aux_coef);
            values::products_are_close(z, z_coef);
            values::sums_of_near_numbers(
                p,
                q,
                a,
                b,
                grain() * size(a) + speck(),
                grain() * size(b) + speck(),
            );
        } else {
            assert(moe_layer::added_loss(aux, aux_coef, z, z_coef) == Some(p));
            values::products_are_close(aux, aux_coef);
        }
    } else if float_bits::positive(z_coef) {
        assert(moe_layer::added_loss(aux, aux_coef, z, z_coef) == Some(q));
        values::products_are_close(z, z_coef);
    }
}

/// Neither loss comes first: exchanging them with their coefficients changes nothing.
pub proof fn added_losses_are_exchangeable(aux: u32, aux_coef: u32, z: u32, z_coef: u32)
    ensures
        moe_layer::added_loss(aux, aux_coef, z, z_coef) == moe_layer::added_loss(
            z,
            z_coef,
            aux,
            aux_coef,
        ),
{
}

/// The added loss rises with the router loss: a larger one never adds less, and one that is larger
/// by more than rounding can hide adds more.
pub proof fn added_losses_rise(aux: u32, aux_coef: u32, z: u32, w: u32, z_coef: u32)
    requires
        float_bits::positive(aux_coef),
        0 < z_coef < INFINITY_BITS,
        float_bits::finite(z),
        float_bits::finite(w),
        order_laws::at_most(z, w),
        float_bits::finite(rounding::product(aux, aux_coef)),
    ensures
        moe_layer::added_loss(aux, aux_coef, z, z_coef) is Some,
        moe_layer::added_loss(aux, aux_coef, w, z_coef) is Some,
        order_laws::at_most(
            moe_layer::added_loss(aux, aux_coef, z, z_coef)->0,
            moe_layer::added_loss(aux, aux_coef, w, z_coef)->0,
        ),
        ({
            let (x, y) = (
                moe_layer::added_loss(aux, aux_coef, z, z_coef)->0,
                moe_layer::added_loss(aux, aux_coef, w, z_coef)->0,
            );
            let (a, b, c) = (
                value(aux) * value(aux_coef),
                value(z) * value(z_coef),
                value(w) * value(z_coef),
            );
            float_bits::finite(x) && float_bits::finite(y) && c - b > 4real * (grain() * (2real
                * size(a) + size(b) + size(c))) + 8real * speck() ==> value(x) < value(y)
        }),
{
    let a = rounding::product(aux, aux_coef);
    order_laws::products_keep_order(z_coef, z, w);
    assert(rounding::product(z_coef, z) == rounding::product(z, z_coef)) by {
        let (u1, u2) = (float_bits::units(z_coef), float_bits::units(z));
        assert(u1 * u2 == u2 * u1) by (nonlinear_arith);
    }
    assert(rounding::product(z_coef, w) == rounding::product(w, z_coef)) by {
        let (u1, u2) = (float_bits::units(z_coef), float_bits::units(w));
        assert(u1 * u2 == u2 * u1) by (nonlinear_arith);
    }
    let (p, q) = (rounding::product(z, z_coef), rounding::product(w, z_coef));
    order_laws::sums_keep_order(p, q, a);
    assert(rounding::sum(a, p) == rounding::sum(p, a));
    assert(rounding::sum(a, q) == rounding::sum(q, a));
    let (x, y) = (rounding::sum(a, p), rounding::sum(a, q));
    if float_bits::finite(x) && float_bits::finite(y) {
        added_losses_are_weighted_sums(aux, aux_coef, z, z_coef);
        added_losses_are_weighted_sums(aux, aux_coef, w, z_coef);
        let (s, t, u, g) = (
            size(value(aux) * value(aux_coef)),
            size(value(z) * value(z_coef)),
            size(value(w) * value(z_coef)),
            grain(),
        );
        assert(g * (2real * s + t + u) == g * (s + t) + g * (s + u)) by (nonlinear_arith);
    }
}

spec fn products(f: Seq<u32>, p: Seq<u32>) -> Seq<u32> {
    Seq::new(f.len(), |k: int| rounding::product(f[k], p[k]))
}

proof fn lemma_overlap(f: Seq<u32>, p: Seq<u32>, k: nat)
    requires
        k <= f.len(),
    ensures
        moe_layer::overlap(f, p, k) == loss::running_sum(products(f, p), k),
    decreases k,
{
    if k > 0 {
        lemma_overlap(f, p, (k - 1) as nat);
    }
}

/// The balance loss is the number of experts times the sum over the experts of the share of
/// assignments times the mean probability.
pub proof fn balance_losses_weigh_shares(f: Seq<u32>, p: Seq<u32>)
    requires
        0 < f.len() <= 0x80_0000,
        f.len() == p.len(),
        float_bits::finite(moe_layer::balance_of(f, p)),
    ensures
        ({
            let n = f.len() as real;
            let (exact, a) = (values::paired(f, p, f.len()), values::paired_size(f, p, f.len()));
            size(value(moe_layer::balance_of(f, p)) - n * exact) <= (8real * n + 4real) * (grain()
                * (n * a)) + 4real * (n * (n * speck())) + speck()
        }),
{
    let n = f.len();
    lemma_overlap(f, p, n);
    let s = moe_layer::overlap(f, p, n);
    let c = rounding::count_value(n as int);
    values::counts_are_exact(n as int);
    let (exact, a) = (values::paired(f, p, n), values::paired_size(f, p, n));
    let (g, z, nr) = (grain(), speck(), n as real);
    values::products_are_close(s, c);
    values::sums_of_products_are_close(products(f, p), f, p, n);
    let t = (4real * nr + 1real) * (g * a) + 2real * (nr * z);
    values::products_of_near_numbers(s, c, exact, t);
    values::sizes_multiply(exact, nr);
    assert(exact * nr == nr * exact) by (nonlinear_arith);
    let gna = g * (nr * a);
    assert(((4real * nr + 1real) * (g * a) + 2real * (nr * z)) * nr == (4real * nr + 1real) * (g * (
    nr * a)) + 2real * (nr * (nr * z))) by (nonlinear_arith);
    assert(size(exact) * nr == nr * size(exact)) by (nonlinear_arith);
    values::grains(1real);
    values::factors_keep_order(size(exact), a, nr);
    values::factors_keep_order(0real, a, nr);
    assert(nr * 0real == 0real) by (nonlinear_arith);
    values::grains(nr * a);
    values::factors_keep_order(size(exact) * nr, nr * a, g);
    assert((8real * nr + 4real) * gna == 2real * ((4real * nr + 1real) * gna) + 2real * gna)
        by (nonlinear_arith);
}

/// Column `e` of the probabilities of `n` tokens.
pub open spec fn column(p: Seq<u32>, n: int, n_expert: int, e: int) -> Seq<u32> {
    Seq::new(n as nat, |k: int| p[k * n_expert + e])
}

proof fn lemma_column(p: Seq<u32>, n: int, n_expert: int, e: int, k: nat)
    requires
        k <= n,
    ensures
        moe_layer::column_sum(p, n_expert, e, k) == loss::running_sum(column(p, n, n_expert, e), k),
    decreases k,
{
    if k > 0 {
        lemma_column(p, n, n_expert, e, (k - 1) as nat);
    }
}

/// The mean probability of an expert, times the number of tokens, is the sum of its probabilities.
pub proof fn mean_probabilities_share_out(p: Seq<u32>, n: int, n_expert: int, e: int)
    requires
        0 < n <= 0x80_0000,
        0 <= e < n_expert,
        float_bits::finite(moe_layer::mean_probabilities(p, n, n_expert)[e]),
    ensures
        ({
            let c = column(p, n, n_expert, e);
            size(
                value(moe_layer::mean_probabilities(p, n, n_expert)[e]) * (n as real)
                    - values::total(c, n as nat),
            ) <= (2real * (n as real) + 8real) * (grain() * values::total_size(c, n as nat))
                + n as real * speck()
        }),
{
    let c = column(p, n, n_expert, e);
    lemma_column(p, n, n_expert, e, n as nat);
    let s = moe_layer::column_sum(p, n_expert, e, n as nat);
    values::inverse_counts_share_out(s, n);
    values::running_sums_are_close(c, n as nat);
    let (g, nr, a) = (grain(), n as real, values::total_size(c, n as nat));
    let ga = g * a;
    values::grains(a);
    let w = 2real * nr * ga;
    assert(w <= a) by (nonlinear_arith)
        requires
            w == 2real * nr * ga,
            16777216real * ga == a,
            0real < nr <= 8388608real,
            a >= 0real,
    ;
    let v1 = value(s);
    assert(g * size(v1) <= 2real * ga) by (nonlinear_arith)
        requires
            size(v1) <= 2real * a,
            g > 0real,
            ga == g * a,
    ;
    assert((2real * nr + 8real) * ga == w + 8real * ga) by (nonlinear_arith)
        requires
            w == 2real * nr * ga,
    ;
}

/// The values of a list.
pub open spec fn worth(l: Seq<u32>) -> Seq<real> {
    Seq::new(l.len(), |k: int| value(l[k]))
}

/// The router loss, times the number of tokens, is the sum of the squared logarithms.
pub proof fn router_losses_share_out(l: Seq<u32>)
    requires
        0 < l.len() <= 0x80_0000,
        float_bits::finite(moe_forward::router_loss(l, l.len() as int)),
    ensures
        ({
            let n = l.len() as real;
            let exact = norm_laws::square_total(worth(l), l.len());
            size(value(moe_forward::router_loss(l, l.len() as int)) * n - exact) <= (8real * n
                + 32real) * (grain() * exact) + 8real * (n * speck())
        }),
{
    let n = l.len();
    let (sq, delta) = (moe_forward::elementwise(l, l), worth(l));
    let s = loss::running_sum(sq, n);
    values::inverse_counts_share_out(s, n as int);
    assert forall|i: int| 0 <= i < n implies size(value(#[trigger] l[i]) - delta[i]) <= grain()
        * size(delta[i]) by {
        values::grains(size(delta[i]));
    }
    norm_laws::sums_of_squares_are_close(l, sq, delta, n);
    let exact = norm_laws::square_total(delta, n);
    let (g, z, nr, v) = (grain(), speck(), n as real, value(s));
    let (gx, ns) = (g * exact, nr * z);
    values::grains(exact);
    values::specks_are_small();
    assert(ns > 0real) by (nonlinear_arith)
        requires
            ns == nr * z,
            nr >= 1real,
            z > 0real,
    ;
    let tau = (4real * nr + 4real) * gx + 2real * ns;
    values::grains(tau);
    assert(g * size(v) <= gx + g * tau) by (nonlinear_arith)
        requires
            size(v) <= exact + tau,
            gx == g * exact,
            g > 0real,
    ;
    assert((8real * nr + 32real) * gx == 2real * ((4real * nr + 4real) * gx) + 24real * gx)
        by (nonlinear_arith);
    let k = (4real * nr + 4real) * gx;
    assert(k >= 0real) by (nonlinear_arith)
        requires
            k == (4real * nr + 4real) * gx,
            nr >= 1real,
            gx >= 0real,
    ;
}

/// The exact mixture for token `i`, column `c`: over the experts that process the token, the weight
/// times the answer.
pub open spec fn mixture(
    sel: Seq<Vec<usize>>,
    outs: Seq<Seq<u32>>,
    w: Seq<u32>,
    n_expert: int,
    d: int,
    i: int,
    c: int,
    upto: nat,
) -> real
    decreases upto,
{
    if upto == 0 {
        0real
    } else {
        let e = upto - 1;
        mixture(sel, outs, w, n_expert, d, i, c, e as nat) + if sel[e]@.contains(i as usize) {
            value(w[i * n_expert + e]) * value(outs[e][sel[e]@.index_of(i as usize) * d + c])
        } else {
            0real
        }
    }
}

/// How large the parts of a mixture are.
pub open spec fn mixture_size(
    sel: Seq<Vec<usize>>,
    outs: Seq<Seq<u32>>,
    w: Seq<u32>,
    n_expert: int,
    d: int,
    i: int,
    c: int,
    upto: nat,
) -> real
    decreases upto,
{
    if upto == 0 {
        0real
    } else {
        let e = upto - 1;
        mixture_size(sel, outs, w, n_expert, d, i, c, e as nat) + if sel[e]@.contains(i as usize) {
            size(value(w[i * n_expert + e]) * value(outs[e][sel[e]@.index_of(i as usize) * d + c]))
        } else {
            0real
        }
    }
}

/// What comes out for a token is the mixture of the answers of its experts by their weights.
pub proof fn outputs_are_mixtures(
    sel: Seq<Vec<usize>>,
    outs: Seq<Seq<u32>>,
    w: Seq<u32>,
    n_expert: int,
    n: int,
    d: int,
    i: int,
    c: int,
)
    requires
        0 <= n_expert <= 0x40_0000,
        0 <= i < n,
        0 <= c < d,
        float_bits::finite(moe_layer::combined(sel, outs, w, n_expert, n, d)[i * d + c]),
    ensures
        size(
            value(moe_layer::combined(sel, outs, w, n_expert, n, d)[i * d + c]) - mixture(
                sel,
                outs,
                w,
                n_expert,
                d,
                i,
                c,
                n_expert as nat,
            ),
        ) <= 4real * (n_expert as real * (grain() * mixture_size(
            sel,
            outs,
            w,
            n_expert,
            d,
            i,
            c,
            n_expert as nat,
        ) + speck())),
{
    quant::cell_position(i, c, n, d);
    lemma_mixture(sel, outs, w, n_expert, d, i, c, n_expert as nat);
}

#[verifier::spinoff_prover]
proof fn lemma_mixture(
    sel: Seq<Vec<usize>>,
    outs: Seq<Seq<u32>>,
    w: Seq<u32>,
    n_expert: int,
    d: int,
    i: int,
    c: int,
    k: nat,
)
    requires
        k <= 0x40_0000,
        float_bits::finite(moe_layer::combined_cell(sel, outs, w, n_expert, d, i, c, k)),
    ensures
        size(
            value(moe_layer::combined_cell(sel, outs, w, n_expert, d, i, c, k)) - mixture(
                sel,
                outs,
                w,
                n_expert,
                d,
                i,
                c,
                k,
            ),
        ) <= 4real * (k as real * (grain() * mixture_size(sel, outs, w, n_expert, d, i, c, k)
            + speck())),
        size(mixture(sel, outs, w, n_expert, d, i, c, k)) <= mixture_size(
            sel,
            outs,
            w,
            n_expert,
            d,
            i,
            c,
            k,
        ),
    decreases k,
{
    let (g, s) = (grain(), speck());
    values::specks_are_small();
    if k == 0 {
        values::one_has_value_one();
        assert(4real * (0real * (g * 0real + s)) == 0real) by (nonlinear_arith);
    } else {
        let j = (k - 1) as nat;
        lemma_mixture(sel, outs, w, n_expert, d, i, c, j);
        let a = mixture_size(sel, outs, w, n_expert, d, i, c, j);
        let exact = mixture(sel, outs, w, n_expert, d, i, c, j);
        let (jr, kr) = (j as real, k as real);
        let ga = g * a;
        values::grains(a);
        let t = 4real * (jr * (ga + s));
        assert(kr == jr + 1real);
        if sel[k - 1]@.contains(i as usize) {
            linalg_values::lemma_put_on(
                moe_layer::combined_cell(sel, outs, w, n_expert, d, i, c, j),
                w[i * n_expert + (k - 1)],
                outs[k - 1][sel[k - 1]@.index_of(i as usize) * d + c],
                exact,
                a,
                jr,
            );
        } else {
            comp_values::lemma_one_more(t, a, 0real, jr, 4real);
            assert(g * 0real == 0real) by (nonlinear_arith);
            assert(a + 0real == a);
        }
    }
}

/// The share of an expert, times the number of assignments, is the number of times it was chosen.
pub proof fn shares_count_the_choices(
    plan: moe::RoutePlan,
    logits: Seq<u32>,
    n: int,
    n_expert: int,
    k: int,
    capacity: usize,
    e: int,
)
    requires
        moe::is_routing(plan, logits, n, n_expert, k, capacity),
        0 <= e < n_expert,
        0 < n * k <= 0x100_0000,
        plan.routed@[e] <= n * k,
    ensures
        float_bits::finite(plan.f@[e]) ==> size(
            value(plan.f@[e]) * ((n * k) as real) - plan.routed@[e] as real,
        ) <= grain() * (plan.routed@[e] as real) + speck() * ((n * k) as real),
{
    let r = plan.routed@[e] as int;
    assert(plan.f@[e] == rounding::quotient(
        rounding::count_value(r),
        rounding::count_value(n * k),
    ));
    values::counts_are_exact(r);
    values::counts_are_exact(n * k);
    if float_bits::finite(plan.f@[e]) {
        values::quotients_multiply_back(rounding::count_value(r), rounding::count_value(n * k));
    }
}

} // verus!
