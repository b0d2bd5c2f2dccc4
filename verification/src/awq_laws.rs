//! What holds of scaling channels before they are rounded.

use crate::awq;
use crate::awq_scaling;
use crate::codes::QBits;
use crate::float_bits;
use crate::float_bits::{NAN_BITS, ONE_BITS};
use crate::gptq;
use crate::gptq_laws;
use crate::loss_laws;
use crate::order_laws;
use crate::qmatrix::QMatrix;
use crate::quant;
use crate::quant::QAxis;
use crate::quant_laws;
use crate::rounding;
use crate::softmax;
use vstd::prelude::*;

verus! {

/// Whether every scale is one.
pub open spec fn all_ones(s: Seq<u32>) -> bool {
    forall|i: int| 0 <= i < s.len() ==> #[trigger] s[i] == ONE_BITS
}

/// `v / 1.0` is `v`, bit for bit.
pub proof fn quotient_by_one(v: u32)
    requires
        !float_bits::nan(v) || v == NAN_BITS,
    ensures
        rounding::quotient(v, ONE_BITS) == v,
{
    quant_laws::one_is_one();
    if float_bits::finite(v) {
        let o = float_bits::one();
        vstd::arithmetic::power2::lemma_pow2_pos(149);
        rounding::units_follow_magnitudes(v, v);
        quant_laws::nearest_ignores_expansion(float_bits::units(v), 1, o);
        assert(1 * o == o);
        rounding::representable_values_are_kept(v);
    }
}

/// With every channel scale equal to one, folding and unfolding change no bit of a number.
pub proof fn unit_scales_change_nothing(w: Seq<u32>, rows: int, cols: int, s: Seq<u32>)
    requires
        rows >= 0,
        cols >= 0,
        w.len() == rows * cols,
        s.len() == rows,
        all_ones(s),
        forall|i: int| 0 <= i < w.len() ==> !float_bits::nan(#[trigger] w[i]),
    ensures
        awq::folded(w, cols, s) == w,
        awq::unfolded(w, cols, s) == w,
{
    assert forall|i: int| 0 <= i < w.len() implies awq::folded(w, cols, s)[i] == w[i]
        && awq::unfolded(w, cols, s)[i] == w[i] by {
        quant::flat_position(i, rows, cols);
        awq::product_by_one(w[i]);
        quotient_by_one(w[i]);
    }
    assert(awq::folded(w, cols, s) =~= w);
    assert(awq::unfolded(w, cols, s) =~= w);
}

/// With every channel scale equal to one, no bit of an input changes.
pub proof fn unit_scales_keep_inputs(x: Seq<u32>, n: int, cols: int, s: Seq<u32>)
    requires
        n >= 0,
        cols >= 0,
        x.len() == n * cols,
        s.len() == cols,
        all_ones(s),
        forall|i: int| 0 <= i < x.len() ==> !float_bits::nan(#[trigger] x[i]),
    ensures
        awq::unfolded_input(x, cols, s) == x,
{
    assert forall|i: int| 0 <= i < x.len() implies awq::unfolded_input(x, cols, s)[i] == x[i] by {
        quant::flat_position(i, n, cols);
        quotient_by_one(x[i]);
    }
    assert(awq::unfolded_input(x, cols, s) =~= x);
}

/// What the weights become by plain rounding.
pub open spec fn plain_values(w: Seq<u32>, rows: int, cols: int, bits: QBits, axis: QAxis) -> Seq<
    u32,
> {
    let scales = quant::scales_of(w, rows, cols, axis);
    quant::values_under(quant::codes_under(w, cols, bits, axis, scales), cols, bits, axis, scales)
}

proof fn lemma_unit_candidate(
    w: Seq<u32>,
    rows: int,
    cols: int,
    bits: QBits,
    axis: QAxis,
    s: Seq<u32>,
)
    requires
        rows >= 0,
        cols >= 0,
        w.len() == rows * cols,
        s.len() == rows,
        all_ones(s),
    ensures
        awq::unfolded(awq::equivalent(w, rows, cols, bits, axis, s), cols, s) == plain_values(
            w,
            rows,
            cols,
            bits,
            axis,
        ),
{
    let f = awq::folded(w, cols, s);
    assert forall|i: int| 0 <= i < w.len() implies gptq_laws::alike(#[trigger] f[i], w[i]) by {
        quant::flat_position(i, rows, cols);
        awq::product_by_one(w[i]);
    }
    gptq_laws::alike_matrices_round_alike(f, w, rows, cols, bits, axis);
    let e = awq::equivalent(w, rows, cols, bits, axis, s);
    assert(e == plain_values(w, rows, cols, bits, axis));
    assert forall|i: int| 0 <= i < e.len() implies awq::unfolded(e, cols, s)[i] == e[i] by {
        quant::flat_position(i, rows, cols);
        let scales = quant::scales_of(f, rows, cols, axis);
        let c = quant::codes_under(f, cols, bits, axis, scales)[i];
        order_laws::products_have_one_nan(
            rounding::quotient(quant::code_value(c), bits.qmax_bits()),
            scales[axis.group_of(i, cols)],
        );
        quotient_by_one(e[i]);
    }
    assert(awq::unfolded(e, cols, s) =~= e);
}

/// Whether a function keeps the order of numbers.
pub open spec fn keeps_order<F: Fn(u32) -> u32>(f: &F) -> bool {
    forall|u: u32, v: u32, a: u32, b: u32| #[trigger]
        call_ensures(f, (u,), a) && #[trigger] call_ensures(f, (v,), b) && order_laws::at_most(u, v)
            ==> order_laws::at_most(a, b)
}

/// Whether a function maps zero, of either sign, to one.
pub open spec fn maps_zero_to_one<F: Fn(u32) -> u32>(f: &F) -> bool {
    forall|z: u32, a: u32|
        float_bits::magnitude(z) == 0 && #[trigger] call_ensures(f, (z,), a) ==> a == ONE_BITS
}

/// Within a group, a channel that is used more gets no smaller a scale, where the logarithm and the
/// exponential keep the order of numbers.
pub proof fn used_channels_get_larger_scales<L: Fn(u32) -> u32, E: Fn(u32) -> u32>(
    ln: &L,
    exp: &E,
    uses: Seq<u32>,
    alpha: u32,
    group: usize,
    l: Seq<u32>,
    s: Seq<u32>,
    i: int,
    j: int,
)
    requires
        keeps_order(ln),
        keeps_order(exp),
        alpha < float_bits::INFINITY_BITS,
        awq_scaling::are_logs(ln, uses, l),
        s.len() == uses.len(),
        0 <= i < s.len(),
        0 <= j < s.len(),
        awq_scaling::group_start(i, awq_scaling::at_least_one(group)) == awq_scaling::group_start(
            j,
            awq_scaling::at_least_one(group),
        ),
        order_laws::at_most(uses[i], uses[j]),
        float_bits::finite(l[i]),
        float_bits::finite(l[j]),
        float_bits::finite(
            awq_scaling::group_mean(
                awq_scaling::weighted(l, alpha),
                awq_scaling::group_start(i, awq_scaling::at_least_one(group)),
                awq_scaling::at_least_one(group),
            ),
        ),
        forall|k: int|
            0 <= k < s.len() ==> call_ensures(
                exp,
                (
                    awq_scaling::centred(
                        awq_scaling::weighted(l, alpha),
                        awq_scaling::at_least_one(group),
                        k,
                    ),
                ),
                #[trigger] s[k],
            ),
    ensures
        order_laws::at_most(s[i], s[j]),
{
    let g = awq_scaling::at_least_one(group);
    let w = awq_scaling::weighted(l, alpha);
    let (ui, uj) = (
        softmax::larger(uses[i], awq_scaling::USE_FLOOR),
        softmax::larger(uses[j], awq_scaling::USE_FLOOR),
    );
    assert(order_laws::at_most(ui, uj));
    assert(call_ensures(ln, (ui,), l[i]));
    assert(call_ensures(ln, (uj,), l[j]));
    assert(order_laws::at_most(l[i], l[j]));
    order_laws::products_keep_order(alpha, l[i], l[j]);
    assert(order_laws::at_most(w[i], w[j]));
    let m = awq_scaling::group_mean(w, awq_scaling::group_start(i, g), g);
    order_laws::differences_keep_order(w[i], w[j], m);
    assert(call_ensures(exp, (awq_scaling::centred(w, g, i),), s[i]));
    assert(call_ensures(exp, (awq_scaling::centred(w, g, j),), s[j]));
}

proof fn lemma_zero_span(w: Seq<u32>, start: int, n: nat)
    requires
        0 <= start,
        start + n <= w.len(),
        forall|k: int| 0 <= k < w.len() ==> float_bits::magnitude(#[trigger] w[k]) == 0,
    ensures
        float_bits::magnitude(awq_scaling::span_sum(w, start, n)) == 0,
    decreases n,
{
    if n > 0 {
        lemma_zero_span(w, start, (n - 1) as nat);
        order_laws::zeros_add_up_to_zero(
            awq_scaling::span_sum(w, start, (n - 1) as nat),
            w[start + n - 1],
        );
    }
}

/// Whether the logarithms of the uses are finite.
pub open spec fn finite_logs<L: Fn(u32) -> u32>(ln: &L, uses: Seq<u32>) -> bool {
    forall|j: int, a: u32|
        #![trigger call_ensures(ln, (softmax::larger(uses[j], awq_scaling::USE_FLOOR),), a)]
        0 <= j < uses.len() && call_ensures(
            ln,
            (softmax::larger(uses[j], awq_scaling::USE_FLOOR),),
            a,
        ) ==> float_bits::finite(a)
}

/// The exponent zero gives every channel exactly the scale one, where the logarithms are finite and
/// the exponential of zero is one.
pub proof fn zero_exponents_give_unit_scales<L: Fn(u32) -> u32, E: Fn(u32) -> u32>(
    ln: &L,
    exp: &E,
    uses: Seq<u32>,
    group: usize,
    s: Seq<u32>,
)
    requires
        maps_zero_to_one(exp),
        finite_logs(ln, uses),
        awq_scaling::are_scales(ln, exp, uses, 0, group, s),
    ensures
        all_ones(s),
{
    let g = awq_scaling::at_least_one(group);
    let l = choose|l: Seq<u32>| #[trigger]
        awq_scaling::are_logs(ln, uses, l) && forall|j: int|
            0 <= j < s.len() ==> call_ensures(
                exp,
                (awq_scaling::centred(awq_scaling::weighted(l, 0), g, j),),
                #[trigger] s[j],
            );
    let w = awq_scaling::weighted(l, 0);
    assert forall|k: int| 0 <= k < w.len() implies float_bits::magnitude(#[trigger] w[k]) == 0 by {
        assert(call_ensures(ln, (softmax::larger(uses[k], awq_scaling::USE_FLOOR),), l[k]));
        order_laws::zero_times_a_number(l[k]);
    }
    assert forall|j: int| 0 <= j < s.len() implies #[trigger] s[j] == ONE_BITS by {
        let start = awq_scaling::group_start(j, g);
        vstd::arithmetic::div_mod::lemma_mod_bound(j, g);
        vstd::arithmetic::div_mod::lemma_mod_decreases(j as nat, g as nat);
        let n = awq_scaling::group_len(start, g, w.len() as int);
        assert(1 <= n && start + n <= w.len());
        lemma_zero_span(w, start, n as nat);
        order_laws::zero_over_a_count(awq_scaling::span_sum(w, start, n as nat), n);
        let m = awq_scaling::group_mean(w, start, g);
        order_laws::zeros_add_up_to_zero(w[j], rounding::opposite(m));
        assert(float_bits::magnitude(awq_scaling::centred(w, g, j)) == 0);
    }
}

/// The scales of an exponent are unique where the logarithm and the exponential have one value per
/// number.
pub proof fn scales_are_unique<L: Fn(u32) -> u32, E: Fn(u32) -> u32>(
    ln: &L,
    exp: &E,
    uses: Seq<u32>,
    alpha: u32,
    group: usize,
    s: Seq<u32>,
    t: Seq<u32>,
)
    requires
        loss_laws::single_valued(ln),
        loss_laws::single_valued(exp),
        awq_scaling::are_scales(ln, exp, uses, alpha, group, s),
        awq_scaling::are_scales(ln, exp, uses, alpha, group, t),
    ensures
        s == t,
{
    let g = awq_scaling::at_least_one(group);
    let a = choose|l: Seq<u32>| #[trigger]
        awq_scaling::are_logs(ln, uses, l) && forall|j: int|
            0 <= j < s.len() ==> call_ensures(
                exp,
                (awq_scaling::centred(awq_scaling::weighted(l, alpha), g, j),),
                #[trigger] s[j],
            );
    let b = choose|l: Seq<u32>| #[trigger]
        awq_scaling::are_logs(ln, uses, l) && forall|j: int|
            0 <= j < t.len() ==> call_ensures(
                exp,
                (awq_scaling::centred(awq_scaling::weighted(l, alpha), g, j),),
                #[trigger] t[j],
            );
    assert forall|j: int| 0 <= j < a.len() implies a[j] == b[j] by {
        assert(call_ensures(ln, (softmax::larger(uses[j], awq_scaling::USE_FLOOR),), a[j]));
        assert(call_ensures(ln, (softmax::larger(uses[j], awq_scaling::USE_FLOOR),), b[j]));
    }
    assert(a =~= b);
    assert forall|j: int| 0 <= j < s.len() implies s[j] == t[j] by {
        let c = awq_scaling::centred(awq_scaling::weighted(a, alpha), g, j);
        assert(call_ensures(exp, (c,), s[j]));
        assert(call_ensures(exp, (c,), t[j]));
    }
    assert(s =~= t);
}

/// The usual grid begins with the exponent zero.
pub proof fn the_grid_begins_with_zero()
    ensures
        awq::alpha_grid()[0] == 0,
        awq::alpha_grid().len() == 21,
{
    assert(rounding::count_value(0) == 0) by {
        order_laws::zero_is_rounded_to_zero();
        assert(0 * float_bits::one() == 0);
    }
    order_laws::zero_times_a_number(awq::AWQ_ALPHA_GRID_STEP);
}

/// Whether the scales `s` of place `b` give the smallest weight error of all scales that a grid of
/// exponents gives, and a smaller one than any earlier place.
pub open spec fn best_place<L: Fn(u32) -> u32, E: Fn(u32) -> u32>(
    ln: &L,
    exp: &E,
    w: Seq<u32>,
    rows: int,
    cols: int,
    bits: QBits,
    axis: QAxis,
    uses: Seq<u32>,
    alphas: Seq<u32>,
    s: Seq<u32>,
    b: int,
) -> bool {
    &&& 0 <= b < alphas.len()
    &&& awq_scaling::are_scales(ln, exp, uses, alphas[b], awq::AWQ_GROUP_SIZE, s)
    &&& forall|i: int, t: Seq<u32>|
        0 <= i < alphas.len() && #[trigger] awq_scaling::are_scales(
            ln,
            exp,
            uses,
            alphas[i],
            awq::AWQ_GROUP_SIZE,
            t,
        ) ==> {
            let e = gptq::numeric(awq::weight_error(w, rows, cols, bits, axis, s));
            let other = gptq::numeric(awq::weight_error(w, rows, cols, bits, axis, t));
            e <= other && (i < b ==> e < other)
        }
}

/// A search ends with an exponent of its grid whose weight error is the smallest, the first of
/// equals, and with the matrix and the scales of that exponent. The logarithm and the exponential
/// have one value per number, and no error is a NaN.
pub proof fn searches_find_the_best_exponent<L: Fn(u32) -> u32, E: Fn(u32) -> u32>(
    ln: &L,
    exp: &E,
    q: QMatrix,
    s: Seq<u32>,
    alpha: u32,
    w: Seq<u32>,
    rows: int,
    cols: int,
    bits: QBits,
    axis: QAxis,
    uses: Seq<u32>,
    alphas: Seq<u32>,
)
    requires
        loss_laws::single_valued(ln),
        loss_laws::single_valued(exp),
        awq::is_search(ln, exp, q, s, alpha, w, rows, cols, bits, axis, uses, alphas),
        forall|i: int, t: Seq<u32>|
            0 <= i < alphas.len() && #[trigger] awq_scaling::are_scales(
                ln,
                exp,
                uses,
                alphas[i],
                awq::AWQ_GROUP_SIZE,
                t,
            ) ==> !float_bits::nan(awq::weight_error(w, rows, cols, bits, axis, t)),
    ensures
        exists|b: int|
            alpha == alphas[b] && #[trigger] best_place(
                ln,
                exp,
                w,
                rows,
                cols,
                bits,
                axis,
                uses,
                alphas,
                s,
                b,
            ),
        gptq::is_plain_rounding(q, awq::folded(w, cols, s), rows, cols, bits, axis),
{
    let scales = choose|scales: Seq<Seq<u32>>| #[trigger]
        awq::are_scale_lists(ln, exp, uses, alphas, scales) && awq::is_choice(
            q,
            s,
            alpha,
            w,
            rows,
            cols,
            bits,
            axis,
            alphas,
            scales,
            awq::best_index(awq::weight_errors(w, rows, cols, bits, axis, scales), alphas.len()),
        );
    let errors = awq::weight_errors(w, rows, cols, bits, axis, scales);
    let b = awq::best_index(errors, alphas.len());
    assert forall|i: int| 0 <= i < errors.len() implies !float_bits::nan(#[trigger] errors[i]) by {
        assert(awq_scaling::are_scales(
            ln,
            exp,
            uses,
            alphas[i],
            awq::AWQ_GROUP_SIZE,
            scales[i],
        ));
    }
    awq::best_index_is_the_first_minimum(errors, alphas.len());
    assert(s == scales[b]);
    assert forall|i: int, t: Seq<u32>|
        0 <= i < alphas.len() && #[trigger] awq_scaling::are_scales(
            ln,
            exp,
            uses,
            alphas[i],
            awq::AWQ_GROUP_SIZE,
            t,
        ) implies {
        let e = gptq::numeric(awq::weight_error(w, rows, cols, bits, axis, s));
        let other = gptq::numeric(awq::weight_error(w, rows, cols, bits, axis, t));
        e <= other && (i < b ==> e < other)
    } by {
        scales_are_unique(ln, exp, uses, alphas[i], awq::AWQ_GROUP_SIZE, t, scales[i]);
        assert(errors[i] == awq::weight_error(w, rows, cols, bits, axis, t));
        assert(errors[b] == awq::weight_error(w, rows, cols, bits, axis, s));
    }
    assert(best_place(ln, exp, w, rows, cols, bits, axis, uses, alphas, s, b));
}

/// A search whose grid holds the exponent zero gives no larger weight error than plain rounding,
/// where the logarithms are finite, the exponential of zero is one and no error is a NaN.
pub proof fn search_is_never_worse_than_plain_rounding<L: Fn(u32) -> u32, E: Fn(u32) -> u32>(
    ln: &L,
    exp: &E,
    q: QMatrix,
    s: Seq<u32>,
    alpha: u32,
    w: Seq<u32>,
    rows: int,
    cols: int,
    bits: QBits,
    axis: QAxis,
    uses: Seq<u32>,
    alphas: Seq<u32>,
    z: int,
)
    requires
        rows >= 0,
        cols >= 0,
        w.len() == rows * cols,
        uses.len() == rows,
        0 <= z < alphas.len(),
        alphas[z] == 0,
        maps_zero_to_one(exp),
        finite_logs(ln, uses),
        awq::is_search(ln, exp, q, s, alpha, w, rows, cols, bits, axis, uses, alphas),
        forall|i: int, t: Seq<u32>|
            0 <= i < alphas.len() && #[trigger] awq_scaling::are_scales(
                ln,
                exp,
                uses,
                alphas[i],
                awq::AWQ_GROUP_SIZE,
                t,
            ) ==> !float_bits::nan(awq::weight_error(w, rows, cols, bits, axis, t)),
    ensures
        order_laws::at_most(
            awq::weight_error(w, rows, cols, bits, axis, s),
            quant::error_of(w, plain_values(w, rows, cols, bits, axis)).relative,
        ),
{
    let scales = choose|scales: Seq<Seq<u32>>| #[trigger]
        awq::are_scale_lists(ln, exp, uses, alphas, scales) && awq::is_choice(
            q,
            s,
            alpha,
            w,
            rows,
            cols,
            bits,
            axis,
            alphas,
            scales,
            awq::best_index(awq::weight_errors(w, rows, cols, bits, axis, scales), alphas.len()),
        );
    let errors = awq::weight_errors(w, rows, cols, bits, axis, scales);
    let b = awq::best_index(errors, alphas.len());
    assert forall|i: int| 0 <= i < errors.len() implies !float_bits::nan(#[trigger] errors[i]) by {
        assert(awq_scaling::are_scales(
            ln,
            exp,
            uses,
            alphas[i],
            awq::AWQ_GROUP_SIZE,
            scales[i],
        ));
    }
    awq::best_index_is_the_first_minimum(errors, alphas.len());
    assert(awq_scaling::are_scales(ln, exp, uses, 0, awq::AWQ_GROUP_SIZE, scales[z]));
    zero_exponents_give_unit_scales(ln, exp, uses, awq::AWQ_GROUP_SIZE, scales[z]);
    lemma_unit_candidate(w, rows, cols, bits, axis, scales[z]);
    assert(errors[z] == awq::weight_error(w, rows, cols, bits, axis, scales[z]));
    assert(errors[b] == awq::weight_error(w, rows, cols, bits, axis, s));
}

/// Whether the scales `s` of place `b` give the smallest output error over calibration inputs of all scales that a grid of
/// exponents gives, and a smaller one than any earlier place.
pub open spec fn best_output_place<L: Fn(u32) -> u32, E: Fn(u32) -> u32>(
    ln: &L,
    exp: &E,
    w: Seq<u32>,
    rows: int,
    cols: int,
    bits: QBits,
    axis: QAxis,
    uses: Seq<u32>,
    x: Seq<u32>,
    x_rows: int,
    alphas: Seq<u32>,
    s: Seq<u32>,
    b: int,
) -> bool {
    &&& 0 <= b < alphas.len()
    &&& awq_scaling::are_scales(ln, exp, uses, alphas[b], awq::AWQ_GROUP_SIZE, s)
    &&& forall|i: int, t: Seq<u32>|
        0 <= i < alphas.len() && #[trigger] awq_scaling::are_scales(
            ln,
            exp,
            uses,
            alphas[i],
            awq::AWQ_GROUP_SIZE,
            t,
        ) ==> {
            let e = gptq::numeric(awq::candidate_output_error(w, rows, cols, bits, axis, s, x, x_rows));
            let other = gptq::numeric(awq::candidate_output_error(w, rows, cols, bits, axis, t, x, x_rows));
            e <= other && (i < b ==> e < other)
        }
}

/// A search ends with an exponent of its grid whose output error over calibration inputs is the smallest, the first of
/// equals, and with the matrix and the scales of that exponent. The logarithm and the exponential
/// have one value per number, and no error is a NaN.
pub proof fn calibrated_searches_find_the_best_exponent<L: Fn(u32) -> u32, E: Fn(u32) -> u32>(
    ln: &L,
    exp: &E,
    q: QMatrix,
    s: Seq<u32>,
    alpha: u32,
    w: Seq<u32>,
    rows: int,
    cols: int,
    bits: QBits,
    axis: QAxis,
    uses: Seq<u32>,
    x: Seq<u32>,
    x_rows: int,
    alphas: Seq<u32>,
)
    requires
        loss_laws::single_valued(ln),
        loss_laws::single_valued(exp),
        awq::is_output_search(ln, exp, q, s, alpha, w, rows, cols, bits, axis, uses, x, x_rows, alphas),
        forall|i: int, t: Seq<u32>|
            0 <= i < alphas.len() && #[trigger] awq_scaling::are_scales(
                ln,
                exp,
                uses,
                alphas[i],
                awq::AWQ_GROUP_SIZE,
                t,
            ) ==> !float_bits::nan(awq::candidate_output_error(w, rows, cols, bits, axis, t, x, x_rows)),
    ensures
        exists|b: int|
            alpha == alphas[b] && #[trigger] best_output_place(
                ln,
                exp,
                w,
                rows,
                cols,
                bits,
                axis,
                uses,
                x,
                x_rows,
                alphas,
                s,
                b,
            ),
        gptq::is_plain_rounding(q, awq::folded(w, cols, s), rows, cols, bits, axis),
{
    let scales = choose|scales: Seq<Seq<u32>>| #[trigger]
        awq::are_scale_lists(ln, exp, uses, alphas, scales) && awq::is_choice(
            q,
            s,
            alpha,
            w,
            rows,
            cols,
            bits,
            axis,
            alphas,
            scales,
            awq::best_index(awq::output_errors(w, rows, cols, bits, axis, scales, x, x_rows), alphas.len()),
        );
    let errors = awq::output_errors(w, rows, cols, bits, axis, scales, x, x_rows);
    let b = awq::best_index(errors, alphas.len());
    assert forall|i: int| 0 <= i < errors.len() implies !float_bits::nan(#[trigger] errors[i]) by {
        assert(awq_scaling::are_scales(
            ln,
            exp,
            uses,
            alphas[i],
            awq::AWQ_GROUP_SIZE,
            scales[i],
        ));
    }
    awq::best_index_is_the_first_minimum(errors, alphas.len());
    assert(s == scales[b]);
    assert forall|i: int, t: Seq<u32>|
        0 <= i < alphas.len() && #[trigger] awq_scaling::are_scales(
            ln,
            exp,
            uses,
            alphas[i],
            awq::AWQ_GROUP_SIZE,
            t,
        ) implies {
        let e = gptq::numeric(awq::candidate_output_error(w, rows, cols, bits, axis, s, x, x_rows));
        let other = gptq::numeric(awq::candidate_output_error(w, rows, cols, bits, axis, t, x, x_rows));
        e <= other && (i < b ==> e < other)
    } by {
        scales_are_unique(ln, exp, uses, alphas[i], awq::AWQ_GROUP_SIZE, t, scales[i]);
        assert(errors[i] == awq::candidate_output_error(w, rows, cols, bits, axis, t, x, x_rows));
        assert(errors[b] == awq::candidate_output_error(w, rows, cols, bits, axis, s, x, x_rows));
    }
    assert(best_output_place(ln, exp, w, rows, cols, bits, axis, uses, x, x_rows, alphas, s, b));
}

/// A search whose grid holds the exponent zero gives no larger output error over calibration inputs than plain rounding,
/// where the logarithms are finite, the exponential of zero is one and no error is a NaN.
pub proof fn calibrated_search_is_never_worse_than_plain_rounding<L: Fn(u32) -> u32, E: Fn(u32) -> u32>(
    ln: &L,
    exp: &E,
    q: QMatrix,
    s: Seq<u32>,
    alpha: u32,
    w: Seq<u32>,
    rows: int,
    cols: int,
    bits: QBits,
    axis: QAxis,
    uses: Seq<u32>,
    x: Seq<u32>,
    x_rows: int,
    alphas: Seq<u32>,
    z: int,
)
    requires
        rows >= 0,
        cols >= 0,
        w.len() == rows * cols,
        uses.len() == rows,
        0 <= z < alphas.len(),
        alphas[z] == 0,
        maps_zero_to_one(exp),
        finite_logs(ln, uses),
        awq::is_output_search(ln, exp, q, s, alpha, w, rows, cols, bits, axis, uses, x, x_rows, alphas),
        forall|i: int, t: Seq<u32>|
            0 <= i < alphas.len() && #[trigger] awq_scaling::are_scales(
                ln,
                exp,
                uses,
                alphas[i],
                awq::AWQ_GROUP_SIZE,
                t,
            ) ==> !float_bits::nan(awq::candidate_output_error(w, rows, cols, bits, axis, t, x, x_rows)),
    ensures
        order_laws::at_most(
            awq::candidate_output_error(w, rows, cols, bits, axis, s, x, x_rows),
            awq::output_error(
                x,
                w,
                plain_values(w, rows, cols, bits, axis),
                rows,
                cols,
                (x_rows * cols) as nat,
            ),
        ),
{
    let scales = choose|scales: Seq<Seq<u32>>| #[trigger]
        awq::are_scale_lists(ln, exp, uses, alphas, scales) && awq::is_choice(
            q,
            s,
            alpha,
            w,
            rows,
            cols,
            bits,
            axis,
            alphas,
            scales,
            awq::best_index(awq::output_errors(w, rows, cols, bits, axis, scales, x, x_rows), alphas.len()),
        );
    let errors = awq::output_errors(w, rows, cols, bits, axis, scales, x, x_rows);
    let b = awq::best_index(errors, alphas.len());
    assert forall|i: int| 0 <= i < errors.len() implies !float_bits::nan(#[trigger] errors[i]) by {
        assert(awq_scaling::are_scales(
            ln,
            exp,
            uses,
            alphas[i],
            awq::AWQ_GROUP_SIZE,
            scales[i],
        ));
    }
    awq::best_index_is_the_first_minimum(errors, alphas.len());
    assert(awq_scaling::are_scales(ln, exp, uses, 0, awq::AWQ_GROUP_SIZE, scales[z]));
    zero_exponents_give_unit_scales(ln, exp, uses, awq::AWQ_GROUP_SIZE, scales[z]);
    lemma_unit_candidate(w, rows, cols, bits, axis, scales[z]);
    assert(errors[z] == awq::candidate_output_error(w, rows, cols, bits, axis, scales[z], x, x_rows));
    assert(errors[b] == awq::candidate_output_error(w, rows, cols, bits, axis, s, x, x_rows));
}

} // verus!
