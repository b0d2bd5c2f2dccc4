//! Probabilities lie between zero and one, and losses are not negative.

use crate::awq_laws;
use crate::float_bits;
use crate::float_bits::{INFINITY_BITS, ONE_BITS};
use crate::layer_laws;
use crate::loss;
use crate::moe::MINUS_INFINITY;
use crate::norms;
use crate::order_laws;
use crate::quant;
use crate::quant_laws;
use crate::rounding;
use crate::softmax;
use vstd::prelude::*;

verus! {

/// Whether a function can stand for the exponential: it keeps the order of numbers, maps zero to
/// one, and maps no number below zero.
pub open spec fn exponential<E: Fn(u32) -> u32>(exp: &E) -> bool {
    &&& awq_laws::keeps_order(exp)
    &&& awq_laws::maps_zero_to_one(exp)
    &&& forall|v: u32, r: u32|
        !float_bits::nan(v) && #[trigger] call_ensures(exp, (v,), r) ==> r <= INFINITY_BITS
}

/// Whether a function can stand for the logarithm: it maps nothing from one on below zero.
pub open spec fn logarithm<L: Fn(u32) -> u32>(ln: &L) -> bool {
    forall|v: u32, r: u32|
        order_laws::at_most(ONE_BITS, v) && #[trigger] call_ensures(ln, (v,), r)
            ==> float_bits::at_least_zero(r)
}

/// Whether row `t` holds finite numbers.
pub open spec fn finite_row(x: Seq<u32>, d: int, t: int) -> bool {
    forall|k: int| 0 <= k < d ==> float_bits::finite(#[trigger] x[t * d + k])
}

/// The largest element of a row of finite numbers is one of them, and none is larger.
pub proof fn row_maxima_are_attained(x: Seq<u32>, d: int, t: int, n: nat)
    requires
        1 <= n <= d,
        finite_row(x, d, t),
    ensures
        exists|k: int| 0 <= k < n && softmax::row_max(x, d, t, n) == #[trigger] x[t * d + k],
        forall|k: int|
            0 <= k < n ==> order_laws::at_most(
                #[trigger] x[t * d + k],
                softmax::row_max(x, d, t, n),
            ),
    decreases n,
{
    let last = x[t * d + (n - 1)];
    assert(float_bits::finite(last));
    if n > 1 {
        row_maxima_are_attained(x, d, t, (n - 1) as nat);
        let b = choose|k: int|
            0 <= k < n - 1 && softmax::row_max(x, d, t, (n - 1) as nat) == #[trigger] x[t * d + k];
        assert(float_bits::finite(x[t * d + b]));
        assert(softmax::row_max(x, d, t, n) == last || softmax::row_max(x, d, t, n) == x[t * d + b]);
    } else {
        assert(softmax::row_max(x, d, t, 0) == MINUS_INFINITY);
        assert(softmax::row_max(x, d, t, 1) == last);
    }
}

proof fn lemma_sum_covers_row(e: Seq<u32>, d: int, t: int, n: nat)
    requires
        n <= d,
        forall|k: int| 0 <= k < d ==> #[trigger] e[t * d + k] <= INFINITY_BITS,
    ensures
        norms::row_sum(e, d, t, n) <= INFINITY_BITS,
        forall|k: int|
            0 <= k < n ==> #[trigger] e[t * d + k] <= norms::row_sum(e, d, t, n),
    decreases n,
{
    if n > 0 {
        lemma_sum_covers_row(e, d, t, (n - 1) as nat);
        order_laws::sums_grow(norms::row_sum(e, d, t, (n - 1) as nat), e[t * d + (n - 1)]);
    }
}

/// What is known of the exponentials of a row of finite numbers: none is above one, their sum is
/// not below one, and none is above the sum.
pub proof fn exponentials_are_parts_of_their_sum<E: Fn(u32) -> u32>(exp: &E, x: Seq<u32>, d: int, t: int, e: Seq<u32>)
    requires
        d >= 1,
        exponential(exp),
        finite_row(x, d, t),
        softmax::row_exps(exp, x, d, t, e),
    ensures
        forall|k: int| 0 <= k < d ==> #[trigger] e[t * d + k] <= ONE_BITS,
        ONE_BITS <= norms::row_sum(e, d, t, d as nat) <= INFINITY_BITS,
        forall|k: int|
            0 <= k < d ==> #[trigger] e[t * d + k] <= norms::row_sum(e, d, t, d as nat),
{
    let m = softmax::row_max(x, d, t, d as nat);
    row_maxima_are_attained(x, d, t, d as nat);
    let top = choose|k: int| 0 <= k < d && m == #[trigger] x[t * d + k];
    assert(float_bits::finite(m));
    layer_laws::difference_with_itself(m);
    assert(call_ensures(exp, (rounding::difference(x[t * d + top], m),), e[t * d + top]));
    assert(e[t * d + top] == ONE_BITS);
    assert forall|k: int| 0 <= k < d implies #[trigger] e[t * d + k] <= ONE_BITS by {
        let v = rounding::difference(x[t * d + k], m);
        assert(call_ensures(exp, (v,), e[t * d + k]));
        order_laws::differences_keep_order(x[t * d + k], m, m);
        assert(order_laws::at_most(e[t * d + k], e[t * d + top]));
    }
    lemma_sum_covers_row(e, d, t, d as nat);
}

/// The softmax of finite numbers lies between zero and one.
pub proof fn probabilities_are_parts_of_one<E: Fn(u32) -> u32>(
    exp: &E,
    x: Seq<u32>,
    rows: int,
    d: int,
    p: Seq<u32>,
    t: int,
    k: int,
)
    requires
        exponential(exp),
        softmax::is_softmax(exp, x, rows, d, p),
        0 <= t < rows,
        0 <= k < d,
        finite_row(x, d, t),
    ensures
        p[t * d + k] <= ONE_BITS,
{
    let e = choose|e: Seq<u32>| #[trigger]
        softmax::all_exps(exp, x, rows, d, e) && p == softmax::normalised(e, rows, d);
    assert(softmax::row_exps(exp, x, d, t, e));
    exponentials_are_parts_of_their_sum(exp, x, d, t, e);
    quant::cell_position(t, k, rows, d);
    let s = norms::row_sum(e, d, t, d as nat);
    assert(p[t * d + k] == rounding::quotient(e[t * d + k], s));
    parts_are_at_most_one(e[t * d + k], s);
}

/// A part of a positive number, over that number, lies between zero and one.
pub proof fn parts_are_at_most_one(e: u32, s: u32)
    requires
        e < INFINITY_BITS,
        e <= s <= INFINITY_BITS,
        s > 0,
    ensures
        rounding::quotient(e, s) <= ONE_BITS,
{
    if s < INFINITY_BITS {
        let (ue, us) = (float_bits::units(e), float_bits::units(s));
        let o = float_bits::one();
        vstd::arithmetic::power2::lemma_pow2_pos(149);
        rounding::units_follow_magnitudes(e, s);
        order_laws::positive_numbers_have_units(s);
        assert(0 <= ue * o <= o * us) by (nonlinear_arith)
            requires
                0 <= ue <= us,
                o > 0,
        ;
        quant_laws::nearest_is_monotone(ue * o, o * us, us);
        quant_laws::nearest_ignores_expansion(o, 1, us);
        assert(1 * us == us);
        quant_laws::one_is_one();
        rounding::nearest_is_not_negative(ue * o, us);
    }
}

/// The loss of a row of finite numbers is not negative.
pub proof fn losses_are_not_negative<E: Fn(u32) -> u32, L: Fn(u32) -> u32>(
    exp: &E,
    ln: &L,
    x: Seq<u32>,
    d: int,
    targets: Seq<usize>,
    mask: Option<Seq<bool>>,
    i: int,
    nll: u32,
)
    requires
        exponential(exp),
        logarithm(ln),
        loss::is_row_loss(exp, ln, x, d, targets, mask, i, nll),
        0 <= targets[i] < d,
        finite_row(x, d, i),
    ensures
        float_bits::at_least_zero(nll),
{
    if loss::supervised(mask, i) {
        let target = targets[i] as int;
        let (e, g) = choose|e: Seq<u32>, g: u32|
            #![trigger softmax::row_exps(exp, x, d, i, e), loss::row_loss(x, d, i, target, g)]
            e.len() == (i + 1) * d && softmax::row_exps(exp, x, d, i, e) && call_ensures(
                ln,
                (norms::row_sum(e, d, i, d as nat),),
                g,
            ) && nll == loss::row_loss(x, d, i, target, g);
        exponentials_are_parts_of_their_sum(exp, x, d, i, e);
        assert(float_bits::at_least_zero(g));
        let m = softmax::row_max(x, d, i, d as nat);
        row_maxima_are_attained(x, d, i, d as nat);
        let top = choose|k: int| 0 <= k < d && m == #[trigger] x[i * d + k];
        assert(float_bits::finite(m));
        let own = x[i * d + target];
        order_laws::differences_keep_order(own, m, m);
        layer_laws::difference_with_itself(m);
        order_laws::falling_stays_below_zero(rounding::difference(own, m), g);
    }
}

} // verus!
