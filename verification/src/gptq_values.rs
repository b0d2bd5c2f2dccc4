//! What the damping of second moments is worth as a real number.

use crate::float_bits;
use crate::gptq;
use crate::linalg;
use crate::loss;
use crate::quant;
use crate::rounding;
use crate::values;
use crate::values::{grain, size, speck, value};
use vstd::prelude::*;

verus! {

/// The diagonal of an `n x n` matrix.
pub open spec fn diagonal_of(h: Seq<u32>, n: int) -> Seq<u32> {
    Seq::new(n as nat, |i: int| h[i * n + i])
}

proof fn lemma_trace(h: Seq<u32>, n: int, k: nat)
    requires
        k <= n,
    ensures
        gptq::trace(h, n, k) == loss::running_sum(diagonal_of(h, n), k),
    decreases k,
{
    if k > 0 {
        lemma_trace(h, n, (k - 1) as nat);
    }
}

/// The share of the diagonal that damping asks for: a factor below zero counts as zero.
pub open spec fn damping_share(damp: u32) -> real {
    if value(damp) > 0real {
        value(damp)
    } else {
        0real
    }
}

/// What damping may be off by, times the size of the matrix.
pub open spec fn damping_slack(h: Seq<u32>, n: int, damp: u32) -> real {
    (2real * (n as real) + 8real) * (grain() * (damping_share(damp) * values::total_size(
        diagonal_of(h, n),
        n as nat,
    ))) + 4real * (n as real * speck())
}

/// What is added to the diagonal is a share of the mean diagonal element: times the size of the
/// matrix, it is the factor times the sum of the diagonal.
pub proof fn damping_is_a_share_of_the_mean(h: Seq<u32>, n: int, damp: u32)
    requires
        0 < n <= 0x80_0000,
        float_bits::finite(damp),
        0 < gptq::trace(h, n, n as nat) < float_bits::INFINITY_BITS,
        float_bits::finite(gptq::damping(h, n, damp)),
    ensures
        size(
            value(gptq::damping(h, n, damp)) * (n as real) - damping_share(damp) * values::total(
                diagonal_of(h, n),
                n as nat,
            ),
        ) <= damping_slack(h, n, damp),
{
    let diag = diagonal_of(h, n);
    lemma_trace(h, n, n as nat);
    let t = gptq::trace(h, n, n as nat);
    values::running_sums_are_close(diag, n as nat);
    values::value_has_the_sign(damp);
    values::value_has_the_sign(t);
    values::one_has_value_one();
    let f = if float_bits::positive(damp) {
        damp
    } else {
        0u32
    };
    let share = damping_share(damp);
    assert(value(f) == share);
    let p = rounding::product(f, t);
    let c = rounding::count_value(n);
    let r = rounding::quotient(p, c);
    values::counts_are_exact(n);
    values::products_are_close(f, t);
    values::quotients_multiply_back(p, c);
    values::specks_are_small();
    let (g, s, nr) = (grain(), speck(), n as real);
    let (total, a) = (values::total(diag, n as nat), values::total_size(diag, n as nat));
    let (vt, vp) = (value(t), value(p));
    let ga = g * a;
    values::grains(a);
    let w = 2real * nr * ga;
    values::factors_keep_order(nr, 8388608real, ga);
    assert(w == 2real * (nr * ga)) by (nonlinear_arith)
        requires
            w == 2real * nr * ga,
    ;
    // In shares of the summed diagonal.
    let fa = share * a;
    let gfa = g * fa;
    let e = vt - total;
    values::sizes_multiply(share, e);
    values::sizes_multiply(share, vt);
    assert(share * e == share * vt - share * total) by (nonlinear_arith)
        requires
            e == vt - total,
    ;
    values::factors_keep_order(size(e), w, share);
    assert(share * w == 2real * nr * gfa) by (nonlinear_arith)
        requires
            w == 2real * nr * ga,
            ga == g * a,
            gfa == g * fa,
            fa == share * a,
    ;
    let ft = share * vt;
    values::factors_keep_order(vt, 2real * a, share);
    values::factors_keep_order(0real, vt, share);
    assert(share * (2real * a) == 2real * fa && share * 0real == 0real) by (nonlinear_arith)
        requires
            fa == share * a,
    ;
    values::grains(fa);
    values::grains(ft);
    values::factors_keep_order(ft, 2real * fa, g);
    values::factors_keep_order(size(vp), 2real * fa + 2real * gfa + s, g);
    assert(g * (2real * fa) == 2real * gfa && g * (2real * fa + 2real * gfa + s) == 2real * gfa
        + g * (2real * gfa) + g * s) by (nonlinear_arith)
        requires
            gfa == g * fa,
    ;
    values::grains(2real * gfa);
    values::grains(s);
    let ns = nr * s;
    values::factors_keep_order(1real, nr, s);
    assert(s * nr == ns && s * 1real == s) by (nonlinear_arith)
        requires
            ns == nr * s,
    ;
    assert((2real * nr + 8real) * gfa == 2real * nr * gfa + 8real * gfa) by (nonlinear_arith);
}

/// A sum of two parts in a row.
proof fn lemma_total_of_parts(a: Seq<u32>, b: Seq<u32>, k: nat)
    requires
        k <= b.len(),
    ensures
        values::total(a + b, a.len() + k) == values::total(a, a.len()) + values::total(b, k),
        values::total_size(a + b, a.len() + k) == values::total_size(a, a.len())
            + values::total_size(b, k),
    decreases k,
{
    if k == 0 {
        lemma_total_of_start(a, b, a.len());
    } else {
        lemma_total_of_parts(a, b, (k - 1) as nat);
        assert((a + b)[a.len() + k - 1] == b[k - 1]);
    }
}

proof fn lemma_total_of_start(a: Seq<u32>, b: Seq<u32>, k: nat)
    requires
        k <= a.len(),
    ensures
        values::total(a + b, k) == values::total(a, k),
        values::total_size(a + b, k) == values::total_size(a, k),
    decreases k,
{
    if k > 0 {
        lemma_total_of_start(a, b, (k - 1) as nat);
        assert((a + b)[k - 1] == a[k - 1]);
    }
}

/// Damping does not grow with the width of a layer: a matrix whose diagonal is that of another one,
/// twice over, is damped by the same term.
pub proof fn repeated_moments_are_damped_alike(h: Seq<u32>, h2: Seq<u32>, n: int, damp: u32)
    requires
        0 < n,
        2 * n <= 0x80_0000,
        float_bits::finite(damp),
        0 < gptq::trace(h, n, n as nat) < float_bits::INFINITY_BITS,
        0 < gptq::trace(h2, 2 * n, (2 * n) as nat) < float_bits::INFINITY_BITS,
        float_bits::finite(gptq::damping(h, n, damp)),
        float_bits::finite(gptq::damping(h2, 2 * n, damp)),
        diagonal_of(h2, 2 * n) == diagonal_of(h, n) + diagonal_of(h, n),
    ensures
        size(
            (value(gptq::damping(h2, 2 * n, damp)) - value(gptq::damping(h, n, damp))) * (2real
                * (n as real)),
        ) <= damping_slack(h2, 2 * n, damp) + 2real * damping_slack(h, n, damp),
{
    let d = diagonal_of(h, n);
    damping_is_a_share_of_the_mean(h, n, damp);
    damping_is_a_share_of_the_mean(h2, 2 * n, damp);
    lemma_total_of_parts(d, d, n as nat);
    let (x, y, nr) = (
        value(gptq::damping(h, n, damp)),
        value(gptq::damping(h2, 2 * n, damp)),
        n as real,
    );
    let (s, t) = (damping_share(damp), values::total(d, n as nat));
    assert((2 * n) as real == 2real * nr);
    assert((y - x) * (2real * nr) == y * (2real * nr) - 2real * (x * nr)) by (nonlinear_arith);
    assert(s * (t + t) == 2real * (s * t)) by (nonlinear_arith);
}

proof fn lemma_equal_total(v: Seq<u32>, t: u32, k: nat)
    requires
        k <= v.len(),
        forall|i: int| 0 <= i < v.len() ==> #[trigger] v[i] == t,
    ensures
        values::total(v, k) == k as real * value(t),
        values::total_size(v, k) == k as real * size(value(t)),
    decreases k,
{
    if k == 0 {
        let v1 = value(t);
        assert(0real * v1 == 0real && 0real * size(v1) == 0real) by (nonlinear_arith);
    } else {
        lemma_equal_total(v, t, (k - 1) as nat);
        assert(v[k - 1] == t);
        let (kr, jr) = (k as real, (k - 1) as real);
        let v1 = value(t);
        assert(kr * v1 == jr * v1 + v1) by (nonlinear_arith)
            requires
                kr == jr + 1real,
        ;
        let v1 = value(t);
        assert(kr * size(v1) == jr * size(v1) + size(v1)) by (nonlinear_arith)
            requires
                kr == jr + 1real,
        ;
    }
}

/// A matrix whose diagonal elements are all equal is damped by the factor times that element,
/// whatever its size.
pub proof fn even_moments_are_damped_by_their_element(h: Seq<u32>, n: int, damp: u32, t: u32)
    requires
        0 < n <= 0x80_0000,
        float_bits::finite(damp),
        forall|i: int| 0 <= i < n ==> #[trigger] diagonal_of(h, n)[i] == t,
        0 < gptq::trace(h, n, n as nat) < float_bits::INFINITY_BITS,
        float_bits::finite(gptq::damping(h, n, damp)),
    ensures
        size(value(gptq::damping(h, n, damp)) - damping_share(damp) * value(t)) <= (2real
            * (n as real) + 8real) * (grain() * (damping_share(damp) * size(value(t)))) + 4real
            * speck(),
{
    damping_is_a_share_of_the_mean(h, n, damp);
    lemma_equal_total(diagonal_of(h, n), t, n as nat);
    let (nr, s, v, g, z) = (n as real, damping_share(damp), value(t), grain(), speck());
    let r = value(gptq::damping(h, n, damp));
    let e = r - s * v;
    assert(e * nr == r * nr - s * (nr * v)) by (nonlinear_arith)
        requires
            e == r - s * v,
    ;
    values::sizes_multiply(e, nr);
    let bound = (2real * nr + 8real) * (g * (s * size(v))) + 4real * z;
    assert(bound * nr == (2real * nr + 8real) * (g * (s * (nr * size(v)))) + 4real * (nr * z))
        by (nonlinear_arith)
        requires
            bound == (2real * nr + 8real) * (g * (s * size(v))) + 4real * z,
    ;
    values::common_factors_cancel(size(e), bound, nr);
}

/// Damping raises the diagonal by the term and leaves all else as it is.
pub proof fn damping_raises_the_diagonal_alone(h: Seq<u32>, n: int, term: u32, i: int, j: int)
    requires
        h.len() == n * n,
        0 <= i < n,
        0 <= j < n,
    ensures
        linalg::damped(h, n, term).len() == h.len(),
        i != j ==> linalg::damped(h, n, term)[i * n + j] == h[i * n + j],
        i == j && float_bits::finite(linalg::damped(h, n, term)[i * n + i]) ==> size(
            value(linalg::damped(h, n, term)[i * n + i]) - (value(h[i * n + i]) + value(term)),
        ) <= grain() * size(value(h[i * n + i]) + value(term)),
{
    quant::cell_position(i, j, n, n);
    if i == j && float_bits::finite(linalg::damped(h, n, term)[i * n + i]) {
        values::sums_are_close(h[i * n + i], term);
    }
}

} // verus!
