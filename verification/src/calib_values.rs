//! What gathered statistics and measured errors are worth as real numbers.

use crate::calib;
use crate::float_bits;
use crate::float_bits::INFINITY_BITS;
use crate::loss;
use crate::norm_laws;
use crate::optim_laws;
use crate::quant;
use crate::roots;
use crate::rounding;
use crate::values;
use crate::values::{grain, size, speck, value};
use vstd::prelude::*;

verus! {

/// Column `j` of `rows` rows of width `n`.
pub open spec fn column(x: Seq<u32>, n: int, rows: nat, j: int) -> Seq<u32> {
    Seq::new(rows, |t: int| x[t * n + j])
}

spec fn products(x: Seq<u32>, n: int, rows: nat, j: int, k: int) -> Seq<u32> {
    Seq::new(rows, |t: int| rounding::product(x[t * n + j], x[t * n + k]))
}

spec fn magnitudes(x: Seq<u32>, n: int, rows: nat, j: int) -> Seq<u32> {
    Seq::new(rows, |t: int| float_bits::magnitude(x[t * n + j]))
}

proof fn lemma_moment(x: Seq<u32>, n: int, rows: nat, j: int, k: int, upto: nat)
    requires
        upto <= rows,
    ensures
        calib::moment(0, x, n, upto, j, k) == loss::running_sum(products(x, n, rows, j, k), upto),
    decreases upto,
{
    if upto > 0 {
        lemma_moment(x, n, rows, j, k, (upto - 1) as nat);
    }
}

proof fn lemma_abs_sum(x: Seq<u32>, n: int, rows: nat, j: int, upto: nat)
    requires
        upto <= rows,
    ensures
        calib::abs_sum(0, x, n, upto, j) == loss::running_sum(magnitudes(x, n, rows, j), upto),
    decreases upto,
{
    if upto > 0 {
        lemma_abs_sum(x, n, rows, j, (upto - 1) as nat);
    }
}

/// The second moment of two channels, gathered from nothing, is the sum over the rows of their
/// products.
pub proof fn moments_are_sums_of_products(h: Seq<u32>, x: Seq<u32>, n: int, rows: nat, j: int, k: int)
    requires
        rows <= 0x80_0000,
        0 <= j <= k < n,
        h.len() == n * n,
        h[j * n + k] == 0,
        h[k * n + j] == 0,
        float_bits::finite(calib::moments_after(h, x, n, rows)[j * n + k]),
    ensures
        calib::moments_after(h, x, n, rows)[k * n + j] == calib::moments_after(h, x, n, rows)[j * n
            + k],
        ({
            let (a, b) = (column(x, n, rows, j), column(x, n, rows, k));
            size(
                value(calib::moments_after(h, x, n, rows)[j * n + k]) - values::paired(a, b, rows),
            ) <= (4real * (rows as real) + 1real) * (grain() * values::paired_size(a, b, rows))
                + 2real * (rows as real * speck())
        }),
{
    quant::cell_position(j, k, n, n);
    quant::cell_position(k, j, n, n);
    lemma_moment(x, n, rows, j, k, rows);
    values::sums_of_products_are_close(
        products(x, n, rows, j, k),
        column(x, n, rows, j),
        column(x, n, rows, k),
        rows,
    );
}

/// The summed magnitude of a channel, gathered from nothing, is the sum over the rows of its
/// distances from zero.
pub proof fn magnitudes_are_summed(s: Seq<u32>, x: Seq<u32>, n: int, rows: nat, j: int)
    requires
        rows <= 0x80_0000,
        0 <= j < s.len(),
        s[j] == 0,
        float_bits::finite(calib::abs_sums_after(s, x, n, rows)[j]),
    ensures
        ({
            let a = values::total_size(column(x, n, rows, j), rows);
            size(value(calib::abs_sums_after(s, x, n, rows)[j]) - a) <= 2real * (rows as real) * (
            grain() * a)
        }),
{
    let m = magnitudes(x, n, rows, j);
    lemma_abs_sum(x, n, rows, j, rows);
    values::running_sums_are_close(m, rows);
    values::finite_sums_have_finite_parts(m, rows);
    lemma_sizes(m, column(x, n, rows, j), rows);
}

proof fn lemma_sizes(m: Seq<u32>, c: Seq<u32>, k: nat)
    requires
        forall|i: int| 0 <= i < k ==> #[trigger] m[i] == float_bits::magnitude(c[i]),
        forall|i: int| 0 <= i < k ==> float_bits::finite(#[trigger] m[i]),
    ensures
        values::total(m, k) == values::total_size(c, k),
        values::total_size(m, k) == values::total_size(c, k),
    decreases k,
{
    if k > 0 {
        lemma_sizes(m, c, (k - 1) as nat);
        assert(m[k - 1] == float_bits::magnitude(c[k - 1]));
        assert(float_bits::finite(m[k - 1]));
        values::value_has_the_sign(c[k - 1]);
    }
}

/// A mean over tokens, times their number, is the sum.
pub proof fn means_share_out(v: Seq<u32>, tokens: int, i: int)
    requires
        0 < tokens <= 0x100_0000,
        0 <= i < v.len(),
        float_bits::finite(calib::mean_of(v, tokens)[i]),
    ensures
        size(value(calib::mean_of(v, tokens)[i]) * (tokens as real) - value(v[i])) <= 4real * (
        grain() * size(value(v[i]))) + tokens as real * speck(),
{
    values::inverse_counts_share_out(v[i], tokens);
}

/// How far two signals are apart, place by place.
pub open spec fn gaps(x: Seq<u32>, y: Seq<u32>) -> Seq<real> {
    Seq::new(x.len(), |k: int| value(x[k]) - value(y[k]))
}

spec fn rounded_gaps(x: Seq<u32>, y: Seq<u32>) -> Seq<u32> {
    Seq::new(x.len(), |k: int| rounding::difference(x[k], y[k]))
}

spec fn squared_gaps(x: Seq<u32>, y: Seq<u32>) -> Seq<u32> {
    Seq::new(
        x.len(),
        |k: int|
            rounding::product(
                rounding::difference(x[k], y[k]),
                rounding::difference(x[k], y[k]),
            ),
    )
}

proof fn lemma_squared_error(x: Seq<u32>, y: Seq<u32>, k: nat)
    requires
        k <= x.len(),
    ensures
        quant::squared_error(x, y, k) == loss::running_sum(squared_gaps(x, y), k),
    decreases k,
{
    if k > 0 {
        lemma_squared_error(x, y, (k - 1) as nat);
    }
}

/// The summed squared error is the sum of the squared gaps.
pub proof fn squared_errors_are_summed(x: Seq<u32>, y: Seq<u32>)
    requires
        x.len() <= 0x80_0000,
        float_bits::finite(quant::squared_error(x, y, x.len())),
    ensures
        ({
            let (n, exact) = (x.len() as real, norm_laws::square_total(gaps(x, y), x.len()));
            size(value(quant::squared_error(x, y, x.len())) - exact) <= (4real * n + 4real) * (
            grain() * exact) + 2real * (n * speck())
        }),
{
    let n = x.len();
    let (sq, e, delta) = (squared_gaps(x, y), rounded_gaps(x, y), gaps(x, y));
    lemma_squared_error(x, y, n);
    values::finite_sums_have_finite_parts(sq, n);
    assert forall|i: int| 0 <= i < n implies size(value(#[trigger] e[i]) - delta[i]) <= grain()
        * size(delta[i]) by {
        assert(float_bits::finite(sq[i]));
        values::opposites_are_exact(y[i]);
        values::differences_are_close(x[i], y[i]);
    }
    norm_laws::sums_of_squares_are_close(e, sq, delta, n);
}

/// The reported root mean square error, squared and times the number of places, is the summed
/// squared error.
pub proof fn reported_errors_are_root_mean_squares(x: Seq<u32>, y: Seq<u32>)
    requires
        0 < x.len() <= 0x80_0000,
        quant::squared_error(x, y, x.len()) < INFINITY_BITS,
        float_bits::finite(
            rounding::quotient(
                quant::squared_error(x, y, x.len()),
                rounding::count_value(x.len() as int),
            ),
        ),
    ensures
        ({
            let (r, n) = (value(quant::error_of(x, y).rmse), x.len() as real);
            let s = value(quant::squared_error(x, y, x.len()));
            &&& r >= 0real
            &&& size(r * r * n - s) <= 8real * (grain() * s) + 8real * (n * speck())
        }),
{
    let n = x.len() as int;
    let (s, c) = (quant::squared_error(x, y, x.len()), rounding::count_value(n));
    let q = rounding::quotient(s, c);
    let r = roots::root(q);
    values::counts_are_exact(n);
    optim_laws::lemma_quotient_sign(s, c);
    values::roots_square_back(q);
    values::value_has_the_sign(r);
    values::value_has_the_sign(q);
    values::value_has_the_sign(s);
    values::quotients_multiply_back(s, c);
    values::specks_are_small();
    let (g, z, nr) = (grain(), speck(), n as real);
    let (vr, vq, vs) = (value(r), value(q), value(s));
    let f = vr * vr - vq;
    let qn = vq * nr;
    values::sizes_multiply(f, nr);
    assert((vr * vr - vq) * nr == vr * vr * nr - vq * nr) by (nonlinear_arith);
    values::factors_keep_order(size(f), 4real * (g * vq), nr);
    assert((4real * (g * vq)) * nr == 4real * (g * (vq * nr))) by (nonlinear_arith);
    let nz = nr * z;
    assert(z * nr == nr * z) by (nonlinear_arith);
    values::factors_keep_order(0real, nr, z);
    assert(0real * z == 0real) by (nonlinear_arith);
    let top = vs + g * vs + nz;
    values::factors_keep_order(qn, top, g);
    assert(g * (vs + g * vs + nz) == g * vs + g * (g * vs) + g * nz) by (nonlinear_arith);
    values::grains(vs);
    values::grains(g * vs);
    values::grains(nz);
}

} // verus!
