//! What goes where in matrices, and what scaling and capacities are worth.

use crate::awq;
use crate::float_bits;
use crate::float_bits::INFINITY_BITS;
use crate::matrix;
use crate::moe;
use crate::quant;
use crate::rounding;
use crate::values;
use crate::values::{grain, size, speck, value};
use vstd::prelude::*;

verus! {

/// A row that is picked is the row of that number.
pub proof fn picked_rows_are_rows(x: Seq<u32>, cols: int, ids: Seq<usize>, t: int, c: int)
    requires
        0 <= t < ids.len(),
        0 <= c < cols,
    ensures
        matrix::picked(x, cols, ids)[t * cols + c] == x[ids[t] * cols + c],
{
    quant::cell_position(t, c, ids.len() as int, cols);
}

/// Folding scales into the weights multiplies every row by its own scale.
pub proof fn folding_scales_rows(w: Seq<u32>, rows: int, cols: int, s: Seq<u32>, r: int, c: int)
    requires
        w.len() == rows * cols,
        0 <= r < rows,
        0 <= c < cols,
        float_bits::finite(awq::folded(w, cols, s)[r * cols + c]),
    ensures
        values::close(
            awq::folded(w, cols, s)[r * cols + c],
            value(w[r * cols + c]) * value(s[r]),
        ),
{
    quant::cell_position(r, c, rows, cols);
    values::products_are_close(w[r * cols + c], s[r]);
}

/// What folding multiplied a row of the weights by, the input's column is divided by: the column
/// times its scale is the input again.
pub proof fn inputs_are_scaled_against_the_weights(
    x: Seq<u32>,
    rows: int,
    cols: int,
    s: Seq<u32>,
    t: int,
    c: int,
)
    requires
        x.len() == rows * cols,
        0 <= t < rows,
        0 <= c < cols,
        float_bits::finite(x[t * cols + c]),
        0 < s[c] < INFINITY_BITS,
        float_bits::finite(awq::unfolded_input(x, cols, s)[t * cols + c]),
    ensures
        size(
            value(awq::unfolded_input(x, cols, s)[t * cols + c]) * value(s[c]) - value(
                x[t * cols + c],
            ),
        ) <= grain() * size(value(x[t * cols + c])) + speck() * value(s[c]),
{
    quant::cell_position(t, c, rows, cols);
    values::value_has_the_sign(s[c]);
    values::quotients_multiply_back(x[t * cols + c], s[c]);
}

/// Unfolding divides every row of the weights by its own scale.
pub proof fn unfolding_undoes_the_scale(
    w: Seq<u32>,
    rows: int,
    cols: int,
    s: Seq<u32>,
    r: int,
    c: int,
)
    requires
        w.len() == rows * cols,
        0 <= r < rows,
        0 <= c < cols,
        float_bits::finite(w[r * cols + c]),
        0 < s[r] < INFINITY_BITS,
        float_bits::finite(awq::unfolded(w, cols, s)[r * cols + c]),
    ensures
        size(
            value(awq::unfolded(w, cols, s)[r * cols + c]) * value(s[r]) - value(w[r * cols + c]),
        ) <= grain() * size(value(w[r * cols + c])) + speck() * value(s[r]),
{
    quant::cell_position(r, c, rows, cols);
    values::value_has_the_sign(s[r]);
    values::quotients_multiply_back(w[r * cols + c], s[r]);
}

/// The load that experts share: the mean, times the number of experts, is the number of
/// assignments. The capacity is the first count that is no smaller than the factor times the mean,
/// and never below one.
pub proof fn capacities_follow_the_mean_load(n: int, n_expert: int, k: int, factor: u32)
    requires
        0 < n * k <= 0x100_0000,
        0 < n_expert <= 0x100_0000,
        0 < factor < INFINITY_BITS,
        float_bits::finite(
            rounding::quotient(rounding::count_value(n * k), rounding::count_value(n_expert)),
        ),
        moe::capacity_of(n, n_expert, k, factor) < usize::MAX,
    ensures
        moe::capacity_of(n, n_expert, k, factor) >= 1,
        exists|mean: real, load: real| #[trigger]
            holds_the_load(
                mean,
                load,
                n * k,
                n_expert,
                value(factor),
                moe::capacity_of(n, n_expert, k, factor),
            ),
{
    let (a, b) = (rounding::count_value(n * k), rounding::count_value(n_expert));
    let avg = rounding::quotient(a, b);
    let p = rounding::product(factor, avg);
    values::counts_are_exact(n * k);
    values::counts_are_exact(n_expert);
    values::quotients_multiply_back(a, b);
    crate::optim_laws::lemma_quotient_sign(a, b);
    let c = moe::capacity_of(n, n_expert, k, factor);
    assert(!float_bits::negative(p) && !float_bits::nan(p)) by {
        let (u, v) = (float_bits::units(factor), float_bits::units(avg));
        rounding::units_follow_magnitudes(factor, factor);
        rounding::units_follow_magnitudes(avg, avg);
        vstd::arithmetic::power2::lemma_pow2_pos(149);
        assert(u * v >= 0) by (nonlinear_arith)
            requires
                u >= 0,
                v >= 0,
        ;
        rounding::nearest_is_not_negative(u * v, float_bits::one());
    }
    assert(float_bits::finite(p));
    values::products_are_close(factor, avg);
    lemma_ceiling(p);
    assert(holds_the_load(value(avg), value(p), n * k, n_expert, value(factor), c));
}

/// Whether a capacity holds a load of the factor times the mean, which times the experts is the
/// number of assignments.
pub open spec fn holds_the_load(
    mean: real,
    load: real,
    assignments: int,
    n_expert: int,
    factor: real,
    capacity: int,
) -> bool {
    &&& size(mean * (n_expert as real) - assignments as real) <= grain() * (assignments as real)
        + speck() * (n_expert as real)
    &&& size(load - factor * mean) <= grain() * size(factor * mean) + speck()
    &&& load <= capacity as real
    &&& capacity == 1 || load > (capacity - 1) as real
}

proof fn lemma_ceiling(x: u32)
    requires
        x < INFINITY_BITS,
        moe::ceiling(x) < usize::MAX,
    ensures
        value(x) <= moe::ceiling(x) as real,
        value(x) > (moe::ceiling(x) - 1) as real,
{
    let (u, o) = (float_bits::units(x), float_bits::one());
    let c = moe::ceiling(x);
    values::value_has_the_sign(x);
    values::value_in_units(x);
    vstd::arithmetic::div_mod::lemma_fundamental_div_mod(u + o - 1, o);
    vstd::arithmetic::div_mod::lemma_mod_bound(u + o - 1, o);
    let (v, q) = (value(x), o as real);
    let m = o * c;
    assert(u <= m < u + o);
    assert((o * c) as real == c as real * q) by (nonlinear_arith)
        requires
            q == o as real,
    ;
    values::common_factors_cancel(v, c as real, q);
    if v <= (c - 1) as real {
        values::factors_keep_order(v, (c - 1) as real, q);
        assert((c as real - 1real) * q == c as real * q - q) by (nonlinear_arith);
        assert((c - 1) as real == c as real - 1real);
    }
}

} // verus!
