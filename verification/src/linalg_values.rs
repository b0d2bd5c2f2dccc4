//! What factors and inverses are worth as real numbers.

use crate::comp_values;
use crate::float_bits;
use crate::float_bits::{INFINITY_BITS, ONE_BITS};
use crate::linalg;
use crate::roots;
use crate::rounding;
use crate::values;
use crate::values::{grain, size, speck, value};
use vstd::prelude::*;

verus! {

/// The exact sum of `l[i][k] * m[j][k]` for `k` from `from` below `to`.
pub open spec fn rows_product(
    l: Seq<u32>,
    m: Seq<u32>,
    n: int,
    i: int,
    j: int,
    from: int,
    to: int,
) -> real
    decreases to - from,
{
    if to <= from {
        0real
    } else {
        rows_product(l, m, n, i, j, from, to - 1) + value(l[i * n + (to - 1)]) * value(
            m[j * n + (to - 1)],
        )
    }
}

/// How large the parts of such a sum are.
pub open spec fn rows_size(
    l: Seq<u32>,
    m: Seq<u32>,
    n: int,
    i: int,
    j: int,
    from: int,
    to: int,
) -> real
    decreases to - from,
{
    if to <= from {
        0real
    } else {
        rows_size(l, m, n, i, j, from, to - 1) + size(
            value(l[i * n + (to - 1)]) * value(m[j * n + (to - 1)]),
        )
    }
}

/// What `steps` steps on parts of this size may be off by.
pub open spec fn slack(steps: int, parts: real) -> real {
    4real * (steps as real * (grain() * parts + speck()))
}

#[verifier::spinoff_prover]
proof fn lemma_reduced(a: Seq<u32>, l: Seq<u32>, n: int, i: int, j: int, depth: nat)
    requires
        depth <= 0x10_0000,
        float_bits::finite(linalg::reduced(a, l, n, i, j, depth)),
    ensures
        float_bits::finite(a[i * n + j]),
        size(
            value(linalg::reduced(a, l, n, i, j, depth)) - (value(a[i * n + j]) - rows_product(
                l,
                l,
                n,
                i,
                j,
                0,
                depth as int,
            )),
        ) <= slack(
            depth as int,
            size(value(a[i * n + j])) + rows_size(l, l, n, i, j, 0, depth as int),
        ),
        size(rows_product(l, l, n, i, j, 0, depth as int)) <= rows_size(
            l,
            l,
            n,
            i,
            j,
            0,
            depth as int,
        ),
    decreases depth,
{
    let (g, s) = (grain(), speck());
    let v = value(a[i * n + j]);
    if depth == 0 {
        assert(4real * (0real * (g * (size(v) + 0real) + s)) == 0real) by (nonlinear_arith);
    } else {
        let d = (depth - 1) as nat;
        lemma_reduced(a, l, n, i, j, d);
        let part = rows_product(l, l, n, i, j, 0, d as int);
        let b = size(v) + rows_size(l, l, n, i, j, 0, d as int);
        assert(depth as real == d as real + 1real);
        comp_values::lemma_taken_away(
            linalg::reduced(a, l, n, i, j, d),
            l[i * n + d],
            l[j * n + d],
            v - part,
            b,
            d as real,
        );
    }
}

/// The factor gives the matrix back below the diagonal: the product of two of its rows is the cell
/// of the matrix.
pub proof fn factors_multiply_back(a: Seq<u32>, l: Seq<u32>, n: int, i: int, j: int)
    requires
        linalg::is_factor(a, l, n),
        n <= 0x10_0000,
        0 <= j < i < n,
        0 < l[j * n + j] < INFINITY_BITS,
        float_bits::finite(l[i * n + j]),
    ensures
        ({
            let exact = value(a[i * n + j]) - rows_product(l, l, n, i, j, 0, j);
            let parts = size(value(a[i * n + j])) + rows_size(l, l, n, i, j, 0, j);
            size(value(l[i * n + j]) * value(l[j * n + j]) - exact) <= 2real * slack(j, parts)
                + grain() * size(exact) + speck() * value(l[j * n + j])
        }),
{
    assert(linalg::factor_cell(a, l, n, i, j));
    let r = linalg::reduced(a, l, n, i, j, j as nat);
    let d = l[j * n + j];
    assert(l[i * n + j] == rounding::quotient(r, d));
    lemma_reduced(a, l, n, i, j, j as nat);
    values::value_has_the_sign(d);
    values::quotients_multiply_back(r, d);
    let exact = value(a[i * n + j]) - rows_product(l, l, n, i, j, 0, j);
    let t = slack(j, size(value(a[i * n + j])) + rows_size(l, l, n, i, j, 0, j));
    let g = grain();
    values::grains(t);
    values::factors_keep_order(size(value(r)), size(exact) + t, g);
    assert(g * (size(exact) + t) == g * size(exact) + g * t) by (nonlinear_arith);
}

/// On the diagonal the product of a row of the factor with itself is the cell of the matrix.
pub proof fn pivots_square_back(a: Seq<u32>, l: Seq<u32>, n: int, j: int)
    requires
        linalg::is_factor(a, l, n),
        n <= 0x10_0000,
        0 <= j < n,
        float_bits::finite(linalg::pivot(a, l, n, j)),
    ensures
        ({
            let exact = value(a[j * n + j]) - rows_product(l, l, n, j, j, 0, j);
            let parts = size(value(a[j * n + j])) + rows_size(l, l, n, j, j, 0, j);
            &&& value(l[j * n + j]) >= 0real
            &&& size(value(l[j * n + j]) * value(l[j * n + j]) - exact) <= 2real * slack(j, parts)
                + 4real * (grain() * size(exact))
        }),
{
    assert(linalg::factor_cell(a, l, n, j, j));
    let r = linalg::pivot(a, l, n, j);
    assert(l[j * n + j] == roots::root(r));
    lemma_reduced(a, l, n, j, j, j as nat);
    values::value_has_the_sign(r);
    values::roots_square_back(r);
    values::value_has_the_sign(roots::root(r));
    let exact = value(a[j * n + j]) - rows_product(l, l, n, j, j, 0, j);
    let t = slack(j, size(value(a[j * n + j])) + rows_size(l, l, n, j, j, 0, j));
    let g = grain();
    values::grains(t);
    values::factors_keep_order(value(r), size(exact) + t, g);
    assert(g * (size(exact) + t) == g * size(exact) + g * t) by (nonlinear_arith);
}

/// The exact sum of `l[i][k] * y[k][j]` for `k` from `from` below `to`.
pub open spec fn row_by_column(
    l: Seq<u32>,
    y: Seq<u32>,
    n: int,
    i: int,
    j: int,
    from: int,
    to: int,
) -> real
    decreases to - from,
{
    if to <= from {
        0real
    } else {
        row_by_column(l, y, n, i, j, from, to - 1) + value(l[i * n + (to - 1)]) * value(
            y[(to - 1) * n + j],
        )
    }
}

/// How large the parts of such a sum are.
pub open spec fn row_by_column_size(
    l: Seq<u32>,
    y: Seq<u32>,
    n: int,
    i: int,
    j: int,
    from: int,
    to: int,
) -> real
    decreases to - from,
{
    if to <= from {
        0real
    } else {
        row_by_column_size(l, y, n, i, j, from, to - 1) + size(
            value(l[i * n + (to - 1)]) * value(y[(to - 1) * n + j]),
        )
    }
}

/// A number that stands for `exact` and gets one more product.
pub proof fn lemma_put_on(p: u32, e: u32, f: u32, exact: real, a: real, j: real)
    requires
        float_bits::finite(rounding::sum(p, rounding::product(e, f))),
        0real <= j <= 4194304real,
        size(exact) <= a,
        size(value(p) - exact) <= 4real * (j * (grain() * a + speck())),
    ensures
        float_bits::finite(p),
        size(value(rounding::sum(p, rounding::product(e, f))) - (exact + value(e) * value(f)))
            <= 4real * ((j + 1real) * (grain() * (a + size(value(e) * value(f))) + speck())),
{
    let (g, s) = (grain(), speck());
    let q = rounding::product(e, f);
    values::specks_are_small();
    values::products_are_close(e, f);
    values::sums_are_close(p, q);
    let t = 4real * (j * (g * a + s));
    let b = size(value(e) * value(f));
    values::grains(a);
    values::grains(b);
    comp_values::lemma_one_more(t, a, b, j, 4real);
    comp_values::lemma_error_is_small(t, a, j, 4real);
    let y = size(value(p) + value(q));
    let top = a + t + b + g * b + s;
    assert(y <= top);
    values::factors_keep_order(y, top, g);
    assert(g * (a + t + b + g * b + s) == g * a + g * t + g * b + g * (g * b) + g * s)
        by (nonlinear_arith);
    values::grains(g * b);
    values::grains(s);
}

#[verifier::spinoff_prover]
proof fn lemma_column_dot(l: Seq<u32>, y: Seq<u32>, n: int, i: int, j: int, end: int)
    requires
        0 <= j <= end <= 0x10_0000,
        float_bits::finite(linalg::column_dot(l, y, n, i, j, end)),
    ensures
        size(
            value(linalg::column_dot(l, y, n, i, j, end)) - row_by_column(l, y, n, i, j, j, end),
        ) <= slack(end - j, row_by_column_size(l, y, n, i, j, j, end)),
        size(row_by_column(l, y, n, i, j, j, end)) <= row_by_column_size(l, y, n, i, j, j, end),
    decreases end - j,
{
    let (g, s) = (grain(), speck());
    if end <= j {
        values::one_has_value_one();
        assert(4real * (0real * (g * 0real + s)) == 0real) by (nonlinear_arith);
    } else {
        lemma_column_dot(l, y, n, i, j, end - 1);
        assert((end - j) as real == (end - 1 - j) as real + 1real);
        lemma_put_on(
            linalg::column_dot(l, y, n, i, j, end - 1),
            l[i * n + (end - 1)],
            y[(end - 1) * n + j],
            row_by_column(l, y, n, i, j, j, end - 1),
            row_by_column_size(l, y, n, i, j, j, end - 1),
            (end - 1 - j) as real,
        );
    }
}

/// The inverse of a factor, multiplied by the factor, is one on the diagonal and zero below it.
pub proof fn lower_inverses_invert(l: Seq<u32>, y: Seq<u32>, n: int, i: int, j: int)
    requires
        linalg::is_lower_inverse(l, y, n),
        n <= 0x10_0000,
        0 <= j <= i < n,
        0 < l[i * n + i] < INFINITY_BITS,
        0 < l[j * n + j] < INFINITY_BITS,
        float_bits::finite(y[i * n + j]),
    ensures
        ({
            let own = value(y[i * n + j]) * value(l[i * n + i]);
            let (sum, parts) = (
                row_by_column(l, y, n, i, j, j, i),
                row_by_column_size(l, y, n, i, j, j, i),
            );
            if i == j {
                size(own - 1real) <= grain() + speck() * value(l[i * n + i])
            } else {
                size(sum + own) <= 2real * slack(i - j, parts) + grain() * size(sum) + speck()
                    * value(l[i * n + i])
            }
        }),
{
    assert(linalg::inverse_cell(l, y, n, i, j));
    let d = l[i * n + i];
    values::value_has_the_sign(d);
    let g = grain();
    values::one_has_value_one();
    values::grains(1real);
    if i == j {
        values::quotients_multiply_back(ONE_BITS, d);
        assert(g * 1real == g) by (nonlinear_arith);
    } else {
        let c = linalg::column_dot(l, y, n, i, j, i);
        let o = rounding::opposite(c);
        values::opposites_are_exact(c);
        assert(y[i * n + j] == rounding::quotient(o, d));
        lemma_column_dot(l, y, n, i, j, i);
        values::quotients_multiply_back(o, d);
        let sum = row_by_column(l, y, n, i, j, j, i);
        let t = slack(i - j, row_by_column_size(l, y, n, i, j, j, i));
        values::grains(t);
        values::factors_keep_order(size(value(c)), size(sum) + t, g);
        assert(g * (size(sum) + t) == g * size(sum) + g * t) by (nonlinear_arith);
    }
}

/// The exact sum of `y[m][i] * y[m][k]` for `m` from `from` below `to`.
pub open spec fn columns_product(y: Seq<u32>, n: int, i: int, k: int, from: int, to: int) -> real
    decreases to - from,
{
    if to <= from {
        0real
    } else {
        columns_product(y, n, i, k, from, to - 1) + value(y[(to - 1) * n + i]) * value(
            y[(to - 1) * n + k],
        )
    }
}

/// How large the parts of such a sum are.
pub open spec fn columns_size(y: Seq<u32>, n: int, i: int, k: int, from: int, to: int) -> real
    decreases to - from,
{
    if to <= from {
        0real
    } else {
        columns_size(y, n, i, k, from, to - 1) + size(
            value(y[(to - 1) * n + i]) * value(y[(to - 1) * n + k]),
        )
    }
}

#[verifier::spinoff_prover]
proof fn lemma_gram_dot(y: Seq<u32>, n: int, i: int, k: int, end: int)
    requires
        0 <= k <= end <= 0x10_0000,
        float_bits::finite(linalg::gram_dot(y, n, i, k, end)),
    ensures
        size(value(linalg::gram_dot(y, n, i, k, end)) - columns_product(y, n, i, k, k, end))
            <= slack(end - k, columns_size(y, n, i, k, k, end)),
        size(columns_product(y, n, i, k, k, end)) <= columns_size(y, n, i, k, k, end),
    decreases end - k,
{
    let (g, s) = (grain(), speck());
    if end <= k {
        values::one_has_value_one();
        assert(4real * (0real * (g * 0real + s)) == 0real) by (nonlinear_arith);
    } else {
        lemma_gram_dot(y, n, i, k, end - 1);
        assert((end - k) as real == (end - 1 - k) as real + 1real);
        lemma_put_on(
            linalg::gram_dot(y, n, i, k, end - 1),
            y[(end - 1) * n + i],
            y[(end - 1) * n + k],
            columns_product(y, n, i, k, k, end - 1),
            columns_size(y, n, i, k, k, end - 1),
            (end - 1 - k) as real,
        );
    }
}

/// The inverse is the product of the columns of the inverse factor, the same on both sides of the
/// diagonal; above row `k` the factor holds nothing.
pub proof fn inverses_are_products_of_columns(y: Seq<u32>, inv: Seq<u32>, n: int, i: int, k: int)
    requires
        linalg::is_gram(y, inv, n),
        n <= 0x10_0000,
        0 <= i <= k < n,
        float_bits::finite(inv[i * n + k]),
    ensures
        inv[k * n + i] == inv[i * n + k],
        size(value(inv[i * n + k]) - columns_product(y, n, i, k, k, n)) <= slack(
            n - k,
            columns_size(y, n, i, k, k, n),
        ),
{
    assert(linalg::gram_cell(y, inv, n, i, k));
    lemma_gram_dot(y, n, i, k, n);
}

} // verus!
