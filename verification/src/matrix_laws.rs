//! What products of matrices and the layers made of them are worth as real numbers.

use crate::float_bits;
use crate::layers;
use crate::layers::{LinearView, LoraView};
use crate::loss;
use crate::matrix;
use crate::quant;
use crate::roots;
use crate::rounding;
use crate::values;
use crate::values::{grain, size, speck, value};
use vstd::prelude::*;

verus! {

/// Row `t` of a matrix with `cols` columns.
pub open spec fn row(x: Seq<u32>, cols: int, t: int) -> Seq<u32> {
    Seq::new(cols as nat, |k: int| x[t * cols + k])
}

/// Column `c` of a matrix with `rows` rows and `cols` columns.
pub open spec fn column(x: Seq<u32>, rows: int, cols: int, c: int) -> Seq<u32> {
    Seq::new(rows as nat, |k: int| x[k * cols + c])
}

/// The exact product of two vectors of `n` elements.
pub open spec fn dot(a: Seq<u32>, b: Seq<u32>, n: int) -> real {
    values::paired(a, b, n as nat)
}

/// How large the products are that a product of two vectors adds up.
pub open spec fn dot_size(a: Seq<u32>, b: Seq<u32>, n: int) -> real {
    values::paired_size(a, b, n as nat)
}

/// What a computed product of vectors of `n` elements may be off by.
pub open spec fn dot_slack(a: Seq<u32>, b: Seq<u32>, n: int) -> real {
    (4real * (n as real) + 1real) * (grain() * dot_size(a, b, n)) + 2real * (n as real * speck())
}

spec fn products(x: Seq<u32>, m: Seq<u32>, inner: int, cols: int, t: int, c: int) -> Seq<u32> {
    Seq::new(inner as nat, |k: int| rounding::product(x[t * inner + k], m[k * cols + c]))
}

proof fn lemma_dot(x: Seq<u32>, m: Seq<u32>, inner: int, cols: int, t: int, c: int, k: nat)
    requires
        k <= inner,
    ensures
        matrix::dot_at(x, m, inner, cols, t, c, k) == loss::running_sum(
            products(x, m, inner, cols, t, c),
            k,
        ),
    decreases k,
{
    if k > 0 {
        lemma_dot(x, m, inner, cols, t, c, (k - 1) as nat);
    }
}

/// A cell of a product of matrices is the product of its row of the first and its column of the
/// second.
pub proof fn cells_are_rows_times_columns(
    x: Seq<u32>,
    m: Seq<u32>,
    rows: int,
    inner: int,
    cols: int,
    t: int,
    c: int,
)
    requires
        0 <= inner <= 0x80_0000,
        0 <= t < rows,
        0 <= c < cols,
        float_bits::finite(matrix::product_of(x, m, rows, inner, cols)[t * cols + c]),
    ensures
        size(
            value(matrix::product_of(x, m, rows, inner, cols)[t * cols + c]) - dot(
                row(x, inner, t),
                column(m, inner, cols, c),
                inner,
            ),
        ) <= dot_slack(row(x, inner, t), column(m, inner, cols, c), inner),
        dot_size(row(x, inner, t), column(m, inner, cols, c), inner) >= 0real,
        size(dot(row(x, inner, t), column(m, inner, cols, c), inner)) <= dot_size(
            row(x, inner, t),
            column(m, inner, cols, c),
            inner,
        ),
{
    quant::cell_position(t, c, rows, cols);
    let (a, b) = (row(x, inner, t), column(m, inner, cols, c));
    lemma_dot(x, m, inner, cols, t, c, inner as nat);
    values::sums_of_products_are_close(products(x, m, inner, cols, t, c), a, b, inner as nat);
}

/// Transposing swaps the places of rows and columns.
pub proof fn transposing_swaps_places(x: Seq<u32>, rows: int, cols: int, r: int, c: int)
    requires
        0 <= r < rows,
        0 <= c < cols,
    ensures
        matrix::transposed(x, rows, cols)[c * rows + r] == x[r * cols + c],
{
    quant::cell_position(c, r, cols, rows);
}

/// The column of a transpose is the row of the matrix.
proof fn lemma_transposed_column(x: Seq<u32>, rows: int, cols: int, r: int)
    requires
        0 <= r < rows,
        0 <= cols,
    ensures
        column(matrix::transposed(x, rows, cols), cols, rows, r) == row(x, cols, r),
{
    assert forall|k: int| 0 <= k < cols implies column(
        matrix::transposed(x, rows, cols),
        cols,
        rows,
        r,
    )[k] == row(x, cols, r)[k] by {
        transposing_swaps_places(x, rows, cols, r, k);
    }
    assert(column(matrix::transposed(x, rows, cols), cols, rows, r) =~= row(x, cols, r));
}

/// The row of a transpose is the column of the matrix.
proof fn lemma_transposed_row(x: Seq<u32>, rows: int, cols: int, c: int)
    requires
        0 <= c < cols,
        0 <= rows,
    ensures
        row(matrix::transposed(x, rows, cols), rows, c) == column(x, rows, cols, c),
{
    assert forall|k: int| 0 <= k < rows implies row(
        matrix::transposed(x, rows, cols),
        rows,
        c,
    )[k] == column(x, rows, cols, c)[k] by {
        transposing_swaps_places(x, rows, cols, k, c);
    }
    assert(row(matrix::transposed(x, rows, cols), rows, c) =~= column(x, rows, cols, c));
}

/// A plain linear layer answers every row with its product with every column of the weight, and
/// adds the column's own bias.
pub proof fn layers_multiply_and_shift(l: LinearView, x: Seq<u32>, n: int, t: int, c: int)
    requires
        l.quant is None,
        l.lora is None,
        l.inputs() <= 0x80_0000,
        0 <= t < n,
        0 <= c < l.outputs(),
        float_bits::finite(l.output(x, n)[t * l.outputs() + c]),
    ensures
        ({
            let (i, o) = (l.inputs() as int, l.outputs() as int);
            let (a, w) = (row(x, i, t), column(l.weight.data, i, o, c));
            let bias = value(l.bias.data[c]);
            size(value(l.output(x, n)[t * o + c]) - (dot(a, w, i) + bias)) <= 2real * dot_slack(
                a,
                w,
                i,
            ) + grain() * (size(dot(a, w, i)) + size(bias))
        }),
{
    let (i, o) = (l.inputs() as int, l.outputs() as int);
    quant::cell_position(t, c, n, o);
    let base = l.base(x, n)[t * o + c];
    let (a, w) = (row(x, i, t), column(l.weight.data, i, o, c));
    cells_are_rows_times_columns(x, l.weight.data, n, i, o, t, c);
    values::sums_of_near_numbers(
        base,
        l.bias.data[c],
        dot(a, w, i),
        value(l.bias.data[c]),
        dot_slack(a, w, i),
        0real,
    );
}

/// The answer of an adapter is its factor times a product through the narrow middle: `down` holds
/// the products of the row with the rows of the first matrix, and the cell is their product with
/// the row of the second.
pub proof fn adapters_go_through_the_middle(
    l: LoraView,
    x: Seq<u32>,
    n: int,
    inputs: int,
    outputs: int,
    t: int,
    c: int,
)
    requires
        1 <= l.rank <= 0x80_0000,
        0 <= inputs <= 0x80_0000,
        0 <= t < n,
        0 <= c < outputs,
        float_bits::finite(l.increment(x, n, inputs, outputs)[t * outputs + c]),
    ensures
        exists|down: Seq<u32>, wide: real| #[trigger]
            passes_through(
                l,
                x,
                inputs,
                t,
                c,
                down,
                wide,
                value(l.increment(x, n, inputs, outputs)[t * outputs + c]),
            ),
{
    let r = l.rank as int;
    let (at, bt) = (
        matrix::transposed(l.a.data, r, inputs),
        matrix::transposed(l.b.data, outputs, r),
    );
    let middle = matrix::product_of(x, at, n, inputs, r);
    let wide = matrix::product_of(middle, bt, n, r, outputs);
    quant::cell_position(t, c, n, outputs);
    let w = wide[t * outputs + c];
    values::products_are_close(w, l.factor());
    cells_are_rows_times_columns(middle, bt, n, r, outputs, t, c);
    lemma_transposed_column(l.b.data, outputs, r, c);
    let down = row(middle, r, t);
    lemma_dot(middle, bt, r, outputs, t, c, r as nat);
    values::finite_sums_have_finite_parts(products(middle, bt, r, outputs, t, c), r as nat);
    assert forall|k: int| 0 <= k < r implies size(
        value(#[trigger] down[k]) - dot(row(x, inputs, t), row(l.a.data, inputs, k), inputs),
    ) <= dot_slack(row(x, inputs, t), row(l.a.data, inputs, k), inputs) by {
        quant::cell_position(t, k, n, r);
        assert(float_bits::finite(products(middle, bt, r, outputs, t, c)[k]));
        assert(down[k] == middle[t * r + k]);
        cells_are_rows_times_columns(x, at, n, inputs, r, t, k);
        lemma_transposed_column(l.a.data, r, inputs, k);
    }
    values::sizes_multiply(value(w), value(l.factor()));
    assert(passes_through(
        l,
        x,
        inputs,
        t,
        c,
        down,
        value(w),
        value(l.increment(x, n, inputs, outputs)[t * outputs + c]),
    ));
}

/// What an adapter does to row `t` for output `c`, with the middle `down` and the product `wide`
/// before the factor.
pub open spec fn passes_through(
    l: LoraView,
    x: Seq<u32>,
    inputs: int,
    t: int,
    c: int,
    down: Seq<u32>,
    wide: real,
    y: real,
) -> bool {
    let r = l.rank as int;
    &&& down.len() == r
    &&& forall|k: int|
        0 <= k < r ==> size(
            value(#[trigger] down[k]) - dot(row(x, inputs, t), row(l.a.data, inputs, k), inputs),
        ) <= dot_slack(row(x, inputs, t), row(l.a.data, inputs, k), inputs)
    &&& size(wide - dot(down, row(l.b.data, r, c), r)) <= dot_slack(down, row(l.b.data, r, c), r)
    &&& size(y - wide * value(l.factor())) <= grain() * size(wide * value(l.factor())) + speck()
}

/// The factor of an adapter, times its rank, is its strength.
pub proof fn factors_share_out_the_strength(l: LoraView)
    requires
        1 <= l.rank <= 0x100_0000,
        float_bits::finite(l.factor()),
        float_bits::finite(l.alpha),
    ensures
        size(value(l.factor()) * (l.rank as real) - value(l.alpha)) <= grain() * size(
            value(l.alpha),
        ) + speck() * (l.rank as real),
{
    values::counts_are_exact(l.rank as int);
    values::quotients_multiply_back(l.alpha, rounding::count_value(l.rank as int));
}

/// What merging adds to weight `(i, o)` is the factor times the product of column `i` of the first
/// matrix and row `o` of the second.
pub proof fn merged_weights_hold_the_adapter(
    l: LoraView,
    inputs: int,
    outputs: int,
    i: int,
    o: int,
)
    requires
        1 <= l.rank <= 0x80_0000,
        0 <= i < inputs,
        0 <= o < outputs,
        float_bits::finite(l.delta(inputs, outputs)[i * outputs + o]),
    ensures
        ({
            let r = l.rank as int;
            let (a, b) = (column(l.a.data, r, inputs, i), row(l.b.data, r, o));
            let f = value(l.factor());
            size(value(l.delta(inputs, outputs)[i * outputs + o]) - dot(a, b, r) * f) <= 2real * (
            dot_slack(a, b, r) * size(f)) + grain() * size(dot(a, b, r) * f) + speck()
        }),
{
    let r = l.rank as int;
    let (at, bt) = (
        matrix::transposed(l.a.data, r, inputs),
        matrix::transposed(l.b.data, outputs, r),
    );
    let wide = matrix::product_of(at, bt, inputs, r, outputs);
    quant::cell_position(i, o, inputs, outputs);
    let w = wide[i * outputs + o];
    values::products_are_close(w, l.factor());
    cells_are_rows_times_columns(at, bt, inputs, r, outputs, i, o);
    lemma_transposed_row(l.a.data, r, inputs, i);
    lemma_transposed_column(l.b.data, outputs, r, o);
    let (a, b) = (column(l.a.data, r, inputs, i), row(l.b.data, r, o));
    values::products_of_near_numbers(w, l.factor(), dot(a, b, r), dot_slack(a, b, r));
}

/// A layer with an adapter answers with what it answers without it, plus the adapter's answer.
pub proof fn adapters_are_added(l: LinearView, x: Seq<u32>, n: int, t: int, c: int)
    requires
        l.lora is Some,
        0 <= t < n,
        0 <= c < l.outputs(),
        float_bits::finite(l.output(x, n)[t * l.outputs() + c]),
    ensures
        ({
            let p = t * l.outputs() + c;
            let bare = value((LinearView { lora: None, ..l }).output(x, n)[p]);
            let more = value(
                l.lora->0.increment(x, n, l.inputs() as int, l.outputs() as int)[p],
            );
            size(value(l.output(x, n)[p]) - (bare + more)) <= grain() * size(bare + more)
        }),
{
    quant::cell_position(t, c, n, l.outputs() as int);
    let p = t * l.outputs() + c;
    values::sums_are_close(
        l.backbone(x, n)[p],
        l.lora->0.increment(x, n, l.inputs() as int, l.outputs() as int)[p],
    );
}

/// The spread of fresh weights, squared and times the sum of both widths, is two.
pub proof fn fresh_weights_have_the_right_spread(draws: Seq<u32>, inputs: int, outputs: int, p: int)
    requires
        0 < inputs + outputs <= 0x100_0000,
        0 <= p < draws.len(),
        float_bits::finite(layers::xavier(draws, inputs, outputs)[p]),
    ensures
        exists|spread: real| #[trigger]
            spreads_by(
                value(draws[p]),
                value(layers::xavier(draws, inputs, outputs)[p]),
                inputs + outputs,
                spread,
            ),
{
    let n = inputs + outputs;
    let c = rounding::count_value(n);
    let q = rounding::quotient(layers::TWO_BITS, c);
    let r = roots::root(q);
    values::counts_are_exact(n);
    values::products_are_close(draws[p], r);
    crate::optim_laws::lemma_quotient_sign(layers::TWO_BITS, c);
    assert(float_bits::finite(q));
    values::roots_square_back(q);
    values::value_has_the_sign(r);
    values::value_has_the_sign(q);
    values::two_has_value_two();
    values::quotients_multiply_back(layers::TWO_BITS, c);
    values::specks_are_small();
    values::grains(2real);
    let (g, s, nr, v, w) = (grain(), speck(), n as real, value(r), value(q));
    let sn = s * nr;
    assert(sn <= g) by (nonlinear_arith)
        requires
            sn == s * nr,
            0real < nr <= 16777216real,
            1073741824real * s <= g,
            s > 0real,
    ;
    let f = v * v - w;
    let wn = w * nr;
    values::sizes_multiply(f, nr);
    assert(f * nr == v * v * nr - wn) by (nonlinear_arith)
        requires
            f == v * v - w,
            wn == w * nr,
    ;
    assert(size(f) * nr <= 4real * (g * wn)) by (nonlinear_arith)
        requires
            size(f) <= 4real * (g * w),
            wn == w * nr,
            nr > 0real,
    ;
    assert(g * wn <= 3real * g) by (nonlinear_arith)
        requires
            wn <= 3real,
            g > 0real,
    ;
    assert(spreads_by(value(draws[p]), value(layers::xavier(draws, inputs, outputs)[p]), n, v));
}

/// Whether a weight is its draw times a spread whose square, times `n`, is two.
pub open spec fn spreads_by(draw: real, weight: real, n: int, spread: real) -> bool {
    &&& spread >= 0real
    &&& size(spread * spread * (n as real) - 2real) <= 16real * grain()
    &&& size(weight - draw * spread) <= grain() * size(draw * spread) + speck()
}

} // verus!
