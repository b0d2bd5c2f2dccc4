//! Quantisation of weights whose input channels are scaled by their activity first.

use crate::awq_scaling;
use crate::codes::QBits;
use crate::float_bits;
use crate::float_bits::ONE_BITS;
use crate::gptq;
use crate::gptq_laws;
use crate::matrix;
use crate::params;
use crate::qmatrix::QMatrix;
use crate::quant;
use crate::quant::QAxis;
use crate::quant_laws;
use crate::rounding;
use vstd::arithmetic::power2::*;
use vstd::prelude::*;

verus! {

/// The bit pattern of `0.5`, the default scaling exponent.
pub const AWQ_ALPHA: u32 = 0x3f00_0000;

/// Channels that share one normalisation by default.
pub const AWQ_GROUP_SIZE: usize = 128;

/// The bit pattern of `0.05`, the step of the exponent grid.
pub const AWQ_ALPHA_GRID_STEP: u32 = 0x3d4c_cccd;

/// Every row times its scale.
pub open spec fn folded(w: Seq<u32>, cols: int, s: Seq<u32>) -> Seq<u32> {
    Seq::new(w.len(), |i: int| rounding::product(w[i], s[i / cols]))
}

/// Every row over its scale.
pub open spec fn unfolded(w: Seq<u32>, cols: int, s: Seq<u32>) -> Seq<u32> {
    Seq::new(w.len(), |i: int| rounding::quotient(w[i], s[i / cols]))
}

/// Every column over its scale.
pub open spec fn unfolded_input(x: Seq<u32>, cols: int, s: Seq<u32>) -> Seq<u32> {
    Seq::new(x.len(), |i: int| rounding::quotient(x[i], s[i % cols]))
}

/// Multiplies row `i` of the weights by `s[i]`.
pub fn awq_fold_weight(w: &[u32], rows: usize, cols: usize, s: &[u32]) -> (r: Vec<u32>)
    requires
        w@.len() == rows * cols,
        s@.len() == rows,
    ensures
        r@ == folded(w@, cols as int, s@),
{
    let mut out: Vec<u32> = Vec::new();
    for i in 0..w.len()
        invariant
            w@.len() == rows * cols,
            s@.len() == rows,
            out@.len() == i,
            forall|j: int| 0 <= j < i ==> out@[j] == folded(w@, cols as int, s@)[j],
    {
        proof {
            quant::flat_position(i as int, rows as int, cols as int);
        }
        out.push(rounding::multiply(w[i], s[i / cols]));
    }
    assert(out@ =~= folded(w@, cols as int, s@));
    out
}

/// Divides row `i` of the weights by `s[i]`.
pub fn awq_unfold_weight(w: &[u32], rows: usize, cols: usize, s: &[u32]) -> (r: Vec<u32>)
    requires
        w@.len() == rows * cols,
        s@.len() == rows,
    ensures
        r@ == unfolded(w@, cols as int, s@),
{
    let mut out: Vec<u32> = Vec::new();
    for i in 0..w.len()
        invariant
            w@.len() == rows * cols,
            s@.len() == rows,
            out@.len() == i,
            forall|j: int| 0 <= j < i ==> out@[j] == unfolded(w@, cols as int, s@)[j],
    {
        proof {
            quant::flat_position(i as int, rows as int, cols as int);
        }
        out.push(rounding::divide(w[i], s[i / cols]));
    }
    assert(out@ =~= unfolded(w@, cols as int, s@));
    out
}

/// Divides channel `j` of every input row by `s[j]`.
pub fn awq_unfold_input(x: &[u32], cols: usize, s: &[u32]) -> (r: Vec<u32>)
    requires
        cols > 0,
        s@.len() == cols,
        x@.len() % (cols as nat) == 0,
    ensures
        r@ == unfolded_input(x@, cols as int, s@),
{
    let mut out: Vec<u32> = Vec::new();
    for i in 0..x.len()
        invariant
            cols > 0,
            s@.len() == cols,
            out@.len() == i,
            forall|j: int| 0 <= j < i ==> out@[j] == unfolded_input(x@, cols as int, s@)[j],
    {
        out.push(rounding::divide(x[i], s[i % cols]));
    }
    assert(out@ =~= unfolded_input(x@, cols as int, s@));
    out
}

/// Folds channel scales into the weights and rounds the result.
fn fold_and_round(w: &[u32], rows: usize, cols: usize, bits: QBits, axis: QAxis, s: &[u32]) -> (r:
    QMatrix)
    requires
        w@.len() == rows * cols,
        s@.len() == rows,
    ensures
        gptq::is_plain_rounding(
            r,
            folded(w@, cols as int, s@),
            rows as int,
            cols as int,
            bits,
            axis,
        ),
{
    let scaled: Vec<u32> = awq_fold_weight(w, rows, cols, s);
    QMatrix::quantize(&scaled, rows, cols, bits, axis)
}

/// Scales the input channels by how strongly they are used, folds the scales into the weights and
/// rounds the result. The scales come back with the matrix: inputs have to be divided by them.
pub fn awq_quantize<L: Fn(u32) -> u32, E: Fn(u32) -> u32>(
    w: &[u32],
    rows: usize,
    cols: usize,
    bits: QBits,
    axis: QAxis,
    act_abs_mean: &[u32],
    alpha: u32,
    ln: &L,
    exp: &E,
) -> (r: (QMatrix, Vec<u32>))
    requires
        w@.len() == rows * cols,
        act_abs_mean@.len() == rows,
        forall|v: u32| call_requires(ln, (v,)),
        forall|v: u32| call_requires(exp, (v,)),
    ensures
        awq_scaling::are_scales(ln, exp, act_abs_mean@, alpha, AWQ_GROUP_SIZE, r.1@),
        gptq::is_plain_rounding(
            r.0,
            folded(w@, cols as int, r.1@),
            rows as int,
            cols as int,
            bits,
            axis,
        ),
{
    let s: Vec<u32> = awq_scaling::awq_scales(act_abs_mean, alpha, AWQ_GROUP_SIZE, ln, exp);
    let q: QMatrix = fold_and_round(w, rows, cols, bits, axis, &s);
    (q, s)
}

/// The exponent grid: `i * 0.05` for `i` from 0 to 20.
pub open spec fn alpha_grid() -> Seq<u32> {
    Seq::new(21, |i: int| rounding::product(rounding::count_value(i), AWQ_ALPHA_GRID_STEP))
}

pub fn awq_alpha_grid() -> (r: Vec<u32>)
    ensures
        r@ == alpha_grid(),
{
    let mut out: Vec<u32> = Vec::new();
    for i in 0u64..21
        invariant
            out@.len() == i,
            forall|j: int|
                0 <= j < i ==> out@[j] == rounding::product(
                    rounding::count_value(j),
                    AWQ_ALPHA_GRID_STEP,
                ),
    {
        out.push(rounding::multiply(rounding::from_count(i), AWQ_ALPHA_GRID_STEP));
    }
    assert(out@ =~= alpha_grid());
    out
}

/// The exponents to try: those given, or the grid where none is given.
pub open spec fn tried(given: Seq<u32>) -> Seq<u32> {
    if given.len() == 0 {
        alpha_grid()
    } else {
        given
    }
}

/// The exponents to try.
pub fn exponents(given: &[u32]) -> (r: Vec<u32>)
    ensures
        r@ == tried(given@),
        r@.len() > 0,
{
    if given.len() == 0 {
        awq_alpha_grid()
    } else {
        params::copied(given)
    }
}

/// `x < y` of two numbers; false where either is no number.
pub open spec fn less(x: u32, y: u32) -> bool {
    !float_bits::nan(x) && !float_bits::nan(y) && gptq::numeric(x) < gptq::numeric(y)
}

/// Whether `x` is smaller than `y`.
pub fn is_less(x: u32, y: u32) -> (r: bool)
    ensures
        r == less(x, y),
{
    if float_bits::is_nan(x) || float_bits::is_nan(y) {
        return false;
    }
    gptq::numeric_key(x) < gptq::numeric_key(y)
}

/// The index that a scan for the smallest error ends with: a later one wins only by being
/// strictly smaller.
pub open spec fn best_index(errors: Seq<u32>, k: nat) -> int
    decreases k,
{
    if k <= 1 {
        0
    } else {
        let b = best_index(errors, (k - 1) as nat);
        if less(errors[k - 1], errors[b]) {
            k - 1
        } else {
            b
        }
    }
}

/// The first index of the smallest error.
pub fn first_smallest(errors: &[u32]) -> (r: usize)
    requires
        errors@.len() > 0,
    ensures
        r == best_index(errors@, errors@.len()),
        r < errors@.len(),
{
    let mut b: usize = 0;
    for i in 1..errors.len()
        invariant
            b == best_index(errors@, i as nat),
            b < i <= errors@.len(),
    {
        if is_less(errors[i], errors[b]) {
            b = i;
        }
    }
    b
}

/// Among numbers the scan finds the smallest, and the first of equals.
pub proof fn best_index_is_the_first_minimum(errors: Seq<u32>, k: nat)
    requires
        0 < k <= errors.len(),
        forall|i: int| 0 <= i < errors.len() ==> !float_bits::nan(#[trigger] errors[i]),
    ensures
        0 <= best_index(errors, k) < k,
        forall|i: int|
            0 <= i < k ==> gptq::numeric(errors[best_index(errors, k)]) <= gptq::numeric(
                #[trigger] errors[i],
            ),
        forall|i: int|
            0 <= i < best_index(errors, k) ==> gptq::numeric(errors[best_index(errors, k)])
                < gptq::numeric(#[trigger] errors[i]),
    decreases k,
{
    if k > 1 {
        best_index_is_the_first_minimum(errors, (k - 1) as nat);
    }
}

/// The relative error of the weights that a candidate scale vector gives, in the coordinates of
/// the original weights.
pub open spec fn weight_error(
    w: Seq<u32>,
    rows: int,
    cols: int,
    bits: QBits,
    axis: QAxis,
    s: Seq<u32>,
) -> u32 {
    quant::error_of(w, unfolded(equivalent(w, rows, cols, bits, axis, s), cols, s)).relative
}

/// The numbers that the folded and rounded weights stand for.
pub open spec fn equivalent(
    w: Seq<u32>,
    rows: int,
    cols: int,
    bits: QBits,
    axis: QAxis,
    s: Seq<u32>,
) -> Seq<u32> {
    let f = folded(w, cols, s);
    let scales = quant::scales_of(f, rows, cols, axis);
    quant::values_under(quant::codes_under(f, cols, bits, axis, scales), cols, bits, axis, scales)
}

/// Whether every list of scales may be that of its exponent.
pub open spec fn are_scale_lists<L: Fn(u32) -> u32, E: Fn(u32) -> u32>(
    ln: &L,
    exp: &E,
    uses: Seq<u32>,
    alphas: Seq<u32>,
    scales: Seq<Seq<u32>>,
) -> bool {
    &&& scales.len() == alphas.len()
    &&& forall|i: int|
        0 <= i < scales.len() ==> awq_scaling::are_scales(
            ln,
            exp,
            uses,
            alphas[i],
            AWQ_GROUP_SIZE,
            #[trigger] scales[i],
        )
}

/// The weight errors that lists of scales give.
pub open spec fn weight_errors(
    w: Seq<u32>,
    rows: int,
    cols: int,
    bits: QBits,
    axis: QAxis,
    scales: Seq<Seq<u32>>,
) -> Seq<u32> {
    Seq::new(scales.len(), |i: int| weight_error(w, rows, cols, bits, axis, scales[i]))
}

/// Whether a matrix, its scales and its exponent are those of place `b` of a grid.
pub open spec fn is_choice(
    q: QMatrix,
    s: Seq<u32>,
    alpha: u32,
    w: Seq<u32>,
    rows: int,
    cols: int,
    bits: QBits,
    axis: QAxis,
    alphas: Seq<u32>,
    scales: Seq<Seq<u32>>,
    b: int,
) -> bool {
    &&& 0 <= b < alphas.len()
    &&& alpha == alphas[b]
    &&& s == scales[b]
    &&& gptq::is_plain_rounding(q, folded(w, cols, s), rows, cols, bits, axis)
}

/// Whether a search over exponents for the smallest weight error may end with this matrix, these
/// scales and this exponent.
pub open spec fn is_search<L: Fn(u32) -> u32, E: Fn(u32) -> u32>(
    ln: &L,
    exp: &E,
    q: QMatrix,
    s: Seq<u32>,
    alpha: u32,
    w: Seq<u32>,
    rows: int,
    cols: int,
    bits: QBits,
    axis: QAxis,
    uses: Seq<u32>,
    alphas: Seq<u32>,
) -> bool {
    exists|scales: Seq<Seq<u32>>| #[trigger]
        are_scale_lists(ln, exp, uses, alphas, scales) && is_choice(
            q,
            s,
            alpha,
            w,
            rows,
            cols,
            bits,
            axis,
            alphas,
            scales,
            best_index(weight_errors(w, rows, cols, bits, axis, scales), alphas.len()),
        )
}

/// The views of lists.
pub open spec fn lists(v: Seq<Vec<u32>>) -> Seq<Seq<u32>> {
    Seq::new(v.len(), |i: int| v[i]@)
}

/// The scales that every exponent gives.
fn scale_lists<L: Fn(u32) -> u32, E: Fn(u32) -> u32>(
    uses: &[u32],
    alphas: &Vec<u32>,
    ln: &L,
    exp: &E,
) -> (r: Vec<Vec<u32>>)
    requires
        forall|v: u32| call_requires(ln, (v,)),
        forall|v: u32| call_requires(exp, (v,)),
    ensures
        are_scale_lists(ln, exp, uses@, alphas@, lists(r@)),
{
    let mut scales: Vec<Vec<u32>> = Vec::new();
    for i in 0..alphas.len()
        invariant
            forall|v: u32| call_requires(ln, (v,)),
            forall|v: u32| call_requires(exp, (v,)),
            scales@.len() == i,
            forall|j: int|
                0 <= j < i ==> awq_scaling::are_scales(
                    ln,
                    exp,
                    uses@,
                    alphas@[j],
                    AWQ_GROUP_SIZE,
                    (#[trigger] scales@[j])@,
                ),
    {
        scales.push(awq_scaling::awq_scales(uses, alphas[i], AWQ_GROUP_SIZE, ln, exp));
    }
    scales
}

/// Searches a grid of exponents for the smallest relative weight error; among equals the first
/// wins. Without a grid the usual one is searched. Answers the matrix, its scales and its exponent.
pub fn awq_quantize_search<L: Fn(u32) -> u32, E: Fn(u32) -> u32>(
    w: &[u32],
    rows: usize,
    cols: usize,
    bits: QBits,
    axis: QAxis,
    act_abs_mean: &[u32],
    grid: &[u32],
    ln: &L,
    exp: &E,
) -> (r: (QMatrix, Vec<u32>, u32))
    requires
        w@.len() == rows * cols,
        act_abs_mean@.len() == rows,
        forall|v: u32| call_requires(ln, (v,)),
        forall|v: u32| call_requires(exp, (v,)),
    ensures
        is_search(
            ln,
            exp,
            r.0,
            r.1@,
            r.2,
            w@,
            rows as int,
            cols as int,
            bits,
            axis,
            act_abs_mean@,
            tried(grid@),
        ),
        r.1@.len() == rows,
{
    let alphas: Vec<u32> = exponents(grid);
    let scales: Vec<Vec<u32>> = scale_lists(act_abs_mean, &alphas, ln, exp);
    let ghost all = lists(scales@);
    let mut errors: Vec<u32> = Vec::new();
    for i in 0..scales.len()
        invariant
            w@.len() == rows * cols,
            act_abs_mean@.len() == rows,
            all == lists(scales@),
            are_scale_lists(ln, exp, act_abs_mean@, alphas@, all),
            errors@.len() == i,
            forall|j: int|
                0 <= j < i ==> errors@[j] == weight_error(
                    w@,
                    rows as int,
                    cols as int,
                    bits,
                    axis,
                    all[j],
                ),
    {
        let s: &Vec<u32> = &scales[i];
        assert(all[i as int] == s@);
        let q: QMatrix = fold_and_round(w, rows, cols, bits, axis, s);
        let back: Vec<u32> = awq_unfold_weight(&q.dequantize(), rows, cols, s);
        errors.push(quant::quant_error(w, &back).relative);
    }
    assert(errors@ =~= weight_errors(w@, rows as int, cols as int, bits, axis, all));
    let b: usize = first_smallest(&errors);
    assert(all[b as int] == scales@[b as int]@);
    let s: Vec<u32> = params::copied(&scales[b]);
    let q: QMatrix = fold_and_round(w, rows, cols, bits, axis, &s);
    (q, s, alphas[b])
}

/// The squared differences of the first `k` outputs of two weight matrices, added in order.
pub open spec fn output_error(
    x: Seq<u32>,
    w: Seq<u32>,
    wq: Seq<u32>,
    rows: int,
    cols: int,
    k: nat,
) -> u32
    decreases k,
{
    if k == 0 {
        0
    } else {
        let f = k - 1;
        let d = rounding::difference(
            matrix::dot_at(x, w, rows, cols, f / cols, f % cols, rows as nat),
            matrix::dot_at(x, wq, rows, cols, f / cols, f % cols, rows as nat),
        );
        rounding::sum(output_error(x, w, wq, rows, cols, f as nat), rounding::product(d, d))
    }
}

fn dot_at(x: &[u32], m: &[u32], rows: usize, cols: usize, n: usize, t: usize, c: usize) -> (r: u32)
    requires
        x@.len() == n * rows,
        m@.len() == rows * cols,
        t < n,
        c < cols,
    ensures
        r == matrix::dot_at(x@, m@, rows as int, cols as int, t as int, c as int, rows as nat),
{
    let xlen: usize = x.len();
    let mlen: usize = m.len();
    let mut s: u32 = 0;
    for j in 0..rows
        invariant
            x@.len() == n * rows,
            m@.len() == rows * cols,
            xlen == x@.len(),
            mlen == m@.len(),
            t < n,
            c < cols,
            s == matrix::dot_at(x@, m@, rows as int, cols as int, t as int, c as int, j as nat),
    {
        proof {
            quant::cell_position(t as int, j as int, n as int, rows as int);
            quant::cell_position(j as int, c as int, rows as int, cols as int);
        }
        s = rounding::plus(s, rounding::multiply(x[t * rows + j], m[j * cols + c]));
    }
    s
}

/// The squared output error of `wq` against `w` over `n` input rows.
pub fn output_error_sq(x: &[u32], w: &[u32], wq: &[u32], n: usize, rows: usize, cols: usize) -> (r:
    u32)
    requires
        x@.len() == n * rows,
        w@.len() == rows * cols,
        wq@.len() == rows * cols,
        n * cols <= usize::MAX,
    ensures
        r == output_error(x@, w@, wq@, rows as int, cols as int, (n * cols) as nat),
{
    let mut total: u32 = 0;
    let outputs: usize = n * cols;
    for f in 0..outputs
        invariant
            x@.len() == n * rows,
            w@.len() == rows * cols,
            wq@.len() == rows * cols,
            outputs == n * cols,
            total == output_error(x@, w@, wq@, rows as int, cols as int, f as nat),
    {
        proof {
            quant::flat_position(f as int, n as int, cols as int);
        }
        let y: u32 = dot_at(x, w, rows, cols, n, f / cols, f % cols);
        let yq: u32 = dot_at(x, wq, rows, cols, n, f / cols, f % cols);
        let d: u32 = rounding::minus(y, yq);
        total = rounding::plus(total, rounding::multiply(d, d));
    }
    total
}

/// The output error over calibration inputs that a candidate scale vector gives.
pub open spec fn candidate_output_error(
    w: Seq<u32>,
    rows: int,
    cols: int,
    bits: QBits,
    axis: QAxis,
    s: Seq<u32>,
    x: Seq<u32>,
    x_rows: int,
) -> u32 {
    output_error(
        x,
        w,
        unfolded(equivalent(w, rows, cols, bits, axis, s), cols, s),
        rows,
        cols,
        (x_rows * cols) as nat,
    )
}

/// The output errors that lists of scales give.
pub open spec fn output_errors(
    w: Seq<u32>,
    rows: int,
    cols: int,
    bits: QBits,
    axis: QAxis,
    scales: Seq<Seq<u32>>,
    x: Seq<u32>,
    x_rows: int,
) -> Seq<u32> {
    Seq::new(
        scales.len(),
        |i: int| candidate_output_error(w, rows, cols, bits, axis, scales[i], x, x_rows),
    )
}

/// Whether a search over exponents for the smallest output error may end with this exponent, this
/// matrix and these scales.
pub open spec fn is_output_search<L: Fn(u32) -> u32, E: Fn(u32) -> u32>(
    ln: &L,
    exp: &E,
    q: QMatrix,
    s: Seq<u32>,
    alpha: u32,
    w: Seq<u32>,
    rows: int,
    cols: int,
    bits: QBits,
    axis: QAxis,
    uses: Seq<u32>,
    x: Seq<u32>,
    x_rows: int,
    alphas: Seq<u32>,
) -> bool {
    exists|scales: Seq<Seq<u32>>| #[trigger]
        are_scale_lists(ln, exp, uses, alphas, scales) && is_choice(
            q,
            s,
            alpha,
            w,
            rows,
            cols,
            bits,
            axis,
            alphas,
            scales,
            best_index(
                output_errors(w, rows, cols, bits, axis, scales, x, x_rows),
                alphas.len(),
            ),
        )
}

/// Searches a grid of exponents for the smallest output error over calibration inputs; among equals
/// the first wins. Without a grid the usual one is searched. Answers the exponent, its matrix and
/// its scales.
pub fn awq_best_alpha<L: Fn(u32) -> u32, E: Fn(u32) -> u32>(
    w: &[u32],
    rows: usize,
    cols: usize,
    bits: QBits,
    axis: QAxis,
    act_abs_mean: &[u32],
    x: &[u32],
    x_rows: usize,
    alphas: &[u32],
    ln: &L,
    exp: &E,
) -> (r: (u32, QMatrix, Vec<u32>))
    requires
        w@.len() == rows * cols,
        act_abs_mean@.len() == rows,
        x@.len() == x_rows * rows,
        x_rows * cols <= usize::MAX,
        forall|v: u32| call_requires(ln, (v,)),
        forall|v: u32| call_requires(exp, (v,)),
    ensures
        is_output_search(
            ln,
            exp,
            r.1,
            r.2@,
            r.0,
            w@,
            rows as int,
            cols as int,
            bits,
            axis,
            act_abs_mean@,
            x@,
            x_rows as int,
            tried(alphas@),
        ),
        r.2@.len() == rows,
{
    let alphas: Vec<u32> = exponents(alphas);
    let scales: Vec<Vec<u32>> = scale_lists(act_abs_mean, &alphas, ln, exp);
    let ghost all = lists(scales@);
    let mut errors: Vec<u32> = Vec::new();
    for i in 0..scales.len()
        invariant
            w@.len() == rows * cols,
            act_abs_mean@.len() == rows,
            x@.len() == x_rows * rows,
            x_rows * cols <= usize::MAX,
            all == lists(scales@),
            are_scale_lists(ln, exp, act_abs_mean@, alphas@, all),
            errors@.len() == i,
            forall|j: int|
                0 <= j < i ==> errors@[j] == candidate_output_error(
                    w@,
                    rows as int,
                    cols as int,
                    bits,
                    axis,
                    all[j],
                    x@,
                    x_rows as int,
                ),
    {
        let s: &Vec<u32> = &scales[i];
        assert(all[i as int] == s@);
        let q: QMatrix = fold_and_round(w, rows, cols, bits, axis, s);
        let back: Vec<u32> = awq_unfold_weight(&q.dequantize(), rows, cols, s);
        errors.push(output_error_sq(x, w, &back, x_rows, rows, cols));
    }
    assert(errors@ =~= output_errors(
        w@,
        rows as int,
        cols as int,
        bits,
        axis,
        all,
        x@,
        x_rows as int,
    ));
    let b: usize = first_smallest(&errors);
    assert(all[b as int] == scales@[b as int]@);
    let s: Vec<u32> = params::copied(&scales[b]);
    let q: QMatrix = fold_and_round(w, rows, cols, bits, axis, &s);
    (alphas[b], q, s)
}

/// `v * 1.0` is `v`, bit for bit unless `v` is no number.
pub proof fn product_by_one(v: u32)
    ensures
        gptq_laws::alike(rounding::product(v, ONE_BITS), v),
        !float_bits::nan(v) ==> rounding::product(v, ONE_BITS) == v,
{
    quant_laws::one_is_one();
    if float_bits::finite(v) {
        let o = float_bits::one();
        lemma_pow2_pos(149);
        rounding::units_follow_magnitudes(0, v);
        assert(0 * pow2(float_bits::doublings(0)) == 0);
        quant_laws::nearest_ignores_expansion(float_bits::units(v), 1, o);
        assert(1 * o == o);
        rounding::representable_values_are_kept(v);
    }
}

/// With every channel scale equal to one, scaled quantisation is plain rounding of the weights,
/// code for code.
pub proof fn unit_scales_are_plain_rounding(
    w: Seq<u32>,
    rows: int,
    cols: int,
    bits: QBits,
    axis: QAxis,
    s: Seq<u32>,
    m: QMatrix,
)
    requires
        w.len() == rows * cols,
        rows >= 0,
        cols >= 0,
        s.len() == rows,
        forall|i: int| 0 <= i < rows ==> #[trigger] s[i] == ONE_BITS,
        gptq::is_plain_rounding(m, folded(w, cols, s), rows, cols, bits, axis),
    ensures
        gptq::is_plain_rounding(m, w, rows, cols, bits, axis),
{
    let f = folded(w, cols, s);
    assert forall|i: int| 0 <= i < w.len() implies gptq_laws::alike(#[trigger] f[i], w[i]) by {
        quant::flat_position(i, rows, cols);
        product_by_one(w[i]);
    }
    gptq_laws::alike_matrices_round_alike(f, w, rows, cols, bits, axis);
}

} // verus!
