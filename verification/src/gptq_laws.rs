//! What compensated quantisation does when there is nothing to compensate with.

use crate::codes::QBits;
use crate::float_bits;
use crate::float_bits::SIGN_BIT;
use crate::gptq;
use crate::gptq::Problem;
use crate::qmatrix::QMatrix;
use crate::quant;
use crate::quant::QAxis;
use crate::quant_laws;
use crate::rounding;
use vstd::arithmetic::div_mod::*;
use vstd::arithmetic::power2::*;
use vstd::prelude::*;

verus! {

/// Whether two patterns are the same number, two zeros, or both no number.
pub open spec fn alike(a: u32, b: u32) -> bool {
    ||| a == b
    ||| float_bits::magnitude(a) == 0 && float_bits::magnitude(b) == 0
    ||| float_bits::nan(a) && float_bits::nan(b)
}

/// Adding zero changes nothing but the sign of a zero.
proof fn lemma_plus_zero(v: u32)
    ensures
        alike(rounding::sum(v, 0), v),
{
    if float_bits::finite(v) {
        assert(0 * pow2(float_bits::doublings(0)) == 0);
        assert(rounding::signed_units(0) == 0);
        rounding::representable_values_are_kept(v);
        rounding::units_follow_magnitudes(0, v);
        if float_bits::negative(v) && float_bits::magnitude(v) == 0 {
            assert(v == SIGN_BIT);
            assert(0 * pow2(float_bits::doublings(v)) == 0);
        }
        if float_bits::negative(v) && float_bits::magnitude(v) != 0 {
            lemma_positive_units(v);
        }
    }
}

proof fn lemma_positive_units(v: u32)
    requires
        float_bits::finite(v),
        float_bits::magnitude(v) != 0,
    ensures
        float_bits::units(v) > 0,
{
    lemma_pow2_pos(float_bits::doublings(v));
    assert(float_bits::mantissa(v) * pow2(float_bits::doublings(v)) > 0) by (nonlinear_arith)
        requires
            float_bits::mantissa(v) > 0,
            pow2(float_bits::doublings(v)) > 0,
    ;
}

/// A zero is quantised to zero under every scale.
proof fn lemma_zero_code(v: u32, s: u32, bits: QBits)
    requires
        float_bits::magnitude(v) == 0,
    ensures
        quant::code_of(v, s, bits) == 0,
{
    let q = rounding::quotient(v, s);
    let p = rounding::product(q, bits.qmax_bits());
    let o = float_bits::one();
    lemma_pow2_pos(149);
    assert(0 * pow2(float_bits::doublings(v)) == 0);
    assert(float_bits::units(v) == 0);
    assert(0 * o == 0);
    if !float_bits::nan(q) {
        if float_bits::finite(s) {
            lemma_positive_units(s);
            lemma_fundamental_div_mod_converse(0, float_bits::units(s), 0, 0);
        }
        assert(float_bits::magnitude(q) == 0);
        assert(0 * pow2(float_bits::doublings(q)) == 0);
        assert(0 * float_bits::units(bits.qmax_bits()) == 0);
        lemma_fundamental_div_mod_converse(0, o, 0, 0);
        assert(float_bits::magnitude(p) == 0);
        assert(0 * pow2(float_bits::doublings(p)) == 0);
        lemma_fundamental_div_mod_converse(o, 2 * o, 0, o);
    }
}

/// Numbers that are alike have the same code.
proof fn lemma_alike_code(a: u32, b: u32, s: u32, bits: QBits)
    requires
        alike(a, b),
    ensures
        quant::code_of(a, s, bits) == quant::code_of(b, s, bits),
{
    if float_bits::magnitude(a) == 0 && float_bits::magnitude(b) == 0 {
        lemma_zero_code(a, s, bits);
        lemma_zero_code(b, s, bits);
    }
}

/// Strided runs that are alike have the same maximum.
proof fn lemma_alike_run(x: Seq<u32>, y: Seq<u32>, start: int, step: int, n: nat)
    requires
        forall|k: int|
            #![trigger x[start + k * step]]
            0 <= k < n ==> alike(x[start + k * step], y[start + k * step]),
    ensures
        quant::strided_max(x, start, step, n) == quant::strided_max(y, start, step, n),
    decreases n,
{
    if n > 0 {
        lemma_alike_run(x, y, start, step, (n - 1) as nat);
        assert(alike(x[start + (n - 1) * step], y[start + (n - 1) * step]));
    }
}

/// Matrices whose elements are alike have the same scales and the same codes.
pub proof fn alike_matrices_round_alike(
    x: Seq<u32>,
    y: Seq<u32>,
    rows: int,
    cols: int,
    bits: QBits,
    axis: QAxis,
)
    requires
        x.len() == rows * cols,
        y.len() == rows * cols,
        rows >= 0,
        cols >= 0,
        forall|i: int| 0 <= i < x.len() ==> alike(#[trigger] x[i], y[i]),
    ensures
        quant::scales_of(x, rows, cols, axis) == quant::scales_of(y, rows, cols, axis),
        quant::codes_under(x, cols, bits, axis, quant::scales_of(x, rows, cols, axis))
            == quant::codes_under(y, cols, bits, axis, quant::scales_of(y, rows, cols, axis)),
{
    let sx = quant::scales_of(x, rows, cols, axis);
    let sy = quant::scales_of(y, rows, cols, axis);
    match axis {
        QAxis::Row => {
            assert forall|r: int| 0 <= r < rows implies sx[r] == sy[r] by {
                assert forall|k: int|
                    #![trigger x[r * cols + k * 1]]
                    0 <= k < cols implies alike(x[r * cols + k * 1], y[r * cols + k * 1]) by {
                    quant::cell_position(r, k, rows, cols);
                }
                lemma_alike_run(x, y, r * cols, 1, cols as nat);
            }
        },
        QAxis::Col => {
            assert forall|c: int| 0 <= c < cols implies sx[c] == sy[c] by {
                assert forall|k: int|
                    #![trigger x[c + k * cols]]
                    0 <= k < rows implies alike(x[c + k * cols], y[c + k * cols]) by {
                    quant::cell_position(k, c, rows, cols);
                }
                lemma_alike_run(x, y, c, cols, rows as nat);
            }
        },
    }
    assert(sx =~= sy);
    let cx = quant::codes_under(x, cols, bits, axis, sx);
    let cy = quant::codes_under(y, cols, bits, axis, sy);
    assert forall|i: int| 0 <= i < cx.len() implies cx[i] == cy[i] by {
        lemma_alike_code(x[i], y[i], sx[axis.group_of(i, cols)], bits);
    }
    assert(cx =~= cy);
}

/// Runs that are alike have the same maximum.
proof fn lemma_alike_max(
    x: Seq<u32>,
    y: Seq<u32>,
    start: int,
    n: nat,
)
    requires
        forall|k: int| 0 <= k < n ==> alike(#[trigger] x[k], y[start + k]),
    ensures
        quant::strided_max(x, 0, 1, n) == quant::strided_max(y, start, 1, n),
    decreases n,
{
    if n > 0 {
        lemma_alike_max(x, y, start, (n - 1) as nat);
        assert(alike(x[n - 1], y[start + (n - 1)]));
        assert(0 + (n - 1) * 1 == n - 1);
    }
}

/// Without an inverse a row is quantised as it came.
proof fn lemma_untouched(g: Problem, done: Seq<Seq<u32>>, k: int, c: int, blocks: nat)
    requires
        g.hinv is None,
    ensures
        alike(g.after_blocks(done, k, c, blocks), g.w[g.perm[k] * g.cols + c]),
    decreases blocks,
{
    if blocks > 0 {
        lemma_untouched(g, done, k, c, (blocks - 1) as nat);
        lemma_nothing_shared(g, done, k, c, 0, (blocks - 1) * g.block, blocks * g.block);
        lemma_plus_zero(g.after_blocks(done, k, c, (blocks - 1) as nat));
    }
}

proof fn lemma_nothing_shared(
    g: Problem,
    done: Seq<Seq<u32>>,
    k: int,
    c: int,
    v: u32,
    from: int,
    to: int,
)
    requires
        g.hinv is None,
    ensures
        g.compensated(done, k, c, v, from, to) == v,
    decreases to - from,
{
    if to > from {
        lemma_nothing_shared(g, done, k, c, v, from, to - 1);
    }
}

/// Every row of the history is alike the row of the weights whose turn it was.
proof fn lemma_rows_untouched(g: Problem, i: nat, c: int)
    requires
        g.wf(),
        g.hinv is None,
        i < g.rows,
        0 <= c < g.cols,
    ensures
        g.history(g.rows as nat).len() == g.rows,
        g.history(g.rows as nat)[i as int].len() == g.cols,
        alike(
            g.history(g.rows as nat)[i as int][c],
            g.w[g.perm[i as int] * g.cols + c],
        ),
{
    g.history_grows((i + 1) as nat, g.rows as nat);
    g.history_grows(i, (i + 1) as nat);
    let done = g.history(i);
    assert(g.history(g.rows as nat)[i as int] == g.history((i + 1) as nat)[i as int]);
    let b = i as int / g.block;
    lemma_div_pos_is_pos(i as int, g.block);
    lemma_untouched(g, done, i as int, c, b as nat);
    lemma_nothing_shared(
        g,
        done,
        i as int,
        c,
        g.after_blocks(done, i as int, c, b as nat),
        b * g.block,
        i as int,
    );
}

/// Rounding a number to its code and back does not change the code again.
proof fn lemma_rounded_code(v: u32, s: u32, bits: QBits)
    requires
        s <= float_bits::INFINITY_BITS,
        float_bits::nan(v) || float_bits::magnitude(v) <= s,
    ensures
        quant::code_of(quant::value_of(quant::code_of(v, s, bits), s, bits), s, bits)
            == quant::code_of(v, s, bits),
        s == 0 ==> quant::value_of(quant::code_of(v, s, bits), s, bits) == 0,
{
    let c = quant::code_of(v, s, bits);
    quant::code_is_in_range(v, s, bits);
    if s == 0 {
        assert(c == 0);
        quant::zero_code_is_zero(0, bits);
    } else if float_bits::infinite(s) {
        lemma_under_infinity(v, s, bits);
        lemma_under_infinity(quant::value_of(c, s, bits), s, bits);
    } else if float_bits::units(s) >= bits.limit() {
        quant_laws::codes_survive_a_round_trip(c, s, bits);
    } else if float_bits::nan(v) {
        assert(c == 0);
        quant::zero_code_is_zero(s, bits);
        lemma_zero_code(quant::value_of(c, s, bits), s, bits);
    } else {
        quant_laws::numbers_come_back_under_tiny_scales(v, s, bits);
        lemma_alike_code(quant::value_of(c, s, bits), v, s, bits);
    }
}

/// Everything is quantised to zero under an infinite scale.
proof fn lemma_under_infinity(v: u32, s: u32, bits: QBits)
    requires
        float_bits::infinite(s),
    ensures
        quant::code_of(v, s, bits) == 0,
{
    let q = rounding::quotient(v, s);
    if !float_bits::nan(q) {
        assert(float_bits::magnitude(q) == 0);
        let o = float_bits::one();
        let p = rounding::product(q, bits.qmax_bits());
        lemma_pow2_pos(149);
        assert(0 * pow2(float_bits::doublings(q)) == 0);
        assert(0 * float_bits::units(bits.qmax_bits()) == 0);
        lemma_fundamental_div_mod_converse(0, o, 0, 0);
        assert(float_bits::magnitude(p) == 0);
        assert(0 * pow2(float_bits::doublings(p)) == 0);
        lemma_fundamental_div_mod_converse(o, 2 * o, 0, o);
    }
}

/// The group scale of position `f` of the weights.
pub open spec fn group_scale(g: Problem, f: int) -> u32 {
    quant::scales_of(g.w, g.rows, g.cols, g.axis)[g.axis.group_of(f, g.cols)]
}

/// The rounded weight at position `f` without an inverse.
proof fn lemma_result(g: Problem, f: int)
    requires
        g.wf(),
        g.hinv is None,
        0 <= f < g.rows * g.cols,
    ensures
        g.result()[f] == quant::value_of(
            quant::code_of(g.w[f], group_scale(g, f), g.bits),
            group_scale(g, f),
            g.bits,
        ),
        g.axis == QAxis::Row ==> g.scales()[f / g.cols] == group_scale(g, f),
{
    quant::flat_position(f, g.rows, g.cols);
    let r = f / g.cols;
    let c = f % g.cols;
    gptq::every_row_has_a_turn(g, r);
    let t = g.turn(r);
    lemma_rows_untouched(g, t as nat, c);
    let row = g.history(g.rows as nat)[t];
    assert forall|k: int| 0 <= k < g.cols implies alike(#[trigger] row[k], g.w[r * g.cols + k]) by {
        lemma_rows_untouched(g, t as nat, k);
    }
    lemma_alike_max(row, g.w, r * g.cols, g.cols as nat);
    assert(g.scale(row, c) == group_scale(g, f));
    lemma_alike_code(row[c], g.w[f], group_scale(g, f), g.bits);
}

/// Without an inverse, compensated quantisation is plain rounding: the same scales and, code for
/// code, the same codes.
pub proof fn no_inverse_is_plain_rounding(g: Problem, m: QMatrix, plain: QMatrix)
    requires
        g.wf(),
        g.hinv is None,
        gptq::is_solution(m, g),
        gptq::is_plain_rounding(plain, g.w, g.rows, g.cols, g.bits, g.axis),
    ensures
        m.scale_seq() == plain.scale_seq(),
        m.codes() == plain.codes(),
        m.values() == plain.values(),
        m.row_count() == plain.row_count(),
        m.col_count() == plain.col_count(),
        m.width() == plain.width(),
        m.grouping() == plain.grouping(),
{
    let scales = plain.scale_seq();
    let out = g.result();
    assert(g.w.len() == g.rows * g.cols);
    if g.axis == QAxis::Row {
        assert(g.scales() =~= scales) by {
            assert forall|r: int| 0 <= r < g.rows implies g.scales()[r] == scales[r] by {
                if g.cols > 0 {
                    quant::cell_position(r, 0, g.rows, g.cols);
                    lemma_result(g, r * g.cols + 0);
                } else {
                    gptq::every_row_has_a_turn(g, r);
                    lemma_row_without_columns(g, g.turn(r) as nat);
                }
            }
        }
        assert(m.scale_seq() =~= scales);
    } else {
        assert forall|c: int| 0 <= c < g.cols && float_bits::at_most_zero(scales[c])
            implies quant::col_scale(out, g.rows, g.cols, c) == scales[c] by {
            quant::strided_max_is_the_maximum(g.w, c, g.cols, g.rows as nat);
            assert(scales[c] == 0);
            lemma_zero_column(g, c);
        }
        assert(m.scale_seq() =~= scales);
    }
    assert forall|f: int| 0 <= f < out.len() implies m.codes()[f] == plain.codes()[f] by {
        quant::flat_position(f, g.rows, g.cols);
        lemma_result(g, f);
        lemma_scale_facts(g, f);
        let s = group_scale(g, f);
        lemma_rounded_code(g.w[f], s, g.bits);
    }
    assert(m.codes() =~= plain.codes());
}

/// Finite numbers are rounded to finite numbers.
pub proof fn finite_weights_stay_finite(
    plain: QMatrix,
    w: Seq<u32>,
    rows: int,
    cols: int,
    bits: QBits,
    axis: QAxis,
)
    requires
        w.len() == rows * cols,
        rows >= 0,
        cols >= 0,
        forall|i: int| 0 <= i < w.len() ==> float_bits::finite(#[trigger] w[i]),
        gptq::is_plain_rounding(plain, w, rows, cols, bits, axis),
    ensures
        forall|f: int|
            0 <= f < plain.values().len() ==> float_bits::finite(#[trigger] plain.values()[f]),
{
    plain.shape();
    assert forall|f: int| 0 <= f < plain.values().len() implies float_bits::finite(
        #[trigger] plain.values()[f],
    ) by {
        quant::flat_position(f, rows, cols);
        let (r, c) = (f / cols, f % cols);
        let s = plain.scale_seq()[axis.group_of(f, cols)];
        match axis {
            QAxis::Row => {
                lemma_finite_max(w, rows, cols, r * cols, 1, cols as nat);
            },
            QAxis::Col => {
                lemma_finite_max(w, rows, cols, c, cols, rows as nat);
            },
        }
        quant::code_is_in_range(w[f], s, bits);
        quant_laws::values_stay_under_their_scales(plain.codes()[f], s, bits);
    }
}

proof fn lemma_finite_max(w: Seq<u32>, rows: int, cols: int, start: int, step: int, n: nat)
    requires
        w.len() == rows * cols,
        forall|i: int| 0 <= i < w.len() ==> float_bits::finite(#[trigger] w[i]),
        step == 1 && n == cols && (exists|r: int|
            0 <= r < rows && start == #[trigger] (r * cols)) || step == cols && n == rows && 0
            <= start < cols,
        rows >= 0,
        cols >= 0,
    ensures
        quant::strided_max(w, start, step, n) < float_bits::INFINITY_BITS,
{
    quant::strided_max_is_the_maximum(w, start, step, n);
    if quant::strided_max(w, start, step, n) != 0 {
        let k = choose|k: int|
            #![trigger w[start + k * step]]
            0 <= k < n && !float_bits::nan(w[start + k * step]) && float_bits::magnitude(
                w[start + k * step],
            ) == quant::strided_max(w, start, step, n);
        if step == 1 && n == cols && exists|r: int|
            0 <= r < rows && start == #[trigger] (r * cols) {
            let r = choose|r: int| 0 <= r < rows && start == #[trigger] (r * cols);
            quant::cell_position(r, k, rows, cols);
        } else {
            quant::cell_position(k, start, rows, cols);
        }
        assert(float_bits::finite(w[start + k * step]));
    }
}

/// Compensation moves no column scale: they are those of the weights, as plain rounding has them,
/// and so are the shape and the bytes. No number read back exceeds its scale.
pub proof fn compensation_keeps_column_scales(g: Problem, m: QMatrix, plain: QMatrix)
    requires
        g.wf(),
        g.axis == QAxis::Col,
        gptq::is_solution(m, g),
        gptq::is_plain_rounding(plain, g.w, g.rows, g.cols, g.bits, g.axis),
    ensures
        m.scale_seq() == plain.scale_seq(),
        m.size() == plain.size(),
        m.row_count() == plain.row_count(),
        m.col_count() == plain.col_count(),
        m.width() == plain.width(),
        m.grouping() == plain.grouping(),
        forall|f: int|
            0 <= f < m.values().len() && float_bits::finite(m.scale_seq()[f % g.cols])
                ==> float_bits::magnitude(#[trigger] m.values()[f]) <= m.scale_seq()[f % g.cols],
{
    let scales = plain.scale_seq();
    let out = g.result();
    assert forall|c: int| 0 <= c < g.cols && float_bits::at_most_zero(scales[c])
        implies quant::col_scale(out, g.rows, g.cols, c) == scales[c] by {
        quant::strided_max_is_the_maximum(g.w, c, g.cols, g.rows as nat);
        assert(scales[c] == 0);
        lemma_frozen_zero_column(g, c);
    }
    assert(m.scale_seq() =~= scales);
    m.shape();
    assert forall|f: int|
        0 <= f < m.values().len() && float_bits::finite(
            m.scale_seq()[f % g.cols],
        ) implies float_bits::magnitude(#[trigger] m.values()[f]) <= m.scale_seq()[f % g.cols] by {
        quant::flat_position(f, g.rows, g.cols);
        let c = f % g.cols;
        quant::strided_max_is_the_maximum(g.w, c, g.cols, g.rows as nat);
        quant::code_is_in_range(out[f], scales[c], g.bits);
        quant_laws::values_stay_under_their_scales(m.codes()[f], scales[c], g.bits);
    }
}

/// Whatever the compensation, a column whose scale is zero is rounded to zeros.
proof fn lemma_frozen_zero_column(g: Problem, c: int)
    requires
        g.wf(),
        g.axis == QAxis::Col,
        0 <= c < g.cols,
        quant::col_scale(g.w, g.rows, g.cols, c) == 0,
    ensures
        quant::col_scale(g.result(), g.rows, g.cols, c) == 0,
{
    let out = g.result();
    quant::strided_max_is_the_maximum(out, c, g.cols, g.rows as nat);
    if quant::col_scale(out, g.rows, g.cols, c) != 0 {
        let k = choose|k: int|
            #![trigger out[c + k * g.cols]]
            0 <= k < g.rows && !float_bits::nan(out[c + k * g.cols]) && float_bits::magnitude(
                out[c + k * g.cols],
            ) == quant::col_scale(out, g.rows, g.cols, c);
        quant::cell_position(k, c, g.rows, g.cols);
        let f = k * g.cols + c;
        quant::flat_position(f, g.rows, g.cols);
        let row = g.history(g.rows as nat)[g.turn(k)];
        quant::code_is_in_range(row[c], 0, g.bits);
        quant_laws::values_stay_under_their_scales(
            quant::code_of(row[c], 0, g.bits),
            0,
            g.bits,
        );
    }
}

proof fn lemma_row_without_columns(g: Problem, t: nat)
    requires
        g.wf(),
        g.cols == 0,
        t < g.rows,
    ensures
        g.history(g.rows as nat)[t as int].len() == 0,
{
    g.history_grows((t + 1) as nat, g.rows as nat);
    g.history_grows(t, (t + 1) as nat);
    assert(g.history(g.rows as nat)[t as int] == g.history((t + 1) as nat)[t as int]);
}

/// A group scale is not negative, and no weight that is a number exceeds it.
proof fn lemma_scale_facts(g: Problem, f: int)
    requires
        g.wf(),
        0 <= f < g.rows * g.cols,
    ensures
        group_scale(g, f) <= float_bits::INFINITY_BITS,
        float_bits::nan(g.w[f]) || float_bits::magnitude(g.w[f]) <= group_scale(g, f),
{
    quant::flat_position(f, g.rows, g.cols);
    let r = f / g.cols;
    let c = f % g.cols;
    match g.axis {
        QAxis::Row => {
            quant::strided_max_is_the_maximum(g.w, r * g.cols, 1, g.cols as nat);
            assert(g.w[r * g.cols + c * 1] == g.w[f]);
        },
        QAxis::Col => {
            quant::strided_max_is_the_maximum(g.w, c, g.cols, g.rows as nat);
            assert(g.w[c + r * g.cols] == g.w[f]);
        },
    }
}

/// A column of zeros is rounded to zeros.
proof fn lemma_zero_column(g: Problem, c: int)
    requires
        g.wf(),
        g.hinv is None,
        g.axis == QAxis::Col,
        0 <= c < g.cols,
        quant::col_scale(g.w, g.rows, g.cols, c) == 0,
    ensures
        quant::col_scale(g.result(), g.rows, g.cols, c) == 0,
{
    let out = g.result();
    quant::strided_max_is_the_maximum(out, c, g.cols, g.rows as nat);
    if quant::col_scale(out, g.rows, g.cols, c) != 0 {
        let k = choose|k: int|
            #![trigger out[c + k * g.cols]]
            0 <= k < g.rows && !float_bits::nan(out[c + k * g.cols]) && float_bits::magnitude(
                out[c + k * g.cols],
            ) == quant::col_scale(out, g.rows, g.cols, c);
        quant::cell_position(k, c, g.rows, g.cols);
        let f = k * g.cols + c;
        lemma_result(g, f);
        lemma_scale_facts(g, f);
        lemma_rounded_code(g.w[f], 0, g.bits);
    }
}

} // verus!
