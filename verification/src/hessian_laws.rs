//! Second moments that cannot be inverted are refused, and the weights are then rounded plainly.

use crate::calib::HessianKind;
use crate::codes::QBits;
use crate::float_bits;
use crate::gptq;
use crate::gptq::GptqOpts;
use crate::gptq_laws;
use crate::linalg;
use crate::order_laws;
use crate::qmatrix::QMatrix;
use crate::quant;
use crate::quant::QAxis;
use crate::rounding;
use vstd::prelude::*;

verus! {

/// Taking a square away from what is not a positive number leaves no positive number.
proof fn lemma_stays_unusable(d: u32, x: u32)
    requires
        !float_bits::positive(d),
    ensures
        !float_bits::positive(rounding::difference(d, rounding::product(x, x))),
{
    let p = rounding::product(x, x);
    let q = rounding::opposite(p);
    order_laws::squares_are_not_negative(x);
    if float_bits::finite(d) && float_bits::finite(p) {
        rounding::units_follow_magnitudes(d, d);
        rounding::units_follow_magnitudes(q, q);
        assert(rounding::signed_units(d) <= 0) by {
            if !float_bits::negative(d) {
                order_laws::zero_has_no_units(d);
            }
        }
        assert(rounding::signed_units(q) <= 0);
        order_laws::rounded_values_keep_order(
            rounding::signed_units(d) + rounding::signed_units(q),
            0,
        );
        order_laws::zero_is_rounded_to_zero();
    }
}

proof fn lemma_unusable_diagonal(a: Seq<u32>, l: Seq<u32>, n: int, j: int, depth: nat)
    requires
        !float_bits::positive(linalg::cell(a, n, j, j)),
    ensures
        !float_bits::positive(linalg::reduced(a, l, n, j, j, depth)),
    decreases depth,
{
    if depth > 0 {
        lemma_unusable_diagonal(a, l, n, j, (depth - 1) as nat);
        lemma_stays_unusable(
            linalg::reduced(a, l, n, j, j, (depth - 1) as nat),
            linalg::cell(l, n, j, depth - 1),
        );
    }
}

/// A matrix that has a factor has a positive diagonal.
pub proof fn factored_matrices_have_positive_diagonals(a: Seq<u32>, l: Seq<u32>, n: int, j: int)
    requires
        linalg::is_factor(a, l, n),
        0 <= j < n,
    ensures
        float_bits::positive(linalg::cell(a, n, j, j)),
{
    assert(linalg::factor_cell(a, l, n, j, j));
    if !float_bits::positive(linalg::cell(a, n, j, j)) {
        lemma_unusable_diagonal(a, l, n, j, j as nat);
    }
}

/// Whether second moments cannot be used: an element is not finite, or no channel has positive
/// energy.
pub open spec fn broken(h: Seq<u32>, n: int) -> bool {
    ||| exists|r: int, c: int|
        0 <= r < n && 0 <= c < n && !float_bits::finite(#[trigger] linalg::cell(h, n, r, c))
    ||| forall|r: int| 0 <= r < n ==> !float_bits::positive(#[trigger] linalg::cell(h, n, r, r))
}

proof fn lemma_damped_cell(h: Seq<u32>, n: int, perm: Seq<usize>, damp: u32, i: int, j: int)
    requires
        0 <= i < n,
        0 <= j < n,
    ensures
        ({
            let hp = gptq::permuted(h, n, perm);
            let given = linalg::cell(h, n, perm[i] as int, perm[j] as int);
            &&& linalg::cell(hp, n, i, j) == given
            &&& linalg::cell(gptq::inverted_matrix(h, n, perm, damp), n, i, j) == if i == j {
                rounding::sum(given, gptq::damping(hp, n, damp))
            } else {
                given
            }
        }),
{
    quant::cell_position(i, j, n, n);
}

/// Two numbers of which none is positive have no positive sum.
proof fn lemma_sum_stays_unusable(x: u32, y: u32)
    requires
        !float_bits::positive(x),
        !float_bits::positive(y),
    ensures
        !float_bits::positive(rounding::sum(x, y)),
{
    if float_bits::finite(x) && float_bits::finite(y) {
        rounding::units_follow_magnitudes(x, x);
        rounding::units_follow_magnitudes(y, y);
        if !float_bits::negative(x) {
            order_laws::zero_has_no_units(x);
        }
        if !float_bits::negative(y) {
            order_laws::zero_has_no_units(y);
        }
        order_laws::rounded_values_keep_order(
            rounding::signed_units(x) + rounding::signed_units(y),
            0,
        );
        order_laws::zero_is_rounded_to_zero();
    }
}

proof fn lemma_no_trace(h: Seq<u32>, n: int, k: nat)
    requires
        k <= n,
        forall|r: int| 0 <= r < n ==> !float_bits::positive(#[trigger] linalg::cell(h, n, r, r)),
    ensures
        !float_bits::positive(gptq::trace(h, n, k)),
    decreases k,
{
    if k > 0 {
        lemma_no_trace(h, n, (k - 1) as nat);
        lemma_sum_stays_unusable(
            gptq::trace(h, n, (k - 1) as nat),
            linalg::cell(h, n, k - 1, k - 1),
        );
    }
}

/// Broken second moments have no inverse, in whatever order and with whatever damping.
pub proof fn broken_moments_have_no_inverse(
    h: Seq<u32>,
    n: int,
    perm: Seq<usize>,
    damp: u32,
    inv: Seq<u32>,
)
    requires
        n >= 1,
        gptq::is_permutation(perm, n),
        broken(h, n),
    ensures
        !linalg::is_inverse(gptq::inverted_matrix(h, n, perm, damp), inv, n),
{
    let d = gptq::inverted_matrix(h, n, perm, damp);
    if linalg::is_inverse(d, inv, n) {
        let l = choose|l: Seq<u32>| #[trigger]
            linalg::is_factor(d, l, n) && linalg::inverse_from(l, inv, n);
        if exists|r: int, c: int|
            0 <= r < n && 0 <= c < n && !float_bits::finite(#[trigger] linalg::cell(h, n, r, c)) {
            let (r, c) = choose|r: int, c: int|
                0 <= r < n && 0 <= c < n && !float_bits::finite(
                    #[trigger] linalg::cell(h, n, r, c),
                );
            gptq::permutation_is_onto(perm, n, r);
            gptq::permutation_is_onto(perm, n, c);
            let i = choose|i: int| 0 <= i < n && #[trigger] perm[i] == r;
            let j = choose|j: int| 0 <= j < n && #[trigger] perm[j] == c;
            lemma_damped_cell(h, n, perm, damp, i, j);
            quant::cell_position(i, j, n, n);
            assert(!float_bits::finite(d[i * n + j]));
        } else {
            let hp = gptq::permuted(h, n, perm);
            assert forall|r: int| 0 <= r < n implies !float_bits::positive(
                #[trigger] linalg::cell(hp, n, r, r),
            ) by {
                lemma_damped_cell(h, n, perm, damp, r, r);
                assert(0 <= perm[r] < n);
                assert(!float_bits::positive(linalg::cell(h, n, perm[r] as int, perm[r] as int)));
            }
            lemma_no_trace(hp, n, n as nat);
            assert(gptq::damping(hp, n, damp) == 0);
            lemma_damped_cell(h, n, perm, damp, 0, 0);
            assert(!float_bits::positive(linalg::cell(hp, n, 0, 0)));
            lemma_sum_stays_unusable(linalg::cell(hp, n, 0, 0), 0);
            factored_matrices_have_positive_diagonals(d, l, n, 0);
        }
    }
}

/// Whether second moments give no inverse: the diagonal alone was kept, or they are broken.
pub open spec fn gives_no_inverse(hessian: HessianKind, n: int) -> bool {
    match hessian {
        HessianKind::Diagonal(_) => true,
        HessianKind::Full(h) => broken(h@, n),
    }
}

/// Where the second moments give no inverse, compensated quantisation is plain rounding: the same
/// scales and, code for code, the same codes.
pub proof fn unusable_moments_are_plain_rounding(
    m: QMatrix,
    plain: QMatrix,
    w: Seq<u32>,
    rows: usize,
    cols: usize,
    bits: QBits,
    axis: QAxis,
    hessian: HessianKind,
    opts: GptqOpts,
)
    requires
        rows >= 1,
        cols >= 1,
        w.len() == rows * cols,
        hessian.wf(),
        hessian.order() == rows,
        gives_no_inverse(hessian, rows as int),
        gptq::compensated_by(m, w, rows, cols, bits, axis, hessian, opts),
        gptq::is_plain_rounding(plain, w, rows as int, cols as int, bits, axis),
    ensures
        m.scale_seq() == plain.scale_seq(),
        m.codes() == plain.codes(),
        m.values() == plain.values(),
        linalg::all_finite(w) ==> linalg::all_finite(m.values()),
{
    let block = gptq::block_in_use(opts.block, rows);
    let (perm, hinv) = choose|perm: Seq<usize>, hinv: Option<Seq<u32>>|
        #![trigger gptq::problem_of(w, rows, cols, bits, axis, perm, hinv, block)]
        gptq::is_order(perm, hessian.diagonal_seq(), opts.act_order) && gptq::is_inverse_of(
            hinv,
            hessian,
            rows as int,
            perm,
            opts.damp,
        ) && gptq::is_solution(
            m,
            gptq::problem_of(w, rows, cols, bits, axis, perm, hinv, block),
        );
    let g = gptq::problem_of(w, rows, cols, bits, axis, perm, hinv, block);
    assert(gptq::is_permutation(perm, rows as int));
    if let Some(inv) = hinv {
        if let HessianKind::Full(h) = hessian {
            broken_moments_have_no_inverse(h@, rows as int, perm, opts.damp, inv);
        }
    }
    gptq_laws::no_inverse_is_plain_rounding(g, m, plain);
    if linalg::all_finite(w) {
        gptq_laws::finite_weights_stay_finite(plain, w, rows as int, cols as int, bits, axis);
    }
}

/// Compensated quantisation freezes the column scales on the weights: they, the shape and the bytes
/// are those of plain rounding, and no number read back exceeds its scale.
pub proof fn compensated_scales_are_frozen(
    m: QMatrix,
    plain: QMatrix,
    w: Seq<u32>,
    rows: usize,
    cols: usize,
    bits: QBits,
    hessian: HessianKind,
    opts: GptqOpts,
)
    requires
        rows >= 1,
        cols >= 1,
        w.len() == rows * cols,
        hessian.wf(),
        hessian.order() == rows,
        gptq::compensated_by(m, w, rows, cols, bits, QAxis::Col, hessian, opts),
        gptq::is_plain_rounding(plain, w, rows as int, cols as int, bits, QAxis::Col),
    ensures
        m.scale_seq() == plain.scale_seq(),
        m.size() == plain.size(),
        m.row_count() == plain.row_count(),
        m.col_count() == plain.col_count(),
        m.width() == plain.width(),
        m.grouping() == plain.grouping(),
        forall|f: int|
            0 <= f < m.values().len() && float_bits::finite(m.scale_seq()[f % (cols as int)])
                ==> float_bits::magnitude(#[trigger] m.values()[f]) <= m.scale_seq()[f % (
            cols as int)],
{
    let block = gptq::block_in_use(opts.block, rows);
    let (perm, hinv) = choose|perm: Seq<usize>, hinv: Option<Seq<u32>>|
        #![trigger gptq::problem_of(w, rows, cols, bits, QAxis::Col, perm, hinv, block)]
        gptq::is_order(perm, hessian.diagonal_seq(), opts.act_order) && gptq::is_inverse_of(
            hinv,
            hessian,
            rows as int,
            perm,
            opts.damp,
        ) && gptq::is_solution(
            m,
            gptq::problem_of(w, rows, cols, bits, QAxis::Col, perm, hinv, block),
        );
    let g = gptq::problem_of(w, rows, cols, bits, QAxis::Col, perm, hinv, block);
    if let Some(inv) = hinv {
        if let HessianKind::Full(h) = hessian {
            linalg::inverse_is_square(
                gptq::inverted_matrix(h@, rows as int, perm, opts.damp),
                inv,
                rows as int,
            );
        }
    }
    gptq_laws::compensation_keeps_column_scales(g, m, plain);
}

} // verus!
