//! Symmetric quantisation of matrices of single-precision numbers.
//!
//! Numbers are bit patterns (see `float_bits`); matrices are row-major. A group of numbers shares
//! one scale, its largest magnitude; a number `v` becomes the code `round(v / scale * qmax)`, and
//! a code `c` stands for `c / qmax * scale`.

use crate::codes;
use crate::codes::QBits;
use crate::float_bits;
use crate::float_bits::{ONE_BITS, SIGN_BIT};
use crate::roots;
use crate::rounding;
use vstd::arithmetic::div_mod::*;
use vstd::arithmetic::mul::*;
use vstd::arithmetic::power2::*;
use vstd::prelude::*;

verus! {

/// Which dimension of a matrix one scale covers.
#[derive(Clone, Copy, Debug, PartialEq, Eq, Structural)]
pub enum QAxis {
    /// One scale per row.
    Row,
    /// One scale per column.
    Col,
}

impl QAxis {
    /// Number of scales of a `rows * cols` matrix.
    pub open spec fn groups(self, rows: int, cols: int) -> int {
        match self {
            QAxis::Row => rows,
            QAxis::Col => cols,
        }
    }

    /// The group of the element at flat position `i`.
    pub open spec fn group_of(self, i: int, cols: int) -> int {
        match self {
            QAxis::Row => i / cols,
            QAxis::Col => i % cols,
        }
    }
}

/// The largest magnitude among `n` elements that start at `start` and lie `step` apart; NaNs are
/// passed over, and nothing counts as zero.
pub open spec fn strided_max(x: Seq<u32>, start: int, step: int, n: nat) -> u32
    decreases n,
{
    if n == 0 {
        0
    } else {
        float_bits::larger_magnitude(
            strided_max(x, start, step, (n - 1) as nat),
            x[start + (n - 1) * step],
        )
    }
}

/// A magnitude, or `1.0` in place of zero.
pub open spec fn or_one(m: u32) -> u32 {
    if float_bits::positive(m) {
        m
    } else {
        ONE_BITS
    }
}

/// The scale of row `r`.
pub open spec fn row_scale(x: Seq<u32>, cols: int, r: int) -> u32 {
    or_one(strided_max(x, r * cols, 1, cols as nat))
}

/// The largest magnitude of column `c`; zero while the column holds nothing but zeros.
pub open spec fn col_scale(x: Seq<u32>, rows: int, cols: int, c: int) -> u32 {
    strided_max(x, c, cols, rows as nat)
}

/// The scales of all groups. A zero column scale means that the column is not settled yet.
pub open spec fn scales_of(x: Seq<u32>, rows: int, cols: int, axis: QAxis) -> Seq<u32> {
    match axis {
        QAxis::Row => Seq::new(rows as nat, |r: int| row_scale(x, cols, r)),
        QAxis::Col => Seq::new(cols as nat, |c: int| col_scale(x, rows, cols, c)),
    }
}

/// Column scales with the unsettled ones taken from new data; row scales as they are.
pub open spec fn resolved(
    x: Seq<u32>,
    rows: int,
    cols: int,
    axis: QAxis,
    scales: Seq<u32>,
) -> Seq<u32> {
    Seq::new(
        scales.len(),
        |c: int|
            if axis == QAxis::Col && c < cols && float_bits::at_most_zero(scales[c]) {
                col_scale(x, rows, cols, c)
            } else {
                scales[c]
            },
    )
}

/// The code of one number under one scale.
pub open spec fn code_of(v: u32, scale: u32, bits: QBits) -> i8 {
    rounding::whole(
        rounding::product(rounding::quotient(v, scale), bits.qmax_bits()),
        bits.limit(),
    ) as i8
}

/// The single-precision number equal to a code.
pub open spec fn code_value(code: i8) -> u32 {
    rounding::from_units(code * float_bits::one())
}

/// The number that a code stands for under one scale.
pub open spec fn value_of(code: i8, scale: u32, bits: QBits) -> u32 {
    rounding::product(rounding::quotient(code_value(code), bits.qmax_bits()), scale)
}

/// The codes of a matrix under given scales.
pub open spec fn codes_under(
    x: Seq<u32>,
    cols: int,
    bits: QBits,
    axis: QAxis,
    scales: Seq<u32>,
) -> Seq<i8> {
    Seq::new(x.len(), |i: int| code_of(x[i], scales[axis.group_of(i, cols)], bits))
}

/// The numbers that codes stand for under given scales.
pub open spec fn values_under(
    codes: Seq<i8>,
    cols: int,
    bits: QBits,
    axis: QAxis,
    scales: Seq<u32>,
) -> Seq<u32> {
    Seq::new(codes.len(), |i: int| value_of(codes[i], scales[axis.group_of(i, cols)], bits))
}

/// A flat position of a `rows * cols` matrix has a row and a column.
pub proof fn flat_position(i: int, rows: int, cols: int)
    requires
        0 <= i < rows * cols,
        rows >= 0,
        cols >= 0,
    ensures
        cols > 0,
        0 <= i / cols < rows,
        0 <= i % cols < cols,
        (i / cols) * cols + i % cols == i,
{
    assert(cols > 0) by (nonlinear_arith)
        requires
            0 < rows * cols,
            rows >= 0,
            cols >= 0,
    ;
    lemma_fundamental_div_mod(i, cols);
    assert(i / cols < rows && i / cols >= 0 && (i / cols) * cols + i % cols == i)
        by (nonlinear_arith)
        requires
            i == cols * (i / cols) + i % cols,
            0 <= i % cols < cols,
            0 <= i < rows * cols,
    ;
}

/// The element in row `r` and column `c` lies inside the matrix.
pub proof fn cell_position(r: int, c: int, rows: int, cols: int)
    requires
        0 <= r < rows,
        0 <= c < cols,
    ensures
        0 <= r * cols + c < rows * cols,
        (r * cols + c) / cols == r,
        (r * cols + c) % cols == c,
        r * cols + cols <= rows * cols,
{
    assert(0 <= r * cols + c < rows * cols && r * cols + cols <= rows * cols) by (nonlinear_arith)
        requires
            0 <= r < rows,
            0 <= c < cols,
    ;
    lemma_fundamental_div_mod_converse(r * cols + c, cols, r, c);
}

/// Whole rows in front move a position down without changing its column.
pub proof fn shift_by_rows(i: int, n: int, cols: int)
    requires
        cols > 0,
        i >= 0,
        n >= 0,
    ensures
        (n * cols + i) % cols == i % cols,
        (n * cols + i) / cols == n + i / cols,
{
    lemma_fundamental_div_mod(i, cols);
    assert(n * cols + i == (n + i / cols) * cols + i % cols) by (nonlinear_arith)
        requires
            i == cols * (i / cols) + i % cols,
    ;
    lemma_fundamental_div_mod_converse(n * cols + i, cols, n + i / cols, i % cols);
}

/// The largest magnitude of a strided run.
fn run_max(x: &[u32], start: usize, step: usize, n: usize) -> (m: u32)
    requires
        n > 0 ==> start + (n - 1) * step < x@.len(),
    ensures
        m == strided_max(x@, start as int, step as int, n as nat),
        m <= float_bits::INFINITY_BITS,
{
    let mut m: u32 = 0;
    let mut pos: usize = start;
    assert(0 * step == 0);
    for k in 0..n
        invariant
            n > 0 ==> start + (n - 1) * step < x@.len(),
            k < n ==> pos == start + k * step,
            m == strided_max(x@, start as int, step as int, k as nat),
            m <= float_bits::INFINITY_BITS,
    {
        proof {
            assert(k * step <= (n - 1) * step) by (nonlinear_arith)
                requires
                    k <= n - 1,
                    step >= 0,
            ;
        }
        m = float_bits::max_magnitude(m, x[pos]);
        if k + 1 < n {
            proof {
                assert((k + 1) * step == k * step + step) by (nonlinear_arith);
                assert((k + 1) * step <= (n - 1) * step) by (nonlinear_arith)
                    requires
                        k + 1 <= n - 1,
                        step >= 0,
                ;
            }
            pos = pos + step;
        }
    }
    m
}

/// The scale of every group: the largest magnitude of a row (`1.0` for a row of zeros), or the
/// largest magnitude of a column (zero for a column of zeros).
pub fn group_scales(x: &[u32], rows: usize, cols: usize, axis: QAxis) -> (r: Vec<u32>)
    requires
        x@.len() == rows * cols,
    ensures
        r@ == scales_of(x@, rows as int, cols as int, axis),
{
    let mut out: Vec<u32> = Vec::new();
    match axis {
        QAxis::Row => {
            let total: usize = x.len();
            let mut start: usize = 0;
            assert(0 * cols == 0);
            for r in 0..rows
                invariant
                    x@.len() == rows * cols,
                    total == x@.len(),
                    start == r * cols,
                    out@.len() == r,
                    forall|j: int| 0 <= j < r ==> out@[j] == row_scale(x@, cols as int, j),
            {
                proof {
                    assert(r * cols + cols <= rows * cols && (r + 1) * cols == r * cols + cols)
                        by (nonlinear_arith)
                        requires
                            r + 1 <= rows,
                            cols >= 0,
                    ;
                    assert((cols - 1) * 1 == cols - 1);
                }
                let m: u32 = run_max(x, start, 1, cols);
                out.push(
                    if m > 0 {
                        m
                    } else {
                        ONE_BITS
                    },
                );
                start = start + cols;
            }
        },
        QAxis::Col => {
            for c in 0..cols
                invariant
                    x@.len() == rows * cols,
                    out@.len() == c,
                    forall|j: int|
                        0 <= j < c ==> out@[j] == col_scale(x@, rows as int, cols as int, j),
            {
                proof {
                    if rows > 0 {
                        assert(c + (rows - 1) * cols < rows * cols) by (nonlinear_arith)
                            requires
                                c < cols,
                                rows > 0,
                        ;
                    }
                }
                out.push(run_max(x, c, cols, rows));
            }
        },
    }
    assert(out@ =~= scales_of(x@, rows as int, cols as int, axis));
    out
}

/// Settles the column scales that are still zero from new data. Row scales, and columns that
/// are settled already, stay as they are.
pub fn resolve_scales(x: &[u32], rows: usize, cols: usize, axis: QAxis, scales: &[u32]) -> (r: Vec<
    u32,
>)
    requires
        x@.len() == rows * cols,
        axis == QAxis::Col ==> scales@.len() >= cols,
    ensures
        r@ == resolved(x@, rows as int, cols as int, axis, scales@),
{
    let mut out: Vec<u32> = Vec::new();
    for c in 0..scales.len()
        invariant
            x@.len() == rows * cols,
            out@.len() == c,
            forall|j: int|
                0 <= j < c ==> out@[j] == resolved(x@, rows as int, cols as int, axis, scales@)[j],
    {
        let s: u32 = scales[c];
        if axis == QAxis::Col && c < cols && float_bits::is_at_most_zero(s) {
            proof {
                if rows > 0 {
                    assert(c + (rows - 1) * cols < rows * cols) by (nonlinear_arith)
                        requires
                            c < cols,
                            rows > 0,
                    ;
                }
            }
            out.push(run_max(x, c, cols, rows));
        } else {
            out.push(s);
        }
    }
    assert(out@ =~= resolved(x@, rows as int, cols as int, axis, scales@));
    out
}

/// `strided_max` is the maximum: no element that is a number exceeds it, and it is zero or one of
/// the elements' magnitudes.
pub proof fn strided_max_is_the_maximum(x: Seq<u32>, start: int, step: int, n: nat)
    ensures
        strided_max(x, start, step, n) <= float_bits::INFINITY_BITS,
        forall|k: int|
            #![trigger x[start + k * step]]
            0 <= k < n && !float_bits::nan(x[start + k * step]) ==> float_bits::magnitude(
                x[start + k * step],
            ) <= strided_max(x, start, step, n),
        strided_max(x, start, step, n) == 0 || exists|k: int|
            #![trigger x[start + k * step]]
            0 <= k < n && !float_bits::nan(x[start + k * step]) && float_bits::magnitude(
                x[start + k * step],
            ) == strided_max(x, start, step, n),
    decreases n,
{
    if n > 0 {
        let m = (n - 1) as nat;
        strided_max_is_the_maximum(x, start, step, m);
        let last = x[start + m * step];
        if strided_max(x, start, step, n) == strided_max(x, start, step, m) {
            if strided_max(x, start, step, n) != 0 {
                let k = choose|k: int|
                    #![trigger x[start + k * step]]
                    0 <= k < m && !float_bits::nan(x[start + k * step]) && float_bits::magnitude(
                        x[start + k * step],
                    ) == strided_max(x, start, step, m);
                assert(0 <= k < n && float_bits::magnitude(x[start + k * step]) == strided_max(
                    x,
                    start,
                    step,
                    n,
                ));
            }
        } else {
            assert(float_bits::magnitude(last) == strided_max(x, start, step, n));
        }
    }
}

/// A number that is zero, or no number at all, has the code zero under the scale zero.
proof fn lemma_zero_under_zero(v: u32, bits: QBits)
    requires
        float_bits::nan(v) || float_bits::magnitude(v) == 0,
    ensures
        code_of(v, 0, bits) == 0,
{
}

/// The code zero stands for zero under every scale that is a finite number and not negative.
pub proof fn zero_code_is_zero(scale: u32, bits: QBits)
    requires
        float_bits::finite(scale),
        !float_bits::negative(scale),
    ensures
        value_of(0, scale, bits) == 0,
{
    let o = float_bits::one();
    let u = float_bits::units(bits.qmax_bits());
    lemma_pow2_pos(149);
    lemma_pow2_pos(float_bits::doublings(bits.qmax_bits()));
    assert(0 * o == 0);
    lemma_nearest_zero(1);
    assert(code_value(0) == 0);
    assert(float_bits::units(0) == 0) by {
        assert(0 * pow2(float_bits::doublings(0)) == 0);
    }
    assert(u > 0) by (nonlinear_arith)
        requires
            u == float_bits::mantissa(bits.qmax_bits()) * pow2(
                float_bits::doublings(bits.qmax_bits()),
            ),
            float_bits::mantissa(bits.qmax_bits()) > 0,
            pow2(float_bits::doublings(bits.qmax_bits())) > 0,
    ;
    lemma_nearest_zero(u);
    assert(rounding::quotient(0, bits.qmax_bits()) == 0);
    assert(0 * float_bits::units(scale) == 0);
    lemma_nearest_zero(o);
}

proof fn lemma_nearest_zero(den: int)
    requires
        den > 0,
    ensures
        rounding::nearest(0, den) == 0,
{
    lemma_fundamental_div_mod_converse(0, den, 0, 0);
}

/// Whether a column whose scale is zero holds the code zero only, so that any scale may be put in
/// later.
pub open spec fn unsettled_are_zero(
    codes: Seq<i8>,
    cols: int,
    axis: QAxis,
    scales: Seq<u32>,
) -> bool {
    axis == QAxis::Col ==> {
        &&& forall|c: int|
            0 <= c < scales.len() && float_bits::at_most_zero(#[trigger] scales[c]) ==> scales[c]
                == 0
        &&& forall|i: int|
            0 <= i < codes.len() && float_bits::at_most_zero(scales[i % cols])
                ==> #[trigger] codes[i] == 0
    }
}

/// After settling, a column scale is zero only where the new data is zero in that column, so its
/// codes are zero.
pub proof fn settled_codes(
    x: Seq<u32>,
    rows: int,
    cols: int,
    bits: QBits,
    axis: QAxis,
    scales: Seq<u32>,
)
    requires
        x.len() == rows * cols,
        rows >= 0,
        cols >= 0,
        axis == QAxis::Col ==> scales.len() == cols,
    ensures
        unsettled_are_zero(
            codes_under(x, cols, bits, axis, resolved(x, rows, cols, axis, scales)),
            cols,
            axis,
            resolved(x, rows, cols, axis, scales),
        ),
{
    let s = resolved(x, rows, cols, axis, scales);
    let codes = codes_under(x, cols, bits, axis, s);
    if axis == QAxis::Col {
        assert forall|c: int|
            0 <= c < s.len() && float_bits::at_most_zero(#[trigger] s[c]) implies s[c] == 0 by {
            strided_max_is_the_maximum(x, c, cols, rows as nat);
        }
        assert forall|i: int|
            0 <= i < codes.len() && float_bits::at_most_zero(s[i % cols])
                implies #[trigger] codes[i] == 0 by {
            flat_position(i, rows, cols);
            let c = i % cols;
            let r = i / cols;
            strided_max_is_the_maximum(x, c, cols, rows as nat);
            assert(x[c + r * cols] == x[i]);
            lemma_zero_under_zero(x[i], bits);
        }
    }
}

/// A column without infinities gets a finite scale.
pub proof fn new_column_scale_is_finite(x: Seq<u32>, rows: int, cols: int, c: int)
    requires
        x.len() == rows * cols,
        rows >= 0,
        0 <= c < cols,
        forall|i: int| 0 <= i < x.len() ==> !float_bits::infinite(#[trigger] x[i]),
    ensures
        float_bits::finite(col_scale(x, rows, cols, c)),
        !float_bits::negative(col_scale(x, rows, cols, c)),
{
    strided_max_is_the_maximum(x, c, cols, rows as nat);
    let m = col_scale(x, rows, cols, c);
    if m == float_bits::INFINITY_BITS {
        let k = choose|k: int|
            #![trigger x[c + k * cols]]
            0 <= k < rows && !float_bits::nan(x[c + k * cols]) && float_bits::magnitude(
                x[c + k * cols],
            ) == m;
        cell_position(k, c, rows, cols);
        assert(float_bits::infinite(x[c + k * cols]));
    }
}

/// Settled scales are not settled again.
pub proof fn settling_twice_changes_nothing(
    x: Seq<u32>,
    rows: int,
    cols: int,
    axis: QAxis,
    scales: Seq<u32>,
)
    ensures
        resolved(x, rows, cols, axis, resolved(x, rows, cols, axis, scales)) == resolved(
            x,
            rows,
            cols,
            axis,
            scales,
        ),
{
    let once = resolved(x, rows, cols, axis, scales);
    assert(resolved(x, rows, cols, axis, once) =~= once);
}

/// Scales measured on a matrix need no settling on that matrix.
pub proof fn measured_scales_are_settled(x: Seq<u32>, rows: int, cols: int, axis: QAxis)
    ensures
        resolved(x, rows, cols, axis, scales_of(x, rows, cols, axis)) == scales_of(
            x,
            rows,
            cols,
            axis,
        ),
{
    let scales = scales_of(x, rows, cols, axis);
    assert(resolved(x, rows, cols, axis, scales) =~= scales);
}

/// The code of one number.
pub fn encode(v: u32, scale: u32, bits: QBits) -> (r: i8)
    ensures
        r == code_of(v, scale, bits),
        -bits.limit() <= r <= bits.limit(),
{
    let q: u32 = rounding::multiply(rounding::divide(v, scale), bits.qmax());
    proof {
        lemma_whole_range(q, bits.limit());
    }
    rounding::to_whole(q, bits.max_code())
}

/// A rounded value stays inside its limit.
proof fn lemma_whole_range(q: u32, limit: int)
    requires
        limit >= 0,
    ensures
        -limit <= rounding::whole(q, limit) <= limit,
{
    let o = float_bits::one();
    let u = float_bits::units(q);
    lemma_pow2_pos(149);
    lemma_pow2_pos(float_bits::doublings(q));
    assert(u >= 0) by (nonlinear_arith)
        requires
            u == float_bits::mantissa(q) * pow2(float_bits::doublings(q)),
            float_bits::mantissa(q) >= 0,
            pow2(float_bits::doublings(q)) > 0,
    ;
    lemma_div_pos_is_pos(2 * u + o, 2 * o);
}

/// A code never leaves its range.
pub proof fn code_is_in_range(v: u32, scale: u32, bits: QBits)
    ensures
        -bits.limit() <= code_of(v, scale, bits) <= bits.limit(),
{
    lemma_whole_range(
        rounding::product(rounding::quotient(v, scale), bits.qmax_bits()),
        bits.limit(),
    );
}

/// The number equal to a code.
fn code_number(code: i8) -> (r: u32)
    ensures
        r == code_value(code),
{
    let o: Ghost<int> = Ghost(float_bits::one());
    proof {
        lemma_pow2_pos(149);
        assert(-(code * o@) == (-code) * o@) by (nonlinear_arith);
        assert(code < 0 ==> code * o@ < 0) by (nonlinear_arith)
            requires
                o@ > 0,
        ;
        assert(code >= 0 ==> code * o@ >= 0) by (nonlinear_arith)
            requires
                o@ > 0,
        ;
        assert(code < 0 ==> (-code) * o@ > 0) by (nonlinear_arith)
            requires
                o@ > 0,
        ;
        if code < 0 {
            rounding::nearest_is_not_negative((-code) * o@, 1);
        }
    }
    if code < 0 {
        let m: u32 = rounding::from_count((-(code as i64)) as u64);
        SIGN_BIT + m
    } else {
        rounding::from_count(code as u64)
    }
}

/// The number that a code stands for.
pub fn decode(code: i8, scale: u32, bits: QBits) -> (r: u32)
    ensures
        r == value_of(code, scale, bits),
{
    rounding::multiply(rounding::divide(code_number(code), bits.qmax()), scale)
}

/// Quantises one vector under a single scale: its largest magnitude, or `1.0` for zeros.
pub fn quantize_row_sym(x: &[u32], bits: QBits) -> (r: (Vec<i8>, u32))
    ensures
        r.1 == or_one(strided_max(x@, 0, 1, x@.len())),
        r.0@ == Seq::new(x@.len(), |i: int| code_of(x@[i], r.1, bits)),
{
    let n: usize = x.len();
    assert((n - 1) * 1 == n - 1);
    let m: u32 = run_max(x, 0, 1, n);
    let scale: u32 = if m > 0 {
        m
    } else {
        ONE_BITS
    };
    let mut out: Vec<i8> = Vec::new();
    for i in 0..n
        invariant
            n == x@.len(),
            out@.len() == i,
            forall|j: int| 0 <= j < i ==> out@[j] == code_of(x@[j], scale, bits),
    {
        out.push(encode(x[i], scale, bits));
    }
    assert(out@ =~= Seq::new(x@.len(), |i: int| code_of(x@[i], scale, bits)));
    (out, scale)
}

/// The scale that covers flat position `i`.
fn scale_at(scales: &[u32], axis: QAxis, i: usize, cols: usize) -> (r: u32)
    requires
        cols > 0,
        0 <= axis.group_of(i as int, cols as int) < scales@.len(),
    ensures
        r == scales@[axis.group_of(i as int, cols as int)],
{
    match axis {
        QAxis::Row => scales[i / cols],
        QAxis::Col => scales[i % cols],
    }
}

/// Quantises under given scales, without measuring the data again; column scales that are still
/// zero are settled first.
pub fn quantize_with_scales(
    x: &[u32],
    rows: usize,
    cols: usize,
    bits: QBits,
    axis: QAxis,
    scales: &[u32],
) -> (r: Vec<i8>)
    requires
        x@.len() == rows * cols,
        scales@.len() >= axis.groups(rows as int, cols as int),
    ensures
        r@ == codes_under(
            x@,
            cols as int,
            bits,
            axis,
            resolved(x@, rows as int, cols as int, axis, scales@),
        ),
        forall|i: int| 0 <= i < r@.len() ==> -bits.limit() <= #[trigger] r@[i] <= bits.limit(),
{
    let settled: Vec<u32> = resolve_scales(x, rows, cols, axis, scales);
    let mut out: Vec<i8> = Vec::new();
    for i in 0..x.len()
        invariant
            x@.len() == rows * cols,
            settled@.len() >= axis.groups(rows as int, cols as int),
            out@.len() == i,
            forall|j: int|
                0 <= j < i ==> out@[j] == code_of(
                    x@[j],
                    settled@[axis.group_of(j, cols as int)],
                    bits,
                ),
            forall|j: int| 0 <= j < i ==> -bits.limit() <= #[trigger] out@[j] <= bits.limit(),
    {
        proof {
            flat_position(i as int, rows as int, cols as int);
        }
        out.push(encode(x[i], scale_at(&settled, axis, i, cols), bits));
    }
    assert(out@ =~= codes_under(x@, cols as int, bits, axis, settled@));
    out
}

/// Turns codes back into numbers.
pub fn dequantize_with_scales(
    codes: &[i8],
    rows: usize,
    cols: usize,
    bits: QBits,
    axis: QAxis,
    scales: &[u32],
) -> (r: Vec<u32>)
    requires
        codes@.len() == rows * cols,
        scales@.len() >= axis.groups(rows as int, cols as int),
    ensures
        r@ == values_under(codes@, cols as int, bits, axis, scales@),
{
    let mut out: Vec<u32> = Vec::new();
    for i in 0..codes.len()
        invariant
            codes@.len() == rows * cols,
            scales@.len() >= axis.groups(rows as int, cols as int),
            out@.len() == i,
            forall|j: int|
                0 <= j < i ==> out@[j] == value_of(
                    codes@[j],
                    scales@[axis.group_of(j, cols as int)],
                    bits,
                ),
    {
        proof {
            flat_position(i as int, rows as int, cols as int);
        }
        out.push(decode(codes[i], scale_at(scales, axis, i, cols), bits));
    }
    assert(out@ =~= values_under(codes@, cols as int, bits, axis, scales@));
    out
}

/// How far a quantised signal is from the original.
#[derive(Clone, Copy, Debug, PartialEq, Eq, Structural)]
pub struct QuantError {
    /// Largest absolute error.
    pub max_abs: u32,
    /// Root mean square error.
    pub rmse: u32,
    /// Root mean square error over the root mean square of the signal.
    pub relative: u32,
}

/// Largest `|x[i] - y[i]|` over the first `k` positions; differences that are no number are
/// passed over.
pub open spec fn max_difference(x: Seq<u32>, y: Seq<u32>, k: nat) -> u32
    decreases k,
{
    if k == 0 {
        0
    } else {
        float_bits::larger_magnitude(
            max_difference(x, y, (k - 1) as nat),
            rounding::difference(x[k - 1], y[k - 1]),
        )
    }
}

/// The running sum of squared differences over the first `k` positions.
pub open spec fn squared_error(x: Seq<u32>, y: Seq<u32>, k: nat) -> u32
    decreases k,
{
    if k == 0 {
        0
    } else {
        let d = rounding::difference(x[k - 1], y[k - 1]);
        rounding::sum(squared_error(x, y, (k - 1) as nat), rounding::product(d, d))
    }
}

/// The running sum of squares over the first `k` positions.
pub open spec fn energy(x: Seq<u32>, k: nat) -> u32
    decreases k,
{
    if k == 0 {
        0
    } else {
        rounding::sum(energy(x, (k - 1) as nat), rounding::product(x[k - 1], x[k - 1]))
    }
}

/// The error report of two signals of equal length.
pub open spec fn error_of(x: Seq<u32>, y: Seq<u32>) -> QuantError {
    let n = rounding::count_value(
        if x.len() == 0 {
            1
        } else {
            x.len() as int
        },
    );
    let rmse = roots::root(rounding::quotient(squared_error(x, y, x.len()), n));
    let rms = roots::root(rounding::quotient(energy(x, x.len()), n));
    QuantError {
        max_abs: max_difference(x, y, x.len()),
        rmse,
        relative: if float_bits::positive(rms) {
            rounding::quotient(rmse, rms)
        } else {
            0
        },
    }
}

/// Measures the quantisation error of `xq` against `x`.
pub fn quant_error(x: &[u32], xq: &[u32]) -> (r: QuantError)
    requires
        x@.len() == xq@.len(),
    ensures
        r == error_of(x@, xq@),
{
    let len: usize = x.len();
    let n: u32 = rounding::from_count(
        if len == 0 {
            1
        } else {
            len as u64
        },
    );
    let mut max_abs: u32 = 0;
    let mut total: u32 = 0;
    let mut signal: u32 = 0;
    for i in 0..len
        invariant
            len == x@.len(),
            x@.len() == xq@.len(),
            max_abs == max_difference(x@, xq@, i as nat),
            total == squared_error(x@, xq@, i as nat),
            signal == energy(x@, i as nat),
    {
        let d: u32 = rounding::minus(x[i], xq[i]);
        max_abs = float_bits::max_magnitude(max_abs, d);
        total = rounding::plus(total, rounding::multiply(d, d));
        signal = rounding::plus(signal, rounding::multiply(x[i], x[i]));
    }
    let rmse: u32 = roots::square_root(rounding::divide(total, n));
    let rms: u32 = roots::square_root(rounding::divide(signal, n));
    let relative: u32 = if float_bits::is_positive(rms) {
        rounding::divide(rmse, rms)
    } else {
        0
    };
    QuantError { max_abs, rmse, relative }
}

} // verus!
