//! A quantised matrix: packed codes and one scale per row or per column.

use crate::codes;
use crate::codes::QBits;
use crate::float_bits;
use crate::float_bits::ONE_BITS;
use crate::quant;
use crate::quant::QAxis;
use vstd::prelude::*;

verus! {

/// A row-major quantised matrix.
#[derive(Clone, Debug)]
pub struct QMatrix {
    bytes: Vec<u8>,
    scales: Vec<u32>,
    bits: QBits,
    axis: QAxis,
    rows: usize,
    cols: usize,
}

impl QMatrix {
    /// The codes, row by row.
    pub closed spec fn codes(&self) -> Seq<i8> {
        codes::codes_of(self.bytes@, self.bits, self.rows * self.cols)
    }

    /// The scales, one per group.
    pub closed spec fn scale_seq(&self) -> Seq<u32> {
        self.scales@
    }

    pub closed spec fn width(&self) -> QBits {
        self.bits
    }

    pub closed spec fn grouping(&self) -> QAxis {
        self.axis
    }

    pub closed spec fn row_count(&self) -> int {
        self.rows as int
    }

    pub closed spec fn col_count(&self) -> int {
        self.cols as int
    }

    /// The codes fill the matrix, their bytes are the packed form of them, and every group has
    /// its scale.
    pub closed spec fn wf(&self) -> bool {
        &&& self.bytes@ == codes::bytes_of(self.codes(), self.bits)
        &&& self.codes().len() == self.rows * self.cols
        &&& self.rows * self.cols <= usize::MAX
        &&& self.scales@.len() == self.axis.groups(self.rows as int, self.cols as int)
        &&& quant::unsettled_are_zero(self.codes(), self.cols as int, self.axis, self.scales@)
    }

    /// The numbers that the matrix stands for.
    pub open spec fn values(&self) -> Seq<u32> {
        quant::values_under(
            self.codes(),
            self.col_count(),
            self.width(),
            self.grouping(),
            self.scale_seq(),
        )
    }

    /// Bytes of codes and scales.
    pub open spec fn size(&self) -> int {
        codes::packed_size(self.row_count() * self.col_count(), self.width()) + 4
            * self.scale_seq().len()
    }

    /// What `wf` means for the parts that callers see.
    pub proof fn shape(&self)
        requires
            self.wf(),
        ensures
            self.row_count() >= 0,
            self.col_count() >= 0,
            self.row_count() * self.col_count() <= usize::MAX,
            self.codes().len() == self.row_count() * self.col_count(),
            self.scale_seq().len() == self.grouping().groups(self.row_count(), self.col_count()),
            quant::unsettled_are_zero(
                self.codes(),
                self.col_count(),
                self.grouping(),
                self.scale_seq(),
            ),
    {
    }

    /// Packs codes that fit the bit width.
    fn assemble(
        codes: &[i8],
        scales: Vec<u32>,
        bits: QBits,
        axis: QAxis,
        rows: usize,
        cols: usize,
    ) -> (m: QMatrix)
        requires
            codes@.len() == rows * cols,
            scales@.len() == axis.groups(rows as int, cols as int),
            forall|i: int| 0 <= i < codes@.len() ==> bits.holds(#[trigger] codes@[i] as int),
            quant::unsettled_are_zero(codes@, cols as int, axis, scales@),
        ensures
            m.wf(),
            m.codes() == codes@,
            m.scale_seq() == scales@,
            m.width() == bits,
            m.grouping() == axis,
            m.row_count() == rows,
            m.col_count() == cols,
    {
        let n: usize = codes.len();
        let bytes: Vec<u8> = codes::pack_codes(codes, bits);
        proof {
            codes::unpack_undoes_pack(codes@, bits);
        }
        QMatrix { bytes, scales, bits, axis, rows, cols }
    }

    /// Quantises a matrix under scales measured on it.
    pub fn quantize(x: &[u32], rows: usize, cols: usize, bits: QBits, axis: QAxis) -> (m: Self)
        requires
            x@.len() == rows * cols,
        ensures
            m.wf(),
            m.scale_seq() == quant::scales_of(x@, rows as int, cols as int, axis),
            m.codes() == quant::codes_under(x@, cols as int, bits, axis, m.scale_seq()),
            m.width() == bits,
            m.grouping() == axis,
            m.row_count() == rows,
            m.col_count() == cols,
    {
        let scales: Vec<u32> = quant::group_scales(x, rows, cols, axis);
        proof {
            quant::measured_scales_are_settled(x@, rows as int, cols as int, axis);
        }
        Self::quantize_with_scales(x, rows, cols, bits, axis, &scales)
    }

    /// Quantises under given scales; the ones that are still zero are settled first, and the
    /// scales that are kept are the ones that were used.
    pub fn quantize_with_scales(
        x: &[u32],
        rows: usize,
        cols: usize,
        bits: QBits,
        axis: QAxis,
        scales: &[u32],
    ) -> (m: Self)
        requires
            x@.len() == rows * cols,
            scales@.len() == axis.groups(rows as int, cols as int),
        ensures
            m.wf(),
            m.scale_seq() == quant::resolved(x@, rows as int, cols as int, axis, scales@),
            m.codes() == quant::codes_under(x@, cols as int, bits, axis, m.scale_seq()),
            m.width() == bits,
            m.grouping() == axis,
            m.row_count() == rows,
            m.col_count() == cols,
    {
        let settled: Vec<u32> = quant::resolve_scales(x, rows, cols, axis, scales);
        let codes: Vec<i8> = quant::quantize_with_scales(x, rows, cols, bits, axis, &settled);
        proof {
            quant::settling_twice_changes_nothing(x@, rows as int, cols as int, axis, scales@);
            quant::settled_codes(x@, rows as int, cols as int, bits, axis, scales@);
        }
        Self::assemble(&codes, settled, bits, axis, rows, cols)
    }

    /// A matrix of zeros whose scales are all `1.0`.
    pub fn zeros(rows: usize, cols: usize, bits: QBits, axis: QAxis) -> (m: Self)
        requires
            rows * cols <= usize::MAX,
        ensures
            m.wf(),
            m.codes() == Seq::new((rows * cols) as nat, |i: int| 0i8),
            m.scale_seq() == Seq::new(
                axis.groups(rows as int, cols as int) as nat,
                |i: int| ONE_BITS,
            ),
            m.width() == bits,
            m.grouping() == axis,
            m.row_count() == rows,
            m.col_count() == cols,
    {
        let n: usize = match axis {
            QAxis::Row => rows,
            QAxis::Col => cols,
        };
        let codes: Vec<i8> = vec![0i8; rows * cols];
        let scales: Vec<u32> = vec![ONE_BITS; n];
        assert(codes@ =~= Seq::new((rows * cols) as nat, |i: int| 0i8));
        assert(scales@ =~= Seq::new(n as nat, |i: int| ONE_BITS));
        assert forall|i: int|
            0 <= i < codes@.len() && float_bits::at_most_zero(scales@[i % (cols as int)])
                implies #[trigger] codes@[i] == 0 by {
            quant::flat_position(i, rows as int, cols as int);
        }
        Self::assemble(&codes, scales, bits, axis, rows, cols)
    }

    pub fn rows(&self) -> (r: usize)
        ensures
            r == self.row_count(),
    {
        self.rows
    }

    pub fn cols(&self) -> (r: usize)
        ensures
            r == self.col_count(),
    {
        self.cols
    }

    pub fn bits(&self) -> (r: QBits)
        ensures
            r == self.width(),
    {
        self.bits
    }

    pub fn axis(&self) -> (r: QAxis)
        ensures
            r == self.grouping(),
    {
        self.axis
    }

    /// The scales.
    pub fn scales(&self) -> (r: &[u32])
        ensures
            r@ == self.scale_seq(),
    {
        self.scales.as_slice()
    }

    /// The packed codes.
    pub fn bytes(&self) -> (r: &[u8])
        requires
            self.wf(),
        ensures
            r@ == codes::bytes_of(self.codes(), self.width()),
    {
        self.bytes.as_slice()
    }

    /// Bytes taken by codes and scales.
    pub fn byte_len(&self) -> (r: usize)
        requires
            self.wf(),
            self.size() <= usize::MAX,
        ensures
            r == self.size(),
    {
        proof {
            assert(self.bytes@.len() == codes::packed_size(self.rows * self.cols, self.bits));
        }
        self.bytes.len() + self.scales.len() * 4
    }

    /// All codes.
    fn unpacked(&self) -> (r: Vec<i8>)
        requires
            self.wf(),
        ensures
            r@ == self.codes(),
            forall|i: int| 0 <= i < r@.len() ==> self.width().holds(#[trigger] r@[i] as int),
    {
        proof {
            codes::unpacked_codes_fit(self.bytes@, self.bits, self.rows * self.cols);
        }
        codes::unpack_codes(&self.bytes, self.bits, self.rows * self.cols)
    }

    /// The whole matrix as numbers.
    pub fn dequantize(&self) -> (r: Vec<u32>)
        requires
            self.wf(),
        ensures
            r@ == self.values(),
    {
        let codes: Vec<i8> = self.unpacked();
        quant::dequantize_with_scales(
            &codes,
            self.rows,
            self.cols,
            self.bits,
            self.axis,
            &self.scales,
        )
    }

    /// Row `i` as numbers.
    pub fn row(&self, i: usize) -> (r: Vec<u32>)
        requires
            self.wf(),
            i < self.row_count(),
        ensures
            r@ == self.values().subrange(
                i * self.col_count(),
                i * self.col_count() + self.col_count(),
            ),
    {
        let codes: Vec<i8> = self.unpacked();
        let cols: usize = self.cols;
        let total: usize = codes.len();
        let mut out: Vec<u32> = Vec::new();
        proof {
            assert(i * cols + cols <= self.rows * cols) by (nonlinear_arith)
                requires
                    i + 1 <= self.rows,
                    cols >= 0,
            ;
        }
        let start: usize = i * cols;
        for c in 0..cols
            invariant
                self.wf(),
                codes@ == self.codes(),
                codes@.len() == total,
                cols == self.cols,
                i < self.rows,
                start == i * cols,
                start + cols <= total,
                out@.len() == c,
                forall|j: int| 0 <= j < c ==> out@[j] == self.values()[start + j],
        {
            let s: u32 = match self.axis {
                QAxis::Row => self.scales[i],
                QAxis::Col => self.scales[c],
            };
            proof {
                quant::cell_position(i as int, c as int, self.rows as int, cols as int);
            }
            out.push(quant::decode(codes[start + c], s, self.bits));
        }
        assert(out@ =~= self.values().subrange(start as int, start + cols));
        out
    }

    /// Appends rows. With one scale per row the new rows bring their own scales. With one scale
    /// per column the scales are frozen, because the codes already stored depend on them; only a
    /// column that held nothing but zeros takes its scale from the new rows.
    #[verifier::rlimit(60)]
    pub fn push_rows(&mut self, x: &[u32], new_rows: usize)
        requires
            old(self).wf(),
            x@.len() == new_rows * old(self).col_count(),
            old(self).row_count() + new_rows <= usize::MAX,
            (old(self).row_count() + new_rows) * old(self).col_count() <= usize::MAX,
        ensures
            final(self).wf(),
            is_extended(*old(self), x@, new_rows as int, *final(self)),
    {
        let cols: usize = self.cols;
        let rows: usize = self.rows;
        let bits: QBits = self.bits;
        let axis: QAxis = self.axis;
        let mut codes: Vec<i8> = self.unpacked();
        let ghost before = codes@;
        let mut scales: Vec<u32> = self.scales.clone();
        assert(scales@ =~= self.scales@);
        let mut fresh: Vec<i8> = Vec::new();
        match axis {
            QAxis::Row => {
                let mut own: Vec<u32> = quant::group_scales(x, new_rows, cols, QAxis::Row);
                fresh = quant::quantize_with_scales(x, new_rows, cols, bits, QAxis::Row, &own);
                proof {
                    quant::measured_scales_are_settled(
                        x@,
                        new_rows as int,
                        cols as int,
                        QAxis::Row,
                    );
                }
                scales.append(&mut own);
            },
            QAxis::Col => {
                scales = quant::resolve_scales(x, new_rows, cols, QAxis::Col, &scales);
                fresh = quant::quantize_with_scales(x, new_rows, cols, bits, QAxis::Col, &scales);
                proof {
                    quant::settling_twice_changes_nothing(
                        x@,
                        new_rows as int,
                        cols as int,
                        QAxis::Col,
                        self.scales@,
                    );
                }
            },
        }
        let ghost added = fresh@;
        codes.append(&mut fresh);
        proof {
            assert((rows + new_rows) * cols == rows * cols + new_rows * cols)
                by (nonlinear_arith);
            if axis == QAxis::Col {
                quant::settled_codes(
                    x@,
                    new_rows as int,
                    cols as int,
                    bits,
                    axis,
                    self.scales@,
                );
                assert forall|i: int|
                    0 <= i < codes@.len() && float_bits::at_most_zero(
                        scales@[i % (cols as int)],
                    ) implies #[trigger] codes@[i] == 0 by {
                    quant::flat_position(i, rows + new_rows, cols as int);
                    if i < before.len() {
                        assert(codes@[i] == before[i]);
                        let c = i % (cols as int);
                        assert(float_bits::at_most_zero(self.scales@[c]));
                    } else {
                        let k = i - before.len();
                        assert(codes@[i] == added[k]);
                        quant::flat_position(k, new_rows as int, cols as int);
                        quant::shift_by_rows(k, rows as int, cols as int);
                    }
                }
            }
        }
        let m: QMatrix = Self::assemble(&codes, scales, bits, axis, rows + new_rows, cols);
        proof {
            if forall|i: int| 0 <= i < x@.len() ==> !float_bits::infinite(#[trigger] x@[i]) {
                let kept = m.values().take(before.len() as int);
                assert forall|i: int| 0 <= i < before.len() implies kept[i] == self.values()[i] by {
                    quant::flat_position(i, rows as int, cols as int);
                    assert(m.codes()[i] == before[i]);
                    let c = i % (cols as int);
                    if axis == QAxis::Col && float_bits::at_most_zero(self.scales@[c]) {
                        quant::new_column_scale_is_finite(x@, new_rows as int, cols as int, c);
                        quant::zero_code_is_zero(m.scale_seq()[c], bits);
                        quant::zero_code_is_zero(0, bits);
                    }
                }
                assert(kept =~= self.values());
            }
        }
        *self = m;
    }

    /// Removes the first `n` rows; the rows that stay keep their codes and scales.
    #[verifier::rlimit(60)]
    pub fn drop_front_rows(&mut self, n: usize)
        requires
            old(self).wf(),
            n <= old(self).row_count(),
        ensures
            final(self).wf(),
            final(self).row_count() == old(self).row_count() - n,
            final(self).col_count() == old(self).col_count(),
            final(self).width() == old(self).width(),
            final(self).grouping() == old(self).grouping(),
            final(self).codes() == old(self).codes().skip(n * old(self).col_count()),
            final(self).scale_seq() == match old(self).grouping() {
                QAxis::Row => old(self).scale_seq().skip(n as int),
                QAxis::Col => old(self).scale_seq(),
            },
            final(self).values() == old(self).values().skip(n * old(self).col_count()),
    {
        if n == 0 {
            proof {
                assert(0 * self.cols == 0);
                assert(self.codes().skip(0) =~= self.codes());
                assert(self.scales@.skip(0) =~= self.scales@);
                assert(self.values().skip(0) =~= self.values());
            }
            return;
        }
        let cols: usize = self.cols;
        let left: usize = self.rows - n;
        let axis: QAxis = self.axis;
        let mut codes: Vec<i8> = self.unpacked();
        let ghost before = codes@;
        proof {
            assert(n * cols + left * cols == self.rows * cols) by (nonlinear_arith)
                requires
                    n + left == self.rows,
            ;
            assert(left * cols >= 0) by (nonlinear_arith)
                requires
                    left >= 0,
                    cols >= 0,
            ;
        }
        let kept: Vec<i8> = codes.split_off(n * cols);
        assert(kept@ =~= before.skip(n * cols));
        let mut scales: Vec<u32> = self.scales.clone();
        assert(scales@ =~= self.scales@);
        if axis == QAxis::Row {
            scales = scales.split_off(n);
            assert(scales@ =~= self.scales@.skip(n as int));
        }
        proof {
            if axis == QAxis::Col {
                assert forall|i: int|
                    0 <= i < kept@.len() && float_bits::at_most_zero(
                        scales@[i % (cols as int)],
                    ) implies #[trigger] kept@[i] == 0 by {
                    quant::flat_position(i, left as int, cols as int);
                    quant::shift_by_rows(i, n as int, cols as int);
                    assert(kept@[i] == before[n * cols + i]);
                }
            }
        }
        let m: QMatrix = Self::assemble(&kept, scales, self.bits, axis, left, cols);
        proof {
            let expected = self.values().skip(n * cols);
            assert(m.values().len() == expected.len());
            assert forall|i: int| 0 <= i < expected.len() implies m.values()[i] == expected[i] by {
                quant::flat_position(i, left as int, cols as int);
                quant::shift_by_rows(i, n as int, cols as int);
                assert(m.codes()[i] == self.codes()[n * cols + i]);
            }
            assert(m.values() =~= expected);
        }
        *self = m;
    }

    /// Removes the last `n` rows; the rows that stay keep their codes and scales.
    #[verifier::rlimit(60)]
    pub fn drop_back_rows(&mut self, n: usize)
        requires
            old(self).wf(),
            n <= old(self).row_count(),
        ensures
            final(self).wf(),
            is_cut_back(*old(self), n as int, *final(self)),
    {
        if n == 0 {
            proof {
                assert(self.codes().take(self.rows * self.cols) =~= self.codes());
                assert(self.scales@.take(self.scales@.len() as int) =~= self.scales@);
                assert(self.values().take(self.rows * self.cols) =~= self.values());
            }
            return;
        }
        let cols: usize = self.cols;
        let left: usize = self.rows - n;
        let axis: QAxis = self.axis;
        let mut codes: Vec<i8> = self.unpacked();
        let ghost before = codes@;
        proof {
            assert(0 <= left * cols <= self.rows * cols) by (nonlinear_arith)
                requires
                    0 <= left <= self.rows,
                    cols >= 0,
            ;
        }
        codes.truncate(left * cols);
        assert(codes@ =~= before.take(left * cols));
        let mut scales: Vec<u32> = self.scales.clone();
        assert(scales@ =~= self.scales@);
        if axis == QAxis::Row {
            scales.truncate(left);
            assert(scales@ =~= self.scales@.take(left as int));
        }
        proof {
            if axis == QAxis::Col {
                assert forall|i: int|
                    0 <= i < codes@.len() && float_bits::at_most_zero(
                        scales@[i % (cols as int)],
                    ) implies #[trigger] codes@[i] == 0 by {
                    assert(codes@[i] == before[i]);
                }
            }
        }
        let m: QMatrix = Self::assemble(&codes, scales, self.bits, axis, left, cols);
        proof {
            let expected = self.values().take(left * cols);
            assert(m.values().len() == expected.len());
            assert forall|i: int| 0 <= i < expected.len() implies m.values()[i] == expected[i] by {
                quant::flat_position(i, left as int, cols as int);
                assert(m.codes()[i] == self.codes()[i]);
            }
            assert(m.values() =~= expected);
        }
        *self = m;
    }
}

/// Whether `b` is `a` with rows added at the end: rows bring their own scales, columns keep theirs
/// where they have one. What was there keeps its values as long as nothing infinite is added.
pub open spec fn is_extended(a: QMatrix, x: Seq<u32>, rows: int, b: QMatrix) -> bool {
    let cols = a.col_count();
    let own = quant::scales_of(x, rows, cols, QAxis::Row);
    &&& b.row_count() == a.row_count() + rows
    &&& b.col_count() == cols
    &&& b.width() == a.width()
    &&& b.grouping() == a.grouping()
    &&& b.scale_seq() == match a.grouping() {
        QAxis::Row => a.scale_seq() + own,
        QAxis::Col => quant::resolved(x, rows, cols, QAxis::Col, a.scale_seq()),
    }
    &&& b.codes() == a.codes() + quant::codes_under(
        x,
        cols,
        a.width(),
        a.grouping(),
        match a.grouping() {
            QAxis::Row => own,
            QAxis::Col => b.scale_seq(),
        },
    )
    &&& (forall|i: int| 0 <= i < x.len() ==> !float_bits::infinite(#[trigger] x[i]))
        ==> b.values().take(a.values().len() as int) == a.values()
}

/// Whether `b` is `a` without its last `n` rows.
pub open spec fn is_cut_back(a: QMatrix, n: int, b: QMatrix) -> bool {
    let left = a.row_count() - n;
    &&& b.row_count() == left
    &&& b.col_count() == a.col_count()
    &&& b.width() == a.width()
    &&& b.grouping() == a.grouping()
    &&& b.codes() == a.codes().take(left * a.col_count())
    &&& b.scale_seq() == match a.grouping() {
        QAxis::Row => a.scale_seq().take(left),
        QAxis::Col => a.scale_seq(),
    }
    &&& b.values() == a.values().take(left * a.col_count())
}

/// Rows that were added and dropped again leave no trace in the numbers: neither in the codes and
/// their bytes nor in the values, and with a scale per row not in the scales either. With a scale
/// per column, the scales that were positive stay.
pub proof fn rolling_back_undoes_pushing(
    a: QMatrix,
    x: Seq<u32>,
    rows: int,
    b: QMatrix,
    c: QMatrix,
)
    requires
        a.wf(),
        rows >= 0,
        forall|i: int| 0 <= i < x.len() ==> !float_bits::infinite(#[trigger] x[i]),
        is_extended(a, x, rows, b),
        is_cut_back(b, rows, c),
    ensures
        c.row_count() == a.row_count(),
        c.col_count() == a.col_count(),
        c.width() == a.width(),
        c.grouping() == a.grouping(),
        c.codes() == a.codes(),
        codes::bytes_of(c.codes(), c.width()) == codes::bytes_of(a.codes(), a.width()),
        c.values() == a.values(),
        c.scale_seq().len() == a.scale_seq().len(),
        a.grouping() == QAxis::Row ==> c.scale_seq() == a.scale_seq(),
        forall|j: int|
            0 <= j < a.scale_seq().len() && float_bits::positive(#[trigger] a.scale_seq()[j])
                ==> c.scale_seq()[j] == a.scale_seq()[j],
{
    a.shape();
    assert(c.codes() =~= a.codes());
    assert(a.values().len() == a.row_count() * a.col_count());
    if a.grouping() == QAxis::Row {
        assert(c.scale_seq() =~= a.scale_seq());
    }
}

} // verus!
