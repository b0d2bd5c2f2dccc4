//! Quantisation with error compensation: the rounding error of one input channel is passed on to
//! the channels that are still to come, in proportion to the inverse second moments.

use crate::calib::HessianKind;
use crate::codes::QBits;
use crate::float_bits;
use crate::linalg;
use crate::qmatrix::QMatrix;
use crate::quant;
use crate::quant::QAxis;
use crate::rounding;
use vstd::prelude::*;

verus! {

/// Channels per block by default.
pub const GPTQ_BLOCK: usize = 128;

/// The bit pattern of `0.01`, the default damping factor.
pub const GPTQ_DAMP: u32 = 0x3c23_d70a;

/// Options of the compensated quantisation.
#[derive(Clone, Copy, Debug, PartialEq, Eq, Structural)]
pub struct GptqOpts {
    /// Whether channels are taken in order of falling second moment.
    pub act_order: bool,
    /// Damping as a fraction of the mean second moment; a bit pattern.
    pub damp: u32,
    /// Channels per block; zero for a single block.
    pub block: usize,
}

impl Default for GptqOpts {
    fn default() -> (r: Self)
        ensures
            r == (GptqOpts { act_order: true, damp: GPTQ_DAMP, block: GPTQ_BLOCK }),
    {
        GptqOpts { act_order: true, damp: GPTQ_DAMP, block: GPTQ_BLOCK }
    }
}

/// The numeric order of numbers as whole numbers: the two zeros coincide.
pub open spec fn numeric(x: u32) -> int {
    if float_bits::negative(x) {
        -(float_bits::magnitude(x) as int)
    } else {
        float_bits::magnitude(x) as int
    }
}

/// Whether channel `a` comes strictly before channel `b`: larger numbers first, what is no number
/// last, and the lower index first among equals.
pub open spec fn before(diag: Seq<u32>, a: int, b: int) -> bool {
    let (x, y) = (diag[a], diag[b]);
    if float_bits::nan(x) {
        float_bits::nan(y) && a < b
    } else if float_bits::nan(y) {
        true
    } else {
        numeric(x) > numeric(y) || (numeric(x) == numeric(y) && a < b)
    }
}

/// Whether `order` lists every index below `n` exactly once.
pub open spec fn is_permutation(order: Seq<usize>, n: int) -> bool {
    &&& order.len() == n
    &&& forall|i: int| 0 <= i < order.len() ==> 0 <= #[trigger] order[i] < n
    &&& forall|i: int, j: int|
        0 <= i < j < order.len() ==> #[trigger] order[i] != #[trigger] order[j]
}

/// The numeric order of a pattern as a machine integer.
pub fn numeric_key(x: u32) -> (r: i64)
    ensures
        r == numeric(x),
{
    if float_bits::is_negative(x) {
        -(float_bits::abs_bits(x) as i64)
    } else {
        float_bits::abs_bits(x) as i64
    }
}

fn comes_before(diag: &[u32], a: usize, b: usize) -> (r: bool)
    requires
        a < diag@.len(),
        b < diag@.len(),
    ensures
        r == before(diag@, a as int, b as int),
{
    let x: u32 = diag[a];
    let y: u32 = diag[b];
    if float_bits::is_nan(x) {
        float_bits::is_nan(y) && a < b
    } else if float_bits::is_nan(y) {
        true
    } else {
        let kx: i64 = numeric_key(x);
        let ky: i64 = numeric_key(y);
        kx > ky || (kx == ky && a < b)
    }
}

/// The order in which channels are quantised: as they are, or by falling second moment.
pub fn order_by_importance(diag: &[u32], act_order: bool) -> (order: Vec<usize>)
    ensures
        is_permutation(order@, diag@.len() as int),
        act_order ==> forall|i: int, j: int|
            0 <= i < j < order@.len() ==> before(
                diag@,
                #[trigger] order@[i] as int,
                #[trigger] order@[j] as int,
            ),
        !act_order ==> forall|i: int| 0 <= i < order@.len() ==> #[trigger] order@[i] == i,
{
    let n: usize = diag.len();
    let mut order: Vec<usize> = Vec::new();
    for k in 0..n
        invariant
            n == diag@.len(),
            order@.len() == k,
            forall|i: int| 0 <= i < k ==> 0 <= #[trigger] order@[i] < k,
            forall|i: int, j: int|
                0 <= i < j < k ==> #[trigger] order@[i] != #[trigger] order@[j],
            act_order ==> forall|i: int, j: int|
                0 <= i < j < k ==> before(
                    diag@,
                    #[trigger] order@[i] as int,
                    #[trigger] order@[j] as int,
                ),
            !act_order ==> forall|i: int| 0 <= i < k ==> #[trigger] order@[i] == i,
    {
        let mut pos: usize = k;
        if act_order {
            while pos > 0 && comes_before(diag, k, order[pos - 1])
                invariant
                    n == diag@.len(),
                    k < n,
                    order@.len() == k,
                    pos <= k,
                    forall|i: int| 0 <= i < k ==> 0 <= #[trigger] order@[i] < k,
                    forall|j: int|
                        pos <= j < k ==> before(diag@, k as int, #[trigger] order@[j] as int),
                decreases pos,
            {
                pos = pos - 1;
            }
        }
        let ghost prev = order@;
        order.insert(pos, k);
        proof {
            if act_order {
                assert forall|i: int, j: int| 0 <= i < j < k + 1 implies before(
                    diag@,
                    #[trigger] order@[i] as int,
                    #[trigger] order@[j] as int,
                ) by {
                    let a = if i < pos {
                        i
                    } else {
                        i - 1
                    };
                    let b = if j < pos {
                        j
                    } else {
                        j - 1
                    };
                    if j == pos {
                        assert(order@[i] == prev[i]);
                        if i == pos - 1 {
                        } else {
                            assert(before(diag@, prev[i] as int, prev[pos - 1] as int));
                        }
                    } else if i == pos {
                        assert(order@[j] == prev[b]);
                    } else {
                        assert(order@[i] == prev[a] && order@[j] == prev[b]);
                    }
                }
            }
        }
    }
    order
}

/// `h` with rows and columns taken in the order `perm`.
pub open spec fn permuted(h: Seq<u32>, n: int, perm: Seq<usize>) -> Seq<u32> {
    Seq::new(
        (n * n) as nat,
        |p: int| linalg::cell(h, n, perm[p / n] as int, perm[p % n] as int),
    )
}

/// Takes rows and columns of a square matrix in the same order.
pub fn permute_sym(h: &[u32], n: usize, perm: &[usize]) -> (r: Vec<u32>)
    requires
        h@.len() == n * n,
        perm@.len() == n,
        forall|i: int| 0 <= i < n ==> 0 <= #[trigger] perm@[i] < n,
    ensures
        r@ == permuted(h@, n as int, perm@),
{
    let total: usize = h.len();
    let mut out: Vec<u32> = Vec::new();
    for p in 0..total
        invariant
            total == h@.len(),
            h@.len() == n * n,
            perm@.len() == n,
            forall|i: int| 0 <= i < n ==> 0 <= #[trigger] perm@[i] < n,
            out@.len() == p,
            forall|q: int| 0 <= q < p ==> out@[q] == permuted(h@, n as int, perm@)[q],
    {
        proof {
            quant::flat_position(p as int, n as int, n as int);
        }
        let i: usize = perm[p / n];
        let j: usize = perm[p % n];
        proof {
            quant::cell_position(i as int, j as int, n as int, n as int);
        }
        out.push(h[i * n + j]);
    }
    assert(out@ =~= permuted(h@, n as int, perm@));
    out
}

/// A compensated quantisation: the weights, the order of their rows, the inverse second moments in
/// that order, and the block size.
pub struct Problem {
    pub w: Seq<u32>,
    pub rows: int,
    pub cols: int,
    pub bits: QBits,
    pub axis: QAxis,
    pub perm: Seq<usize>,
    pub hinv: Option<Seq<u32>>,
    pub block: int,
}

impl Problem {
    /// The scale of column `c` of a row that is about to be quantised. Column scales are those of
    /// the weights before any compensation.
    pub open spec fn scale(self, row: Seq<u32>, c: int) -> u32 {
        match self.axis {
            QAxis::Row => quant::or_one(quant::strided_max(row, 0, 1, row.len())),
            QAxis::Col => quant::col_scale(self.w, self.rows, self.cols, c),
        }
    }

    /// What a number of a row is rounded to.
    pub open spec fn rounded(self, row: Seq<u32>, c: int) -> u32 {
        quant::value_of(
            quant::code_of(row[c], self.scale(row, c), self.bits),
            self.scale(row, c),
            self.bits,
        )
    }

    /// Whether row `i` passes its error on: there is an inverse, and its diagonal element is a
    /// finite number other than zero.
    pub open spec fn shares(self, i: int) -> bool {
        match self.hinv {
            Some(h) => float_bits::finite(linalg::cell(h, self.rows, i, i))
                && float_bits::magnitude(linalg::cell(h, self.rows, i, i)) != 0,
            None => false,
        }
    }

    /// The factor from row `i` to row `k`.
    pub open spec fn factor(self, i: int, k: int) -> u32 {
        linalg::cell(self.hinv->0, self.rows, i, k)
    }

    /// The normalised error of a row.
    pub open spec fn error(self, i: int, row: Seq<u32>, c: int) -> u32 {
        rounding::quotient(
            rounding::difference(row[c], self.rounded(row, c)),
            self.factor(i, i),
        )
    }

    /// `v` less the shares of rows `from..to`, taken in order; `done` holds the rows as they were
    /// when they were quantised.
    pub open spec fn compensated(
        self,
        done: Seq<Seq<u32>>,
        k: int,
        c: int,
        v: u32,
        from: int,
        to: int,
    ) -> u32
        decreases to - from,
    {
        if to <= from {
            v
        } else {
            let p = self.compensated(done, k, c, v, from, to - 1);
            if self.shares(to - 1) && float_bits::magnitude(self.factor(to - 1, k)) != 0 {
                rounding::difference(
                    p,
                    rounding::product(
                        self.error(to - 1, done[to - 1], c),
                        self.factor(to - 1, k),
                    ),
                )
            } else {
                p
            }
        }
    }

    /// Row `k` after the first `blocks` blocks: each block adds the sum of its shares at once.
    pub open spec fn after_blocks(self, done: Seq<Seq<u32>>, k: int, c: int, blocks: nat) -> u32
        decreases blocks,
    {
        if blocks == 0 {
            self.w[self.perm[k] * self.cols + c]
        } else {
            rounding::sum(
                self.after_blocks(done, k, c, (blocks - 1) as nat),
                self.compensated(
                    done,
                    k,
                    c,
                    0,
                    (blocks - 1) * self.block,
                    blocks * self.block,
                ),
            )
        }
    }

    /// The value of column `c` of the next row when it is quantised.
    pub open spec fn entering(self, done: Seq<Seq<u32>>, c: int) -> u32 {
        let k = done.len() as int;
        let b = k / self.block;
        self.compensated(
            done,
            k,
            c,
            self.after_blocks(done, k, c, b as nat),
            b * self.block,
            k,
        )
    }

    /// The first `i` rows, each as it was when it was quantised.
    pub open spec fn history(self, i: nat) -> Seq<Seq<u32>>
        decreases i,
    {
        if i == 0 {
            Seq::empty()
        } else {
            let done = self.history((i - 1) as nat);
            done.push(Seq::new(self.cols as nat, |c: int| self.entering(done, c)))
        }
    }

    /// Where row `r` of the weights stands in the order.
    pub open spec fn turn(self, r: int) -> int {
        choose|i: int| 0 <= i < self.rows && #[trigger] self.perm[i] == r
    }

    /// The rounded weights in their own order.
    pub open spec fn result(self) -> Seq<u32> {
        Seq::new(
            (self.rows * self.cols) as nat,
            |f: int|
                self.rounded(
                    self.history(self.rows as nat)[self.turn(f / self.cols)],
                    f % self.cols,
                ),
        )
    }

    /// The scales in the order of the weights.
    pub open spec fn scales(self) -> Seq<u32> {
        match self.axis {
            QAxis::Row => Seq::new(
                self.rows as nat,
                |r: int| self.scale(self.history(self.rows as nat)[self.turn(r)], 0),
            ),
            QAxis::Col => quant::scales_of(self.w, self.rows, self.cols, QAxis::Col),
        }
    }

    pub open spec fn wf(self) -> bool {
        &&& self.rows >= 0
        &&& self.cols >= 0
        &&& self.block >= 1
        &&& self.w.len() == self.rows * self.cols
        &&& is_permutation(self.perm, self.rows)
        &&& self.hinv matches Some(h) ==> h.len() == self.rows * self.rows
    }

    /// Earlier history does not change as rows are added.
    pub proof fn history_grows(self, i: nat, j: nat)
        requires
            i <= j,
        ensures
            self.history(j).len() == j,
            self.history(j).take(i as int) == self.history(i),
            forall|k: int| 0 <= k < i ==> #[trigger] self.history(j)[k] == self.history(i)[k],
        decreases j,
    {
        if j > 0 {
            if i < j {
                self.history_grows(i, (j - 1) as nat);
                assert(self.history(j).take(i as int) =~= self.history((j - 1) as nat).take(
                    i as int,
                ));
                assert forall|k: int| 0 <= k < i implies #[trigger] self.history(j)[k]
                    == self.history(i)[k] by {
                    assert(self.history((j - 1) as nat)[k] == self.history(i)[k]);
                }
            } else {
                self.history_grows((j - 1) as nat, (j - 1) as nat);
                assert(self.history(j).take(j as int) =~= self.history(j));
            }
        } else {
            assert(self.history(0).take(0) =~= self.history(0));
        }
    }
}

/// Every row has a turn.
pub proof fn every_row_has_a_turn(p: Problem, r: int)
    requires
        p.wf(),
        0 <= r < p.rows,
    ensures
        0 <= p.turn(r) < p.rows,
        p.perm[p.turn(r)] == r,
{
    permutation_is_onto(p.perm, p.rows, r);
}

/// A list of `n` different indices below `n` holds each of them.
pub proof fn permutation_is_onto(order: Seq<usize>, n: int, r: int)
    requires
        is_permutation(order, n),
        0 <= r < n,
    ensures
        exists|i: int| 0 <= i < n && #[trigger] order[i] == r,
{
    if !(exists|i: int| 0 <= i < n && #[trigger] order[i] == r) {
        let ints = order.map_values(|v: usize| v as int);
        assert(ints.no_duplicates()) by {
            assert forall|i: int, j: int|
                0 <= i < ints.len() && 0 <= j < ints.len() && i != j implies ints[i] != ints[j] by {
                if i < j {
                    assert(order[i] != order[j]);
                } else {
                    assert(order[j] != order[i]);
                }
            }
        }
        let s = ints.to_set();
        ints.unique_seq_to_set();
        let all = vstd::set_lib::set_int_range(0, n);
        vstd::set_lib::lemma_int_range(0, n);
        assert(s.subset_of(all.remove(r))) by {
            assert forall|v: int| s.contains(v) implies all.remove(r).contains(v) by {
                let i = choose|i: int| 0 <= i < ints.len() && ints[i] == v;
                assert(ints[i] == order[i]);
            }
        }
        vstd::set_lib::lemma_len_subset(s, all.remove(r));
    }
}

/// The inverse second moments as a sequence.
pub open spec fn inverse_view(hinv: Option<&[u32]>) -> Option<Seq<u32>> {
    match hinv {
        Some(h) => Some(h@),
        None => None,
    }
}

/// The quantisation that `gptq_apply` carries out.
pub open spec fn problem_of(
    w: Seq<u32>,
    rows: usize,
    cols: usize,
    bits: QBits,
    axis: QAxis,
    perm: Seq<usize>,
    hinv: Option<Seq<u32>>,
    block: usize,
) -> Problem {
    Problem {
        w,
        rows: rows as int,
        cols: cols as int,
        bits,
        axis,
        perm,
        hinv,
        block: if block == 0 {
            1
        } else {
            block as int
        },
    }
}

/// Whether `m` is the matrix that a compensated quantisation ends with.
pub open spec fn is_solution(m: QMatrix, g: Problem) -> bool {
    &&& m.wf()
    &&& m.row_count() == g.rows
    &&& m.col_count() == g.cols
    &&& m.width() == g.bits
    &&& m.grouping() == g.axis
    &&& m.scale_seq() == quant::resolved(g.result(), g.rows, g.cols, g.axis, g.scales())
    &&& m.codes() == quant::codes_under(g.result(), g.cols, g.bits, g.axis, m.scale_seq())
}

/// Subtracts the shares of rows `from..to` from `v`.
fn compensate(
    errs: &Vec<Vec<u32>>,
    live: &Vec<bool>,
    hinv: Option<&[u32]>,
    rows: usize,
    k: usize,
    c: usize,
    v: u32,
    from: usize,
    to: usize,
    Ghost(g): Ghost<Problem>,
    Ghost(done): Ghost<Seq<Seq<u32>>>,
) -> (r: u32)
    requires
        g.wf(),
        g.rows == rows,
        g.hinv == inverse_view(hinv),
        from <= to <= k < rows,
        c < g.cols,
        errs@.len() == k,
        live@.len() == k,
        forall|i: int| 0 <= i < k ==> #[trigger] live@[i] == g.shares(i),
        forall|i: int|
            0 <= i < k && g.shares(i) ==> (#[trigger] errs@[i])@.len() == g.cols && forall|j: int|
                0 <= j < g.cols ==> errs@[i]@[j] == g.error(i, done[i], j),
    ensures
        r == g.compensated(done, k as int, c as int, v, from as int, to as int),
{
    let mut p: u32 = v;
    for i in from..to
        invariant
            g.wf(),
            g.rows == rows,
            g.hinv == inverse_view(hinv),
            from <= to <= k < rows,
            c < g.cols,
            errs@.len() == k,
            live@.len() == k,
            forall|i: int| 0 <= i < k ==> #[trigger] live@[i] == g.shares(i),
            forall|i: int|
                0 <= i < k && g.shares(i) ==> (#[trigger] errs@[i])@.len() == g.cols
                    && forall|j: int| 0 <= j < g.cols ==> errs@[i]@[j] == g.error(i, done[i], j),
            p == g.compensated(done, k as int, c as int, v, from as int, i as int),
    {
        assert(live@[i as int] == g.shares(i as int));
        if live[i] {
            if let Some(h) = hinv {
                proof {
                    quant::cell_position(i as int, k as int, rows as int, rows as int);
                }
                let len: usize = h.len();
                let factor: u32 = h[i * rows + k];
                if float_bits::abs_bits(factor) != 0 {
                    assert(errs@[i as int]@.len() == g.cols);
                    p = rounding::minus(p, rounding::multiply(errs[i][c], factor));
                }
            }
        }
    }
    p
}

/// Puts the rounded rows back into the order of the weights.
fn restore_rows(
    rounded: &Vec<Vec<u32>>,
    rows: usize,
    cols: usize,
    len: usize,
    perm: &[usize],
    Ghost(g): Ghost<Problem>,
) -> (back: Vec<u32>)
    requires
        g.wf(),
        g.rows == rows,
        g.cols == cols,
        g.perm == perm@,
        len == rows * cols,
        rounded@.len() == rows,
        forall|i: int|
            0 <= i < rows ==> (#[trigger] rounded@[i])@.len() == cols && forall|j: int|
                0 <= j < cols ==> rounded@[i]@[j] == g.rounded(g.history(rows as nat)[i], j),
    ensures
        back@ == g.result(),
{
    let turns: Vec<usize> = invert(rows, perm, Ghost(g));
    let mut back: Vec<u32> = Vec::new();
    for f in 0..len
        invariant
            g.wf(),
            g.rows == rows,
            g.cols == cols,
            len == rows * cols,
            turns@.len() == rows,
            forall|r: int| 0 <= r < rows ==> #[trigger] turns@[r] == g.turn(r) && turns@[r] < rows,
            rounded@.len() == rows,
            forall|i: int|
                0 <= i < rows ==> (#[trigger] rounded@[i])@.len() == cols && forall|j: int|
                    0 <= j < cols ==> rounded@[i]@[j] == g.rounded(g.history(rows as nat)[i], j),
            back@.len() == f,
            forall|q: int| 0 <= q < f ==> back@[q] == g.result()[q],
    {
        proof {
            quant::flat_position(f as int, rows as int, cols as int);
        }
        let t: usize = turns[f / cols];
        assert(rounded@[t as int]@.len() == cols);
        back.push(rounded[t][f % cols]);
    }
    assert(back@ =~= g.result());
    back
}

/// The turn of every row.
fn invert(rows: usize, perm: &[usize], Ghost(g): Ghost<Problem>) -> (turns: Vec<usize>)
    requires
        g.wf(),
        g.rows == rows,
        g.perm == perm@,
    ensures
        turns@.len() == rows,
        forall|r: int| 0 <= r < rows ==> #[trigger] turns@[r] == g.turn(r) && turns@[r] < rows,
{
    let mut turns: Vec<usize> = vec![0usize; rows];
    for i in 0..rows
        invariant
            g.wf(),
            g.rows == rows,
            g.perm == perm@,
            turns@.len() == rows,
            forall|k: int| 0 <= k < i ==> turns@[#[trigger] perm@[k] as int] == k,
    {
        assert(perm@[i as int] < rows);
        turns.set(perm[i], i);
    }
    assert forall|r: int| 0 <= r < rows implies #[trigger] turns@[r] == g.turn(r) && turns@[r]
        < rows by {
        every_row_has_a_turn(g, r);
        assert(perm@[g.turn(r)] == r);
    }
    turns
}

/// Puts the row scales back into the order of the weights.
fn restore_scales(
    row_scales: &Vec<u32>,
    rows: usize,
    perm: &[usize],
    Ghost(g): Ghost<Problem>,
) -> (r: Vec<u32>)
    requires
        g.wf(),
        g.rows == rows,
        g.perm == perm@,
        g.axis == QAxis::Row,
        row_scales@.len() == rows,
        forall|i: int|
            0 <= i < rows ==> #[trigger] row_scales@[i] == g.scale(g.history(rows as nat)[i], 0),
    ensures
        r@ == g.scales(),
{
    let turns: Vec<usize> = invert(rows, perm, Ghost(g));
    let mut out: Vec<u32> = Vec::new();
    for r in 0..rows
        invariant
            g.rows == rows,
            g.axis == QAxis::Row,
            turns@.len() == rows,
            forall|r: int| 0 <= r < rows ==> #[trigger] turns@[r] == g.turn(r) && turns@[r] < rows,
            row_scales@.len() == rows,
            forall|i: int|
                0 <= i < rows ==> #[trigger] row_scales@[i] == g.scale(
                    g.history(rows as nat)[i],
                    0,
                ),
            out@.len() == r,
            forall|q: int| 0 <= q < r ==> out@[q] == g.scales()[q],
    {
        let t: usize = turns[r];
        out.push(row_scales[t]);
    }
    assert(out@ =~= g.scales());
    out
}

/// Quantises the rows of `w` in the order `perm`, each row after it has taken its share of the
/// errors of the rows before it. Inside a block shares are subtracted one by one; a finished block
/// hands the sum of its shares to every later row at once. Without an inverse nothing is shared.
pub fn gptq_apply(
    w: &[u32],
    rows: usize,
    cols: usize,
    bits: QBits,
    axis: QAxis,
    perm: &[usize],
    hinv: Option<&[u32]>,
    block: usize,
) -> (m: QMatrix)
    requires
        w@.len() == rows * cols,
        is_permutation(perm@, rows as int),
        hinv matches Some(h) ==> h@.len() == rows * rows,
    ensures
        is_solution(
            m,
            problem_of(w@, rows, cols, bits, axis, perm@, inverse_view(hinv), block),
        ),
{
    let block: usize = if block == 0 {
        1
    } else {
        block
    };
    let ghost g = problem_of(w@, rows, cols, bits, axis, perm@, inverse_view(hinv), block);
    let len: usize = w.len();
    let col_scales: Vec<u32> = match axis {
        QAxis::Row => Vec::new(),
        QAxis::Col => quant::group_scales(w, rows, cols, QAxis::Col),
    };
    let mut errs: Vec<Vec<u32>> = Vec::new();
    let mut live: Vec<bool> = Vec::new();
    let mut rounded: Vec<Vec<u32>> = Vec::new();
    let mut row_scales: Vec<u32> = Vec::new();
    for k in 0..rows
        invariant
            g.wf(),
            g == problem_of(w@, rows, cols, bits, axis, perm@, inverse_view(hinv), block),
            block >= 1,
            len == w@.len(),
            axis == QAxis::Col ==> col_scales@ == quant::scales_of(
                w@,
                rows as int,
                cols as int,
                QAxis::Col,
            ),
            errs@.len() == k,
            live@.len() == k,
            rounded@.len() == k,
            row_scales@.len() == k,
            forall|i: int| 0 <= i < k ==> #[trigger] live@[i] == g.shares(i),
            forall|i: int|
                0 <= i < k && g.shares(i) ==> (#[trigger] errs@[i])@.len() == cols
                    && forall|j: int|
                    0 <= j < cols ==> errs@[i]@[j] == g.error(i, g.history(k as nat)[i], j),
            forall|i: int|
                0 <= i < k ==> (#[trigger] rounded@[i])@.len() == cols && forall|j: int|
                    0 <= j < cols ==> rounded@[i]@[j] == g.rounded(g.history(k as nat)[i], j),
            axis == QAxis::Row ==> forall|i: int|
                0 <= i < k ==> #[trigger] row_scales@[i] == g.scale(g.history(k as nat)[i], 0),
    {
        let ghost done = g.history(k as nat);
        proof {
            g.history_grows(k as nat, k as nat);
            assert(perm@[k as int] < rows);
            quant::cell_position(k as int, 0, rows as int, 1);
        }
        let p: usize = perm[k];
        let blocks: usize = k / block;
        let mut row: Vec<u32> = Vec::new();
        for c in 0..cols
            invariant
                g.wf(),
                g == problem_of(w@, rows, cols, bits, axis, perm@, inverse_view(hinv), block),
                block >= 1,
                k < rows,
                len == w@.len(),
                p == perm@[k as int],
                p < rows,
                blocks == k / block,
                done.len() == k,
                errs@.len() == k,
                live@.len() == k,
                forall|i: int| 0 <= i < k ==> #[trigger] live@[i] == g.shares(i),
                forall|i: int|
                    0 <= i < k && g.shares(i) ==> (#[trigger] errs@[i])@.len() == cols
                        && forall|j: int|
                        0 <= j < cols ==> errs@[i]@[j] == g.error(i, done[i], j),
                row@.len() == c,
                forall|j: int| 0 <= j < c ==> row@[j] == g.entering(done, j),
        {
            proof {
                quant::cell_position(p as int, c as int, rows as int, cols as int);
            }
            let mut v: u32 = w[p * cols + c];
            let mut start: usize = 0;
            proof {
                assert(0 * block == 0);
                assert(blocks * block <= k) by (nonlinear_arith)
                    requires
                        blocks == k as int / block as int,
                        block >= 1,
                ;
            }
            for b in 0..blocks
                invariant
                    g.wf(),
                    g == problem_of(w@, rows, cols, bits, axis, perm@, inverse_view(hinv), block),
                    block >= 1,
                    k < rows,
                    c < cols,
                    blocks * block <= k,
                    start == b * block,
                    errs@.len() == k,
                    live@.len() == k,
                    forall|i: int| 0 <= i < k ==> #[trigger] live@[i] == g.shares(i),
                    forall|i: int|
                        0 <= i < k && g.shares(i) ==> (#[trigger] errs@[i])@.len() == cols
                            && forall|j: int|
                            0 <= j < cols ==> errs@[i]@[j] == g.error(i, done[i], j),
                    v == g.after_blocks(done, k as int, c as int, b as nat),
            {
                proof {
                    assert((b + 1) * block == b * block + block) by (nonlinear_arith);
                    assert((b + 1) * block <= blocks * block) by (nonlinear_arith)
                        requires
                            b + 1 <= blocks,
                            block >= 1,
                    ;
                }
                let carry: u32 = compensate(
                    &errs,
                    &live,
                    hinv,
                    rows,
                    k,
                    c,
                    0,
                    start,
                    start + block,
                    Ghost(g),
                    Ghost(done),
                );
                v = rounding::plus(v, carry);
                start = start + block;
            }
            let e: u32 = compensate(
                &errs,
                &live,
                hinv,
                rows,
                k,
                c,
                v,
                start,
                k,
                Ghost(g),
                Ghost(done),
            );
            row.push(e);
        }
        let ghost next = g.history((k + 1) as nat);
        proof {
            g.history_grows(k as nat, (k + 1) as nat);
            assert(row@ =~= next[k as int]);
        }
        let (codes, own) = quant::quantize_row_sym(&row, bits);
        let mut back: Vec<u32> = Vec::new();
        for c in 0..cols
            invariant
                g == problem_of(w@, rows, cols, bits, axis, perm@, inverse_view(hinv), block),
                row@.len() == cols,
                codes@.len() == cols,
                axis == QAxis::Col ==> col_scales@ == quant::scales_of(
                    w@,
                    rows as int,
                    cols as int,
                    QAxis::Col,
                ),
                own == quant::or_one(quant::strided_max(row@, 0, 1, row@.len())),
                codes@ == Seq::new(row@.len(), |i: int| quant::code_of(row@[i], own, bits)),
                back@.len() == c,
                forall|j: int| 0 <= j < c ==> back@[j] == g.rounded(row@, j),
        {
            let r: u32 = match axis {
                QAxis::Row => quant::decode(codes[c], own, bits),
                QAxis::Col => {
                    let s: u32 = col_scales[c];
                    quant::decode(quant::encode(row[c], s, bits), s, bits)
                },
            };
            back.push(r);
        }
        let mut shares: bool = false;
        let mut err: Vec<u32> = Vec::new();
        if let Some(h) = hinv {
            proof {
                quant::cell_position(k as int, k as int, rows as int, rows as int);
            }
            let hlen: usize = h.len();
            let hii: u32 = h[k * rows + k];
            let mag: u32 = float_bits::abs_bits(hii);
            if mag > 0 && mag < float_bits::INFINITY_BITS {
                shares = true;
                for c in 0..cols
                    invariant
                        g == problem_of(
                            w@,
                            rows,
                            cols,
                            bits,
                            axis,
                            perm@,
                            inverse_view(hinv),
                            block,
                        ),
                        row@.len() == cols,
                        back@.len() == cols,
                        hii == g.factor(k as int, k as int),
                        forall|j: int| 0 <= j < cols ==> back@[j] == g.rounded(row@, j),
                        err@.len() == c,
                        forall|j: int| 0 <= j < c ==> err@[j] == g.error(k as int, row@, j),
                {
                    err.push(rounding::divide(rounding::minus(row[c], back[c]), hii));
                }
            }
        }
        let ghost old_errs = errs@;
        let ghost old_rounded = rounded@;
        errs.push(err);
        live.push(shares);
        rounded.push(back);
        row_scales.push(own);
        proof {
            assert forall|i: int| 0 <= i < k + 1 && g.shares(i) implies (
            #[trigger] errs@[i])@.len() == cols && forall|j: int|
                0 <= j < cols ==> errs@[i]@[j] == g.error(i, next[i], j) by {
                if i < k {
                    assert(errs@[i] == old_errs[i]);
                    assert(next[i] == done[i]);
                }
            }
            assert forall|i: int| 0 <= i < k + 1 implies (#[trigger] rounded@[i])@.len() == cols
                && forall|j: int|
                0 <= j < cols ==> rounded@[i]@[j] == g.rounded(next[i], j) by {
                if i < k {
                    assert(rounded@[i] == old_rounded[i]);
                    assert(next[i] == done[i]);
                }
            }
        }
    }
    let back: Vec<u32> = restore_rows(&rounded, rows, cols, len, perm, Ghost(g));
    let scales: Vec<u32> = match axis {
        QAxis::Row => restore_scales(&row_scales, rows, perm, Ghost(g)),
        QAxis::Col => col_scales,
    };
    QMatrix::quantize_with_scales(&back, rows, cols, bits, axis, &scales)
}

/// The diagonal elements of the first `k` rows, added in order.
pub open spec fn trace(h: Seq<u32>, n: int, k: nat) -> u32
    decreases k,
{
    if k == 0 {
        0
    } else {
        rounding::sum(trace(h, n, (k - 1) as nat), linalg::cell(h, n, k - 1, k - 1))
    }
}

/// What is added to every diagonal element: the damping factor times the mean diagonal element, or
/// zero where either is not a usable number.
pub open spec fn damping(h: Seq<u32>, n: int, damp: u32) -> u32 {
    let t = trace(h, n, n as nat);
    if float_bits::finite(t) && float_bits::positive(t) && float_bits::finite(damp) {
        rounding::quotient(
            rounding::product(
                if float_bits::positive(damp) {
                    damp
                } else {
                    0
                },
                t,
            ),
            rounding::count_value(n),
        )
    } else {
        0
    }
}

/// The matrix that is inverted: the second moments in quantisation order, damped.
pub open spec fn inverted_matrix(h: Seq<u32>, n: int, perm: Seq<usize>, damp: u32) -> Seq<u32> {
    let hp = permuted(h, n, perm);
    linalg::damped(hp, n, damping(hp, n, damp))
}

/// Whether `hinv` is the inverse that the second moments give: none for a diagonal, none where the
/// damped matrix has no factor.
pub open spec fn is_inverse_of(
    hinv: Option<Seq<u32>>,
    hessian: HessianKind,
    n: int,
    perm: Seq<usize>,
    damp: u32,
) -> bool {
    match hessian {
        HessianKind::Diagonal(_) => hinv is None,
        HessianKind::Full(h) => {
            let d = inverted_matrix(h@, n, perm, damp);
            match hinv {
                Some(inv) => linalg::is_inverse(d, inv, n),
                None => linalg::has_no_factor(d, n),
            }
        },
    }
}

/// Whether `perm` is the order in which the channels are taken.
pub open spec fn is_order(perm: Seq<usize>, diag: Seq<u32>, act_order: bool) -> bool {
    &&& is_permutation(perm, diag.len() as int)
    &&& act_order ==> forall|i: int, j: int|
        0 <= i < j < perm.len() ==> before(
            diag,
            #[trigger] perm[i] as int,
            #[trigger] perm[j] as int,
        )
    &&& !act_order ==> forall|i: int| 0 <= i < perm.len() ==> #[trigger] perm[i] == i
}

/// The block size in use.
pub open spec fn block_in_use(block: usize, rows: usize) -> usize {
    if block == 0 || block > rows {
        rows
    } else {
        block
    }
}

/// Whether `m` is plain rounding of `w`.
pub open spec fn is_plain_rounding(
    m: QMatrix,
    w: Seq<u32>,
    rows: int,
    cols: int,
    bits: QBits,
    axis: QAxis,
) -> bool {
    &&& m.wf()
    &&& m.row_count() == rows
    &&& m.col_count() == cols
    &&& m.width() == bits
    &&& m.grouping() == axis
    &&& m.scale_seq() == quant::scales_of(w, rows, cols, axis)
    &&& m.codes() == quant::codes_under(w, cols, bits, axis, m.scale_seq())
}

/// Whether `m` solves the quantisation of `w` under an order and an inverse that fit the second
/// moments.
pub open spec fn compensated_by(
    m: QMatrix,
    w: Seq<u32>,
    rows: usize,
    cols: usize,
    bits: QBits,
    axis: QAxis,
    hessian: HessianKind,
    opts: GptqOpts,
) -> bool {
    exists|perm: Seq<usize>, hinv: Option<Seq<u32>>|
        #![trigger problem_of(w, rows, cols, bits, axis, perm, hinv, block_in_use(opts.block, rows))]
        is_order(perm, hessian.diagonal_seq(), opts.act_order) && is_inverse_of(
            hinv,
            hessian,
            rows as int,
            perm,
            opts.damp,
        ) && is_solution(
            m,
            problem_of(
                w,
                rows,
                cols,
                bits,
                axis,
                perm,
                hinv,
                block_in_use(opts.block, rows),
            ),
        )
}

/// What is added to the diagonal of a matrix in quantisation order.
fn damping_term(hp: &Vec<u32>, n: usize, damp: u32) -> (r: u32)
    requires
        hp@.len() == n * n,
    ensures
        r == damping(hp@, n as int, damp),
{
    let len: usize = hp.len();
    let mut t: u32 = 0;
    for i in 0..n
        invariant
            len == hp@.len(),
            hp@.len() == n * n,
            t == trace(hp@, n as int, i as nat),
    {
        proof {
            quant::cell_position(i as int, i as int, n as int, n as int);
        }
        t = rounding::plus(t, hp[i * n + i]);
    }
    if t > 0 && t < float_bits::INFINITY_BITS && float_bits::abs_bits(damp)
        < float_bits::INFINITY_BITS {
        let factor: u32 = if float_bits::is_positive(damp) {
            damp
        } else {
            0
        };
        rounding::divide(rounding::multiply(factor, t), rounding::from_count(n as u64))
    } else {
        0
    }
}

/// Quantises `w` with error compensation by the second moments of its input. A matrix with no
/// elements is rounded plainly.
pub fn gptq_quantize(
    w: &[u32],
    rows: usize,
    cols: usize,
    bits: QBits,
    axis: QAxis,
    hessian: &HessianKind,
    opts: &GptqOpts,
) -> (m: QMatrix)
    requires
        w@.len() == rows * cols,
        hessian.wf(),
        hessian.order() == rows,
    ensures
        if rows == 0 || cols == 0 {
            is_plain_rounding(m, w@, rows as int, cols as int, bits, axis)
        } else {
            compensated_by(m, w@, rows, cols, bits, axis, *hessian, *opts)
        },
{
    if rows == 0 || cols == 0 {
        return QMatrix::quantize(w, rows, cols, bits, axis);
    }
    proof {
        hessian.full_shape();
    }
    let diag: Vec<u32> = hessian.diagonal();
    let perm: Vec<usize> = order_by_importance(&diag, opts.act_order);
    let block: usize = if opts.block == 0 || opts.block > rows {
        rows
    } else {
        opts.block
    };
    let hinv: Option<Vec<u32>> = match hessian {
        HessianKind::Diagonal(_) => None,
        HessianKind::Full(h) => {
            let hp: Vec<u32> = permute_sym(h, rows, &perm);
            proof {
                assert(hp@.len() == rows * rows);
            }
            let term: u32 = damping_term(&hp, rows, opts.damp);
            let d: Vec<u32> = linalg::add_to_diagonal(&hp, rows, term);
            match linalg::cholesky(&d, rows) {
                Some(l) => {
                    let inv: Vec<u32> = linalg::cholesky_inverse_upper(&l, rows);
                    proof {
                        linalg::factor_gives_inverse(d@, l@, inv@, rows as int);
                        linalg::inverse_is_square(d@, inv@, rows as int);
                    }
                    Some(inv)
                },
                None => None,
            }
        },
    };
    let slice: Option<&[u32]> = match &hinv {
        Some(v) => Some(v.as_slice()),
        None => None,
    };
    let m: QMatrix = gptq_apply(w, rows, cols, bits, axis, &perm, slice, block);
    proof {
        let view = inverse_view(slice);
        assert(is_inverse_of(view, *hessian, rows as int, perm@, opts.damp));
        assert(is_order(perm@, hessian.diagonal_seq(), opts.act_order));
        assert(is_solution(
            m,
            problem_of(
                w@,
                rows,
                cols,
                bits,
                axis,
                perm@,
                view,
                block_in_use(opts.block, rows),
            ),
        ));
    }
    m
}

/// The order `0, 1, 2, ...`.
pub open spec fn identity(n: int) -> Seq<usize> {
    Seq::new(n as nat, |i: int| i as usize)
}

/// Quantises `w` with a given inverse, in the order of its rows and as a single block. An inverse
/// of the wrong size counts as none.
pub fn gptq_quantize_with_hinv(
    w: &[u32],
    rows: usize,
    cols: usize,
    bits: QBits,
    axis: QAxis,
    h_inv: &[u32],
) -> (m: QMatrix)
    requires
        w@.len() == rows * cols,
    ensures
        if rows == 0 || cols == 0 {
            is_plain_rounding(m, w@, rows as int, cols as int, bits, axis)
        } else {
            is_solution(
                m,
                problem_of(
                    w@,
                    rows,
                    cols,
                    bits,
                    axis,
                    identity(rows as int),
                    if h_inv@.len() == rows * rows {
                        Some(h_inv@)
                    } else {
                        None
                    },
                    rows,
                ),
            )
        },
{
    if rows == 0 || cols == 0 {
        return QMatrix::quantize(w, rows, cols, bits, axis);
    }
    let mut perm: Vec<usize> = Vec::new();
    for i in 0..rows
        invariant
            perm@.len() == i,
            forall|j: int| 0 <= j < i ==> #[trigger] perm@[j] == j,
    {
        perm.push(i);
    }
    assert(perm@ =~= identity(rows as int));
    let hinv: Option<&[u32]> = if is_square(h_inv.len(), rows) {
        Some(h_inv)
    } else {
        None
    };
    gptq_apply(w, rows, cols, bits, axis, &perm, hinv, rows)
}

/// Whether `len == n * n`, for any `n`.
fn is_square(len: usize, n: usize) -> (r: bool)
    ensures
        r == (len == n * n),
{
    match n.checked_mul(n) {
        Some(sq) => len == sq,
        None => false,
    }
}

} // verus!
