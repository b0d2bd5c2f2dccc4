//! Dense matrices of single-precision patterns, stored by rows.
//!
//! Sums are taken in index order, starting from zero, so that every result is one bit pattern.

use crate::quant;
use crate::rounding;
use vstd::prelude::*;

verus! {

/// `x[t] . m[.][c]` over the first `k` of `inner` places, added in order.
pub open spec fn dot_at(x: Seq<u32>, m: Seq<u32>, inner: int, cols: int, t: int, c: int, k: nat)
    -> u32
    decreases k,
{
    if k == 0 {
        0
    } else {
        let j = k - 1;
        rounding::sum(
            dot_at(x, m, inner, cols, t, c, j as nat),
            rounding::product(x[t * inner + j], m[j * cols + c]),
        )
    }
}

/// The product of a `rows x inner` and an `inner x cols` matrix.
pub open spec fn product_of(x: Seq<u32>, m: Seq<u32>, rows: int, inner: int, cols: int) -> Seq<
    u32,
> {
    Seq::new(
        (rows * cols) as nat,
        |p: int| dot_at(x, m, inner, cols, p / cols, p % cols, inner as nat),
    )
}

/// The transpose of a `rows x cols` matrix.
pub open spec fn transposed(x: Seq<u32>, rows: int, cols: int) -> Seq<u32> {
    Seq::new((cols * rows) as nat, |p: int| x[(p % rows) * cols + p / rows])
}

/// Every element times `s`.
pub open spec fn times(x: Seq<u32>, s: u32) -> Seq<u32> {
    Seq::new(x.len(), |p: int| rounding::product(x[p], s))
}

/// Two matrices added element by element.
pub open spec fn total(x: Seq<u32>, y: Seq<u32>) -> Seq<u32> {
    Seq::new(x.len(), |p: int| rounding::sum(x[p], y[p]))
}

/// A row added to every row.
pub open spec fn with_row(x: Seq<u32>, cols: int, row: Seq<u32>) -> Seq<u32> {
    Seq::new(x.len(), |p: int| rounding::sum(x[p], row[p % cols]))
}

/// The rows of `x` named by `ids`, in that order.
pub open spec fn picked(x: Seq<u32>, cols: int, ids: Seq<usize>) -> Seq<u32> {
    Seq::new((ids.len() * cols) as nat, |p: int| x[ids[p / cols] * cols + p % cols])
}

/// The product of two matrices.
pub fn matmul(x: &[u32], m: &[u32], rows: usize, inner: usize, cols: usize) -> (r: Vec<u32>)
    requires
        x@.len() == rows * inner,
        m@.len() == inner * cols,
        rows * cols <= usize::MAX,
    ensures
        r@ == product_of(x@, m@, rows as int, inner as int, cols as int),
{
    let (len_x, len_m): (usize, usize) = (x.len(), m.len());
    let n: usize = rows * cols;
    let mut r: Vec<u32> = Vec::new();
    for p in 0..n
        invariant
            n == rows * cols,
            len_x == x@.len(),
            len_m == m@.len(),
            x@.len() == rows * inner,
            m@.len() == inner * cols,
            r@ =~= Seq::new(
                p as nat,
                |p: int|
                    dot_at(
                        x@,
                        m@,
                        inner as int,
                        cols as int,
                        p / (cols as int),
                        p % (cols as int),
                        inner as nat,
                    ),
            ),
    {
        proof {
            quant::flat_position(p as int, rows as int, cols as int);
        }
        let t: usize = p / cols;
        let c: usize = p % cols;
        let mut s: u32 = 0;
        for j in 0..inner
            invariant
                len_x == x@.len(),
                len_m == m@.len(),
                x@.len() == rows * inner,
                m@.len() == inner * cols,
                t < rows,
                c < cols,
                s == dot_at(x@, m@, inner as int, cols as int, t as int, c as int, j as nat),
        {
            proof {
                quant::cell_position(t as int, j as int, rows as int, inner as int);
                quant::cell_position(j as int, c as int, inner as int, cols as int);
            }
            s = rounding::plus(s, rounding::multiply(x[t * inner + j], m[j * cols + c]));
        }
        r.push(s);
    }
    r
}

/// The transpose of a matrix.
pub fn transpose(x: &[u32], rows: usize, cols: usize) -> (r: Vec<u32>)
    requires
        x@.len() == rows * cols,
    ensures
        r@ == transposed(x@, rows as int, cols as int),
{
    let n: usize = x.len();
    assert(rows * cols == cols * rows) by (nonlinear_arith);
    let mut r: Vec<u32> = Vec::new();
    for p in 0..n
        invariant
            n == x@.len(),
            n == cols * rows,
            x@.len() == rows * cols,
            r@ =~= Seq::new(
                p as nat,
                |p: int| x@[(p % (rows as int)) * cols + p / (rows as int)],
            ),
    {
        proof {
            quant::flat_position(p as int, cols as int, rows as int);
            quant::cell_position(
                p as int % rows as int,
                p as int / rows as int,
                rows as int,
                cols as int,
            );
        }
        r.push(x[(p % rows) * cols + p / rows]);
    }
    r
}

/// Every element times `s`.
pub fn scale(x: &[u32], s: u32) -> (r: Vec<u32>)
    ensures
        r@ == times(x@, s),
{
    let mut r: Vec<u32> = Vec::new();
    for p in 0..x.len()
        invariant
            r@ =~= Seq::new(p as nat, |p: int| rounding::product(x@[p], s)),
    {
        r.push(rounding::multiply(x[p], s));
    }
    r
}

/// Two matrices of one shape added.
pub fn add_matrices(x: &[u32], y: &[u32]) -> (r: Vec<u32>)
    requires
        x@.len() == y@.len(),
    ensures
        r@ == total(x@, y@),
{
    let mut r: Vec<u32> = Vec::new();
    for p in 0..x.len()
        invariant
            x@.len() == y@.len(),
            r@ =~= Seq::new(p as nat, |p: int| rounding::sum(x@[p], y@[p])),
    {
        r.push(rounding::plus(x[p], y[p]));
    }
    r
}

/// A row added to every row of a matrix.
pub fn add_row(x: &[u32], rows: usize, cols: usize, row: &[u32]) -> (r: Vec<u32>)
    requires
        x@.len() == rows * cols,
        row@.len() == cols,
    ensures
        r@ == with_row(x@, cols as int, row@),
{
    let mut r: Vec<u32> = Vec::new();
    for p in 0..x.len()
        invariant
            x@.len() == rows * cols,
            row@.len() == cols,
            r@ =~= Seq::new(p as nat, |p: int| rounding::sum(x@[p], row@[p % (cols as int)])),
    {
        proof {
            quant::flat_position(p as int, rows as int, cols as int);
        }
        r.push(rounding::plus(x[p], row[p % cols]));
    }
    r
}

/// The rows of `x` named by `ids`.
pub fn gather_rows(x: &[u32], rows: usize, cols: usize, ids: &[usize]) -> (r: Vec<u32>)
    requires
        x@.len() == rows * cols,
        forall|i: int| 0 <= i < ids@.len() ==> #[trigger] ids@[i] < rows,
        ids@.len() * cols <= usize::MAX,
    ensures
        r@ == picked(x@, cols as int, ids@),
{
    let len: usize = x.len();
    let count: usize = ids.len();
    let n: usize = count * cols;
    let mut r: Vec<u32> = Vec::new();
    for p in 0..n
        invariant
            n == count * cols,
            count == ids@.len(),
            len == x@.len(),
            x@.len() == rows * cols,
            forall|i: int| 0 <= i < ids@.len() ==> #[trigger] ids@[i] < rows,
            r@ =~= Seq::new(
                p as nat,
                |p: int| x@[ids@[p / (cols as int)] * cols + p % (cols as int)],
            ),
    {
        proof {
            quant::flat_position(p as int, count as int, cols as int);
            quant::cell_position(
                ids@[p as int / cols as int] as int,
                p as int % cols as int,
                rows as int,
                cols as int,
            );
        }
        r.push(x[ids[p / cols] * cols + p % cols]);
    }
    r
}

/// Transposing twice gives the matrix back.
pub proof fn transposing_twice_changes_nothing(x: Seq<u32>, rows: int, cols: int)
    requires
        rows >= 0,
        cols >= 0,
        x.len() == rows * cols,
    ensures
        transposed(transposed(x, rows, cols), cols, rows) == x,
{
    assert(rows * cols == cols * rows) by (nonlinear_arith);
    let y = transposed(x, rows, cols);
    let z = transposed(y, cols, rows);
    assert forall|p: int| 0 <= p < x.len() implies z[p] == x[p] by {
        quant::flat_position(p, rows, cols);
        let (r, c) = (p / cols, p % cols);
        quant::cell_position(c, r, cols, rows);
    }
    assert(z =~= x);
}

} // verus!
