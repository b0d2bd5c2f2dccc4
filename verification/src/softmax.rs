//! Softmax and the logarithm of a sum of exponentials, row by row.
//!
//! The exponential and the logarithm are handed in: their last bits depend on the machine.

use crate::awq;
use crate::float_bits;
use crate::moe::MINUS_INFINITY;
use crate::norms;
use crate::quant;
use crate::rounding;
use vstd::prelude::*;

verus! {

/// The larger of two numbers; what is no number gives way.
pub open spec fn larger(x: u32, y: u32) -> u32 {
    if float_bits::nan(y) {
        x
    } else if float_bits::nan(x) || awq::less(x, y) {
        y
    } else {
        x
    }
}

/// The larger of two numbers.
pub fn larger_of(x: u32, y: u32) -> (r: u32)
    ensures
        r == larger(x, y),
{
    if float_bits::is_nan(y) {
        x
    } else if float_bits::is_nan(x) || awq::is_less(x, y) {
        y
    } else {
        x
    }
}

/// The largest of the first `k` elements of row `t`.
pub open spec fn row_max(x: Seq<u32>, d: int, t: int, k: nat) -> u32
    decreases k,
{
    if k == 0 {
        MINUS_INFINITY
    } else {
        larger(row_max(x, d, t, (k - 1) as nat), x[t * d + (k - 1)])
    }
}

/// The largest element of row `t`.
pub fn max_of_row(x: &[u32], rows: usize, d: usize, t: usize) -> (m: u32)
    requires
        x@.len() == rows * d,
        t < rows,
    ensures
        m == row_max(x@, d as int, t as int, d as nat),
{
    let len: usize = x.len();
    let mut m: u32 = MINUS_INFINITY;
    for k in 0..d
        invariant
            len == x@.len(),
            x@.len() == rows * d,
            t < rows,
            m == row_max(x@, d as int, t as int, k as nat),
    {
        proof {
            quant::cell_position(t as int, k as int, rows as int, d as int);
        }
        m = larger_of(m, x[t * d + k]);
    }
    m
}

/// Whether `e` holds what `exp` may make of row `t`, each element less the largest of the row.
pub open spec fn row_exps<E: Fn(u32) -> u32>(exp: &E, x: Seq<u32>, d: int, t: int, e: Seq<u32>) -> bool {
    forall|k: int|
        0 <= k < d ==> call_ensures(
            exp,
            (rounding::difference(x[t * d + k], row_max(x, d, t, d as nat)),),
            #[trigger] e[t * d + k],
        )
}

/// Whether `e` holds what `exp` may make of all rows.
pub open spec fn all_exps<E: Fn(u32) -> u32>(
    exp: &E,
    x: Seq<u32>,
    rows: int,
    d: int,
    e: Seq<u32>,
) -> bool {
    &&& e.len() == rows * d
    &&& forall|t: int| 0 <= t < rows ==> #[trigger] row_exps(exp, x, d, t, e)
}

/// Every element over the sum of its row.
pub open spec fn normalised(e: Seq<u32>, rows: int, d: int) -> Seq<u32> {
    Seq::new(
        (rows * d) as nat,
        |p: int| rounding::quotient(e[p], norms::row_sum(e, d, p / d, d as nat)),
    )
}

/// Whether `p` may be the softmax of `x`.
pub open spec fn is_softmax<E: Fn(u32) -> u32>(
    exp: &E,
    x: Seq<u32>,
    rows: int,
    d: int,
    p: Seq<u32>,
) -> bool {
    exists|e: Seq<u32>| #[trigger] all_exps(exp, x, rows, d, e) && p == normalised(e, rows, d)
}

/// The sums of one row only depend on that row.
proof fn lemma_row_sum_is_local(a: Seq<u32>, b: Seq<u32>, d: int, t: int, k: nat)
    requires
        forall|j: int| 0 <= j < k ==> #[trigger] a[t * d + j] == b[t * d + j],
    ensures
        norms::row_sum(a, d, t, k) == norms::row_sum(b, d, t, k),
    decreases k,
{
    if k > 0 {
        lemma_row_sum_is_local(a, b, d, t, (k - 1) as nat);
        assert(a[t * d + (k - 1)] == b[t * d + (k - 1)]);
    }
}

/// The exponentials of all rows.
pub fn exp_rows<E: Fn(u32) -> u32>(exp: &E, x: &[u32], rows: usize, d: usize) -> (e: Vec<u32>)
    requires
        x@.len() == rows * d,
        forall|v: u32| call_requires(exp, (v,)),
    ensures
        all_exps(exp, x@, rows as int, d as int, e@),
{
    let len: usize = x.len();
    let mut e: Vec<u32> = Vec::new();
    assert(0 * d == 0);
    for t in 0..rows
        invariant
            len == x@.len(),
            x@.len() == rows * d,
            forall|v: u32| call_requires(exp, (v,)),
            e@.len() == t * d,
            t * d <= len,
            forall|r: int| 0 <= r < t ==> #[trigger] row_exps(exp, x@, d as int, r, e@),
    {
        proof {
            assert((t + 1) * d == t * d + d && (t + 1) * d <= rows * d) by (nonlinear_arith)
                requires
                    t + 1 <= rows,
                    d >= 0,
            ;
        }
        let m: u32 = max_of_row(x, rows, d, t);
        let ghost before = e@;
        for k in 0..d
            invariant
                len == x@.len(),
                x@.len() == rows * d,
                t < rows,
                t * d + d <= len,
                m == row_max(x@, d as int, t as int, d as nat),
                forall|v: u32| call_requires(exp, (v,)),
                before.len() == t * d,
                e@.len() == t * d + k,
                forall|p: int| 0 <= p < t * d ==> #[trigger] e@[p] == before[p],
                forall|j: int|
                    0 <= j < k ==> call_ensures(
                        exp,
                        (rounding::difference(x@[t * d + j], m),),
                        #[trigger] e@[t * d + j],
                    ),
        {
            e.push(exp(rounding::minus(x[t * d + k], m)));
        }
        proof {
            assert(row_exps(exp, x@, d as int, t as int, e@));
            assert forall|r: int| 0 <= r < t implies #[trigger] row_exps(
                exp,
                x@,
                d as int,
                r,
                e@,
            ) by {
                assert(row_exps(exp, x@, d as int, r, before));
                assert forall|k: int| 0 <= k < d implies call_ensures(
                    exp,
                    (rounding::difference(
                        x@[r * d + k],
                        row_max(x@, d as int, r, d as nat),
                    ),),
                    #[trigger] e@[r * d + k],
                ) by {
                    quant::cell_position(r, k, t as int, d as int);
                    assert(e@[r * d + k] == before[r * d + k]);
                }
            }
        }
    }
    e
}

/// The sum of row `t`.
pub fn sum_of_row(x: &[u32], rows: usize, d: usize, t: usize) -> (s: u32)
    requires
        x@.len() == rows * d,
        t < rows,
    ensures
        s == norms::row_sum(x@, d as int, t as int, d as nat),
{
    let len: usize = x.len();
    let mut s: u32 = 0;
    for k in 0..d
        invariant
            len == x@.len(),
            x@.len() == rows * d,
            t < rows,
            s == norms::row_sum(x@, d as int, t as int, k as nat),
    {
        proof {
            quant::cell_position(t as int, k as int, rows as int, d as int);
        }
        s = rounding::plus(s, x[t * d + k]);
    }
    s
}

/// The softmax of all rows.
pub fn softmax_rows<E: Fn(u32) -> u32>(exp: &E, x: &[u32], rows: usize, d: usize) -> (p: Vec<u32>)
    requires
        x@.len() == rows * d,
        forall|v: u32| call_requires(exp, (v,)),
    ensures
        is_softmax(exp, x@, rows as int, d as int, p@),
        p@.len() == rows * d,
{
    let e: Vec<u32> = exp_rows(exp, x, rows, d);
    let n: usize = e.len();
    let mut p: Vec<u32> = Vec::new();
    for i in 0..n
        invariant
            n == e@.len(),
            e@.len() == rows * d,
            p@ =~= Seq::new(
                i as nat,
                |p: int|
                    rounding::quotient(
                        e@[p],
                        norms::row_sum(e@, d as int, p / (d as int), d as nat),
                    ),
            ),
    {
        proof {
            quant::flat_position(i as int, rows as int, d as int);
        }
        p.push(rounding::divide(e[i], sum_of_row(&e, rows, d, i / d)));
    }
    assert(p@ =~= normalised(e@, rows as int, d as int));
    p
}

/// Whether `l` holds, for every row, the largest element plus what `ln` may make of the sum of
/// exponentials.
pub open spec fn is_log_sum<E: Fn(u32) -> u32, L: Fn(u32) -> u32>(
    exp: &E,
    ln: &L,
    x: Seq<u32>,
    rows: int,
    d: int,
    l: Seq<u32>,
) -> bool {
    exists|e: Seq<u32>, g: Seq<u32>|
        #![trigger all_exps(exp, x, rows, d, e), all_logs(ln, e, rows, d, g)]
        all_exps(exp, x, rows, d, e) && all_logs(ln, e, rows, d, g) && l == Seq::new(
            rows as nat,
            |t: int| rounding::sum(row_max(x, d, t, d as nat), g[t]),
        )
}

/// Whether `g` holds what `ln` may make of the row sums of `e`.
pub open spec fn all_logs<L: Fn(u32) -> u32>(
    ln: &L,
    e: Seq<u32>,
    rows: int,
    d: int,
    g: Seq<u32>,
) -> bool {
    &&& g.len() == rows
    &&& forall|t: int|
        0 <= t < rows ==> call_ensures(
            ln,
            (norms::row_sum(e, d, t, d as nat),),
            #[trigger] g[t],
        )
}

/// The logarithm of the sum of exponentials of every row.
pub fn log_sum_exp<E: Fn(u32) -> u32, L: Fn(u32) -> u32>(
    exp: &E,
    ln: &L,
    x: &[u32],
    rows: usize,
    d: usize,
) -> (l: Vec<u32>)
    requires
        x@.len() == rows * d,
        forall|v: u32| call_requires(exp, (v,)),
        forall|v: u32| call_requires(ln, (v,)),
    ensures
        is_log_sum(exp, ln, x@, rows as int, d as int, l@),
        l@.len() == rows,
{
    let e: Vec<u32> = exp_rows(exp, x, rows, d);
    let mut l: Vec<u32> = Vec::new();
    let ghost mut g: Seq<u32> = Seq::empty();
    for t in 0..rows
        invariant
            x@.len() == rows * d,
            e@.len() == rows * d,
            forall|v: u32| call_requires(ln, (v,)),
            g.len() == t,
            forall|r: int|
                0 <= r < t ==> call_ensures(
                    ln,
                    (norms::row_sum(e@, d as int, r, d as nat),),
                    #[trigger] g[r],
                ),
            l@ =~= Seq::new(
                t as nat,
                |t: int| rounding::sum(row_max(x@, d as int, t, d as nat), g[t]),
            ),
    {
        let s: u32 = sum_of_row(&e, rows, d, t);
        let v: u32 = ln(s);
        let ghost before = g;
        proof {
            g = g.push(v);
        }
        l.push(rounding::plus(max_of_row(x, rows, d, t), v));
        assert forall|r: int| 0 <= r < t implies before[r] == g[r] by {}
    }
    assert(all_logs(ln, e@, rows as int, d as int, g));
    l
}

/// Softmax does not look at other rows.
pub proof fn softmax_rows_are_independent(a: Seq<u32>, b: Seq<u32>, rows: int, d: int, t: int, k: int)
    requires
        0 <= t < rows,
        0 <= k < d,
        forall|j: int| 0 <= j < d ==> #[trigger] a[t * d + j] == b[t * d + j],
    ensures
        normalised(a, rows, d)[t * d + k] == normalised(b, rows, d)[t * d + k],
{
    quant::cell_position(t, k, rows, d);
    assert(a[t * d + k] == b[t * d + k]);
    lemma_row_sum_is_local(a, b, d, t, d as nat);
}

} // verus!
