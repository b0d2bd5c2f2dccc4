//! What masks do to a loss.

use crate::loss;
use crate::norms;
use crate::rounding;
use crate::softmax;
use vstd::prelude::*;

verus! {

/// Whether a curve has one value for every number.
pub open spec fn single_valued<F: Fn(u32) -> u32>(f: &F) -> bool {
    forall|v: u32, a: u32, b: u32|
        #[trigger] call_ensures(f, (v,), a) && #[trigger] call_ensures(f, (v,), b) ==> a == b
}

/// Whether two batches agree on row `i`.
pub open spec fn same_row(x: Seq<u32>, y: Seq<u32>, d: int, i: int) -> bool {
    forall|j: int| 0 <= j < d ==> #[trigger] x[i * d + j] == y[i * d + j]
}

/// Whether two masks let the same of `b` rows take part.
pub open spec fn same_rows(m: Option<Seq<bool>>, k: Option<Seq<bool>>, b: int) -> bool {
    forall|i: int| 0 <= i < b ==> #[trigger] loss::supervised(m, i) == loss::supervised(k, i)
}

proof fn lemma_row_max_is_local(x: Seq<u32>, y: Seq<u32>, d: int, i: int, k: nat)
    requires
        same_row(x, y, d, i),
        k <= d,
    ensures
        softmax::row_max(x, d, i, k) == softmax::row_max(y, d, i, k),
    decreases k,
{
    if k > 0 {
        lemma_row_max_is_local(x, y, d, i, (k - 1) as nat);
        assert(x[i * d + (k - 1)] == y[i * d + (k - 1)]);
    }
}

proof fn lemma_row_sum_is_local(x: Seq<u32>, y: Seq<u32>, d: int, i: int, k: nat)
    requires
        same_row(x, y, d, i),
        k <= d,
    ensures
        norms::row_sum(x, d, i, k) == norms::row_sum(y, d, i, k),
    decreases k,
{
    if k > 0 {
        lemma_row_sum_is_local(x, y, d, i, (k - 1) as nat);
        assert(x[i * d + (k - 1)] == y[i * d + (k - 1)]);
    }
}

proof fn lemma_divisor(m: Option<Seq<bool>>, k: Option<Seq<bool>>, b: nat)
    requires
        same_rows(m, k, b as int),
    ensures
        loss::taking_part(m, b) == loss::taking_part(k, b),
        loss::divisor(m, b) == loss::divisor(k, b),
    decreases b,
{
    if b > 0 {
        lemma_divisor(m, k, (b - 1) as nat);
        assert(loss::supervised(m, b - 1) == loss::supervised(k, b - 1));
    }
}

/// A row that does not take part has the loss zero whatever it holds; one that does has a loss of
/// its own numbers.
proof fn lemma_row_loss_moves<E: Fn(u32) -> u32, L: Fn(u32) -> u32>(
    exp: &E,
    ln: &L,
    x: Seq<u32>,
    y: Seq<u32>,
    d: int,
    targets: Seq<usize>,
    m: Option<Seq<bool>>,
    k: Option<Seq<bool>>,
    i: int,
    nll: u32,
)
    requires
        d >= 0,
        loss::supervised(m, i) == loss::supervised(k, i),
        loss::supervised(m, i) ==> same_row(x, y, d, i) && targets[i] < d,
        loss::is_row_loss(exp, ln, x, d, targets, m, i, nll),
    ensures
        loss::is_row_loss(exp, ln, y, d, targets, k, i, nll),
{
    if loss::supervised(m, i) {
        let t = targets[i] as int;
        let (e, g) = choose|e: Seq<u32>, g: u32|
            #![trigger softmax::row_exps(exp, x, d, i, e), loss::row_loss(x, d, i, t, g)]
            e.len() == (i + 1) * d && softmax::row_exps(exp, x, d, i, e) && call_ensures(
                ln,
                (norms::row_sum(e, d, i, d as nat),),
                g,
            ) && nll == loss::row_loss(x, d, i, t, g);
        lemma_row_max_is_local(x, y, d, i, d as nat);
        assert(softmax::row_exps(exp, y, d, i, e)) by {
            assert forall|j: int| 0 <= j < d implies call_ensures(
                exp,
                (rounding::difference(
                    y[i * d + j],
                    softmax::row_max(y, d, i, d as nat),
                ),),
                #[trigger] e[i * d + j],
            ) by {
                assert(x[i * d + j] == y[i * d + j]);
            }
        }
        assert(x[i * d + t] == y[i * d + t]);
        assert(nll == loss::row_loss(y, d, i, t, g));
    }
}

/// Rows that take no part do not matter, nor does how a mask says that they take none: batches that
/// agree on the rows that take part have the same losses.
pub proof fn losses_rest_on_the_rows_that_take_part<E: Fn(u32) -> u32, L: Fn(u32) -> u32>(
    exp: &E,
    ln: &L,
    x: Seq<u32>,
    y: Seq<u32>,
    b: int,
    d: int,
    targets: Seq<usize>,
    m: Option<Seq<bool>>,
    k: Option<Seq<bool>>,
    l: u32,
)
    requires
        b >= 0,
        d >= 0,
        same_rows(m, k, b),
        forall|i: int| 0 <= i < b && #[trigger] loss::supervised(m, i) ==> same_row(x, y, d, i),
        forall|i: int| 0 <= i < b ==> #[trigger] targets[i] < d,
        loss::is_cross_entropy(exp, ln, x, b, d, targets, m, l),
    ensures
        loss::is_cross_entropy(exp, ln, y, b, d, targets, k, l),
{
    let nll = choose|nll: Seq<u32>|
        #![trigger loss::running_sum(nll, b as nat)]
        nll.len() == b && (forall|i: int|
            0 <= i < b ==> loss::is_row_loss(
                exp,
                ln,
                x,
                d,
                targets,
                m,
                i,
                #[trigger] nll[i],
            )) && l == rounding::quotient(
            loss::running_sum(nll, b as nat),
            rounding::count_value(loss::divisor(m, b as nat)),
        );
    lemma_divisor(m, k, b as nat);
    assert forall|i: int| 0 <= i < b implies loss::is_row_loss(
        exp,
        ln,
        y,
        d,
        targets,
        k,
        i,
        #[trigger] nll[i],
    ) by {
        assert(loss::supervised(m, i) == loss::supervised(k, i));
        assert(targets[i] < d);
        lemma_row_loss_moves(exp, ln, x, y, d, targets, m, k, i, nll[i]);
    }
    assert(l == rounding::quotient(
        loss::running_sum(nll, b as nat),
        rounding::count_value(loss::divisor(k, b as nat)),
    ));
}

proof fn lemma_row_loss_is_unique<E: Fn(u32) -> u32, L: Fn(u32) -> u32>(
    exp: &E,
    ln: &L,
    x: Seq<u32>,
    d: int,
    targets: Seq<usize>,
    m: Option<Seq<bool>>,
    i: int,
    a: u32,
    b: u32,
)
    requires
        d >= 0,
        single_valued(exp),
        single_valued(ln),
        loss::is_row_loss(exp, ln, x, d, targets, m, i, a),
        loss::is_row_loss(exp, ln, x, d, targets, m, i, b),
    ensures
        a == b,
{
    if loss::supervised(m, i) {
        let t = targets[i] as int;
        let (e, g) = choose|e: Seq<u32>, g: u32|
            #![trigger softmax::row_exps(exp, x, d, i, e), loss::row_loss(x, d, i, t, g)]
            e.len() == (i + 1) * d && softmax::row_exps(exp, x, d, i, e) && call_ensures(
                ln,
                (norms::row_sum(e, d, i, d as nat),),
                g,
            ) && a == loss::row_loss(x, d, i, t, g);
        let (f, h) = choose|f: Seq<u32>, h: u32|
            #![trigger softmax::row_exps(exp, x, d, i, f), loss::row_loss(x, d, i, t, h)]
            f.len() == (i + 1) * d && softmax::row_exps(exp, x, d, i, f) && call_ensures(
                ln,
                (norms::row_sum(f, d, i, d as nat),),
                h,
            ) && b == loss::row_loss(x, d, i, t, h);
        assert(same_row(e, f, d, i)) by {
            assert forall|j: int| 0 <= j < d implies #[trigger] e[i * d + j] == f[i * d + j] by {
                let v = rounding::difference(
                    x[i * d + j],
                    softmax::row_max(x, d, i, d as nat),
                );
                assert(call_ensures(exp, (v,), e[i * d + j]));
                assert(call_ensures(exp, (v,), f[i * d + j]));
            }
        }
        lemma_row_sum_is_local(e, f, d, i, d as nat);
        assert(g == h);
    }
}

/// Where the exponential and the logarithm have one value for every number, a batch has one loss.
pub proof fn losses_are_unique<E: Fn(u32) -> u32, L: Fn(u32) -> u32>(
    exp: &E,
    ln: &L,
    x: Seq<u32>,
    b: int,
    d: int,
    targets: Seq<usize>,
    m: Option<Seq<bool>>,
    l: u32,
    k: u32,
)
    requires
        b >= 0,
        d >= 0,
        single_valued(exp),
        single_valued(ln),
        loss::is_cross_entropy(exp, ln, x, b, d, targets, m, l),
        loss::is_cross_entropy(exp, ln, x, b, d, targets, m, k),
    ensures
        l == k,
{
    let u = choose|nll: Seq<u32>|
        #![trigger loss::running_sum(nll, b as nat)]
        nll.len() == b && (forall|i: int|
            0 <= i < b ==> loss::is_row_loss(
                exp,
                ln,
                x,
                d,
                targets,
                m,
                i,
                #[trigger] nll[i],
            )) && l == rounding::quotient(
            loss::running_sum(nll, b as nat),
            rounding::count_value(loss::divisor(m, b as nat)),
        );
    let v = choose|nll: Seq<u32>|
        #![trigger loss::running_sum(nll, b as nat)]
        nll.len() == b && (forall|i: int|
            0 <= i < b ==> loss::is_row_loss(
                exp,
                ln,
                x,
                d,
                targets,
                m,
                i,
                #[trigger] nll[i],
            )) && k == rounding::quotient(
            loss::running_sum(nll, b as nat),
            rounding::count_value(loss::divisor(m, b as nat)),
        );
    assert forall|i: int| 0 <= i < b implies u[i] == v[i] by {
        lemma_row_loss_is_unique(exp, ln, x, d, targets, m, i, u[i], v[i]);
    }
    assert(u =~= v);
}

/// No mask and a mask that lets every row take part give the same loss, bit for bit.
pub proof fn full_masks_cost_the_same<E: Fn(u32) -> u32, L: Fn(u32) -> u32>(
    exp: &E,
    ln: &L,
    x: Seq<u32>,
    b: int,
    d: int,
    targets: Seq<usize>,
    m: Seq<bool>,
    l: u32,
    k: u32,
)
    requires
        b >= 0,
        d >= 0,
        single_valued(exp),
        single_valued(ln),
        m.len() == b,
        forall|i: int| 0 <= i < b ==> #[trigger] m[i],
        forall|i: int| 0 <= i < b ==> #[trigger] targets[i] < d,
        loss::is_cross_entropy(exp, ln, x, b, d, targets, None, l),
        loss::is_cross_entropy(exp, ln, x, b, d, targets, Some(m), k),
    ensures
        l == k,
{
    assert(same_rows(None, Some(m), b)) by {
        assert forall|i: int| 0 <= i < b implies #[trigger] loss::supervised(None, i)
            == loss::supervised(Some(m), i) by {
            assert(m[i]);
        }
    }
    losses_rest_on_the_rows_that_take_part(exp, ln, x, x, b, d, targets, None, Some(m), l);
    losses_are_unique(exp, ln, x, b, d, targets, Some(m), l, k);
}

/// Batches that differ only in rows that take no part have the same loss, bit for bit.
pub proof fn masked_rows_do_not_matter<E: Fn(u32) -> u32, L: Fn(u32) -> u32>(
    exp: &E,
    ln: &L,
    x: Seq<u32>,
    y: Seq<u32>,
    b: int,
    d: int,
    targets: Seq<usize>,
    m: Seq<bool>,
    l: u32,
    k: u32,
)
    requires
        b >= 0,
        d >= 0,
        single_valued(exp),
        single_valued(ln),
        m.len() == b,
        forall|i: int| 0 <= i < b && #[trigger] m[i] ==> same_row(x, y, d, i),
        forall|i: int| 0 <= i < b ==> #[trigger] targets[i] < d,
        loss::is_cross_entropy(exp, ln, x, b, d, targets, Some(m), l),
        loss::is_cross_entropy(exp, ln, y, b, d, targets, Some(m), k),
    ensures
        l == k,
{
    assert forall|i: int| 0 <= i < b && #[trigger] loss::supervised(
        Some(m),
        i,
    ) implies same_row(x, y, d, i) by {
        assert(m[i]);
    }
    losses_rest_on_the_rows_that_take_part(exp, ln, x, y, b, d, targets, Some(m), Some(m), l);
    losses_are_unique(exp, ln, y, b, d, targets, Some(m), l, k);
}

} // verus!
