//! Losses: mean squared error, and cross entropy over the supervised rows.

use crate::float_bits::ONE_BITS;
use crate::norms;
use crate::quant;
use crate::rounding;
use crate::softmax;
use vstd::prelude::*;

verus! {

/// The sum of the first `k` squared differences.
pub open spec fn squares(pred: Seq<u32>, target: Seq<u32>, k: nat) -> u32
    decreases k,
{
    if k == 0 {
        0
    } else {
        let v = rounding::difference(pred[k - 1], target[k - 1]);
        rounding::sum(squares(pred, target, (k - 1) as nat), rounding::product(v, v))
    }
}

/// `mean((pred - target)^2)`.
pub open spec fn mean_square(pred: Seq<u32>, target: Seq<u32>) -> u32 {
    rounding::product(
        squares(pred, target, pred.len()),
        rounding::quotient(ONE_BITS, rounding::count_value(pred.len() as int)),
    )
}

/// The mean squared error.
pub fn mse_loss(pred: &[u32], target: &[u32]) -> (l: u32)
    requires
        pred@.len() == target@.len(),
    ensures
        l == mean_square(pred@, target@),
{
    let n: usize = pred.len();
    let mut s: u32 = 0;
    for k in 0..n
        invariant
            n == pred@.len(),
            pred@.len() == target@.len(),
            s == squares(pred@, target@, k as nat),
    {
        let v: u32 = rounding::minus(pred[k], target[k]);
        s = rounding::plus(s, rounding::multiply(v, v));
    }
    rounding::multiply(s, rounding::divide(ONE_BITS, rounding::from_count(n as u64)))
}

/// Whether row `i` takes part: all rows do without a mask.
pub open spec fn supervised(mask: Option<Seq<bool>>, i: int) -> bool {
    match mask {
        Some(m) => m[i],
        None => true,
    }
}

/// The mask behind a reference.
pub open spec fn mask_of(mask: Option<&[bool]>) -> Option<Seq<bool>> {
    match mask {
        Some(m) => Some(m@),
        None => None,
    }
}

/// How many of the first `k` rows take part.
pub open spec fn taking_part(mask: Option<Seq<bool>>, k: nat) -> nat
    decreases k,
{
    if k == 0 {
        0
    } else {
        taking_part(mask, (k - 1) as nat) + if supervised(mask, k - 1) {
            1nat
        } else {
            0nat
        }
    }
}

/// What the loss is divided by: the rows that take part, at least one.
pub open spec fn divisor(mask: Option<Seq<bool>>, b: nat) -> int {
    if taking_part(mask, b) == 0 {
        1
    } else {
        taking_part(mask, b) as int
    }
}

/// The loss of row `i`, from the logarithm `g` of its sum of exponentials:
/// `-(x[target] - max - g)`.
pub open spec fn row_loss(x: Seq<u32>, d: int, i: int, target: int, g: u32) -> u32 {
    rounding::opposite(
        rounding::difference(
            rounding::difference(x[i * d + target], softmax::row_max(x, d, i, d as nat)),
            g,
        ),
    )
}

/// Whether `nll` may be the loss of row `i`: zero where it takes no part, otherwise from what
/// `exp` and `ln` may make of the row.
pub open spec fn is_row_loss<E: Fn(u32) -> u32, L: Fn(u32) -> u32>(
    exp: &E,
    ln: &L,
    x: Seq<u32>,
    d: int,
    targets: Seq<usize>,
    mask: Option<Seq<bool>>,
    i: int,
    nll: u32,
) -> bool {
    if supervised(mask, i) {
        exists|e: Seq<u32>, g: u32|
            #![trigger softmax::row_exps(exp, x, d, i, e), row_loss(x, d, i, targets[i] as int, g)]
            e.len() == (i + 1) * d && softmax::row_exps(exp, x, d, i, e) && call_ensures(
                ln,
                (norms::row_sum(e, d, i, d as nat),),
                g,
            ) && nll == row_loss(x, d, i, targets[i] as int, g)
    } else {
        nll == 0
    }
}

/// The sum of the first `k` elements in order.
pub open spec fn running_sum(v: Seq<u32>, k: nat) -> u32
    decreases k,
{
    if k == 0 {
        0
    } else {
        rounding::sum(running_sum(v, (k - 1) as nat), v[k - 1])
    }
}

/// Whether `l` may be the cross entropy of `b` rows.
pub open spec fn is_cross_entropy<E: Fn(u32) -> u32, L: Fn(u32) -> u32>(
    exp: &E,
    ln: &L,
    x: Seq<u32>,
    b: int,
    d: int,
    targets: Seq<usize>,
    mask: Option<Seq<bool>>,
    l: u32,
) -> bool {
    exists|nll: Seq<u32>|
        #![trigger running_sum(nll, b as nat)]
        nll.len() == b && (forall|i: int|
            0 <= i < b ==> is_row_loss(exp, ln, x, d, targets, mask, i, #[trigger] nll[i])) && l
            == rounding::quotient(
            running_sum(nll, b as nat),
            rounding::count_value(divisor(mask, b as nat)),
        )
}

fn takes_part(mask: Option<&[bool]>, i: usize) -> (r: bool)
    requires
        mask matches Some(m) ==> i < m@.len(),
    ensures
        r == supervised(mask_of(mask), i as int),
{
    match mask {
        Some(m) => m[i],
        None => true,
    }
}

/// What the loss is divided by.
pub fn count_supervised(mask: Option<&[bool]>, b: usize) -> (n: usize)
    requires
        mask matches Some(m) ==> m@.len() == b,
    ensures
        n == divisor(mask_of(mask), b as nat),
{
    let mut n: usize = 0;
    for i in 0..b
        invariant
            mask matches Some(m) ==> m@.len() == b,
            n == taking_part(mask_of(mask), i as nat),
            n <= i,
    {
        if takes_part(mask, i) {
            n = n + 1;
        }
    }
    if n == 0 {
        1
    } else {
        n
    }
}

/// The exponentials of row `t` alone, after filler for the rows before it.
fn exps_of_row<E: Fn(u32) -> u32>(exp: &E, x: &[u32], rows: usize, d: usize, t: usize) -> (r: (
    Vec<u32>,
    u32,
))
    requires
        x@.len() == rows * d,
        t < rows,
        forall|v: u32| call_requires(exp, (v,)),
    ensures
        r.0@.len() == d,
        r.1 == softmax::row_max(x@, d as int, t as int, d as nat),
        forall|k: int|
            0 <= k < d ==> call_ensures(
                exp,
                (rounding::difference(
                    x@[t * d + k],
                    softmax::row_max(x@, d as int, t as int, d as nat),
                ),),
                #[trigger] r.0@[k],
            ),
{
    let len: usize = x.len();
    let m: u32 = softmax::max_of_row(x, rows, d, t);
    let mut e: Vec<u32> = Vec::new();
    for k in 0..d
        invariant
            len == x@.len(),
            x@.len() == rows * d,
            t < rows,
            m == softmax::row_max(x@, d as int, t as int, d as nat),
            forall|v: u32| call_requires(exp, (v,)),
            e@.len() == k,
            forall|j: int|
                0 <= j < k ==> call_ensures(
                    exp,
                    (rounding::difference(x@[t * d + j], m),),
                    #[trigger] e@[j],
                ),
    {
        proof {
            quant::cell_position(t as int, k as int, rows as int, d as int);
        }
        e.push(exp(rounding::minus(x[t * d + k], m)));
    }
    (e, m)
}

/// A single row moved to place `t` of a matrix.
spec fn placed(e: Seq<u32>, d: int, t: int) -> Seq<u32> {
    Seq::new(((t + 1) * d) as nat, |p: int| e[p - t * d])
}

proof fn lemma_placed_sum(e: Seq<u32>, d: int, t: int, k: nat)
    requires
        e.len() == d,
        k <= d,
        t >= 0,
    ensures
        norms::row_sum(placed(e, d, t), d, t, k) == norms::row_sum(e, d, 0, k),
    decreases k,
{
    if k > 0 {
        lemma_placed_sum(e, d, t, (k - 1) as nat);
        assert((t + 1) * d == t * d + d) by (nonlinear_arith);
        assert(0 <= t * d) by (nonlinear_arith)
            requires
                t >= 0,
                d >= 0,
        ;
        assert(0 * d == 0);
        assert(placed(e, d, t)[t * d + (k - 1)] == e[k - 1]);
    }
}

/// The loss of one row. The rows do not depend on each other, so they may be computed in any order
/// or at the same time.
pub fn row_nll<E: Fn(u32) -> u32, L: Fn(u32) -> u32>(
    logits: &[u32],
    b: usize,
    d: usize,
    targets: &[usize],
    mask: Option<&[bool]>,
    i: usize,
    exp: &E,
    ln: &L,
) -> (nll: u32)
    requires
        logits@.len() == b * d,
        targets@.len() == b,
        mask matches Some(m) ==> m@.len() == b,
        i < b,
        targets@[i as int] < d,
        forall|v: u32| call_requires(exp, (v,)),
        forall|v: u32| call_requires(ln, (v,)),
    ensures
        is_row_loss(exp, ln, logits@, d as int, targets@, mask_of(mask), i as int, nll),
{
    if !takes_part(mask, i) {
        return 0;
    }
    let t: usize = targets[i];
    let len: usize = logits.len();
    proof {
        quant::cell_position(i as int, t as int, b as int, d as int);
    }
    let (e, m): (Vec<u32>, u32) = exps_of_row(exp, logits, b, d, i);
    assert(1 * d == d);
    let s: u32 = softmax::sum_of_row(&e, 1, d, 0);
    let g: u32 = ln(s);
    let own: u32 = rounding::negate(rounding::minus(rounding::minus(logits[i * d + t], m), g));
    proof {
        let p = placed(e@, d as int, i as int);
        lemma_placed_sum(e@, d as int, i as int, d as nat);
        assert((i + 1) * d == i * d + d && 0 <= i * d) by (nonlinear_arith)
            requires
                i >= 0,
                d >= 0,
        ;
        assert forall|k: int| 0 <= k < d implies call_ensures(
            exp,
            (rounding::difference(
                logits@[i * d + k],
                softmax::row_max(logits@, d as int, i as int, d as nat),
            ),),
            #[trigger] p[i * d + k],
        ) by {
            assert(p[i * d + k] == e@[k]);
        }
        assert(softmax::row_exps(exp, logits@, d as int, i as int, p));
        assert(own == row_loss(logits@, d as int, i as int, targets@[i as int] as int, g));
    }
    own
}

/// The mean of the losses of the rows, over those that take part.
pub fn mean_nll(nll: &[u32], mask: Option<&[bool]>) -> (l: u32)
    requires
        mask matches Some(m) ==> m@.len() == nll@.len(),
    ensures
        l == rounding::quotient(
            running_sum(nll@, nll@.len()),
            rounding::count_value(divisor(mask_of(mask), nll@.len())),
        ),
{
    let valid: usize = count_supervised(mask, nll.len());
    let mut total: u32 = 0;
    for i in 0..nll.len()
        invariant
            total == running_sum(nll@, i as nat),
    {
        total = rounding::plus(total, nll[i]);
    }
    rounding::divide(total, rounding::from_count(valid as u64))
}

/// Cross entropy over the supervised rows: `-mean(log softmax(logits)[target])`, divided by the
/// number of supervised rows, so that the share of masked rows does not change its scale.
pub fn cross_entropy_loss_masked<E: Fn(u32) -> u32, L: Fn(u32) -> u32>(
    logits: &[u32],
    b: usize,
    d: usize,
    targets: &[usize],
    mask: Option<&[bool]>,
    exp: &E,
    ln: &L,
) -> (l: u32)
    requires
        logits@.len() == b * d,
        targets@.len() == b,
        mask matches Some(m) ==> m@.len() == b,
        forall|i: int| 0 <= i < b ==> #[trigger] targets@[i] < d,
        forall|v: u32| call_requires(exp, (v,)),
        forall|v: u32| call_requires(ln, (v,)),
    ensures
        is_cross_entropy(
            exp,
            ln,
            logits@,
            b as int,
            d as int,
            targets@,
            mask_of(mask),
            l,
        ),
{
    let mut nll: Vec<u32> = Vec::new();
    for i in 0..b
        invariant
            logits@.len() == b * d,
            targets@.len() == b,
            mask matches Some(m) ==> m@.len() == b,
            forall|i: int| 0 <= i < b ==> #[trigger] targets@[i] < d,
            forall|v: u32| call_requires(exp, (v,)),
            forall|v: u32| call_requires(ln, (v,)),
            nll@.len() == i,
            forall|j: int|
                0 <= j < i ==> is_row_loss(
                    exp,
                    ln,
                    logits@,
                    d as int,
                    targets@,
                    mask_of(mask),
                    j,
                    #[trigger] nll@[j],
                ),
    {
        nll.push(row_nll(logits, b, d, targets, mask, i, exp, ln));
    }
    mean_nll(&nll, mask)
}

/// Cross entropy over all rows.
pub fn cross_entropy_loss<E: Fn(u32) -> u32, L: Fn(u32) -> u32>(
    logits: &[u32],
    b: usize,
    d: usize,
    targets: &[usize],
    exp: &E,
    ln: &L,
) -> (l: u32)
    requires
        logits@.len() == b * d,
        targets@.len() == b,
        forall|i: int| 0 <= i < b ==> #[trigger] targets@[i] < d,
        forall|v: u32| call_requires(exp, (v,)),
        forall|v: u32| call_requires(ln, (v,)),
    ensures
        is_cross_entropy(exp, ln, logits@, b as int, d as int, targets@, None, l),
{
    cross_entropy_loss_masked(logits, b, d, targets, None, exp, ln)
}

/// A mask that lets every row take part is as good as none.
pub proof fn full_masks_are_no_masks(m: Seq<bool>, k: nat)
    requires
        k <= m.len(),
        forall|i: int| 0 <= i < m.len() ==> #[trigger] m[i],
    ensures
        taking_part(Some(m), k) == taking_part(None, k),
        taking_part(None, k) == k,
        forall|i: int| 0 <= i < m.len() ==> supervised(Some(m), i) == supervised(None, i),
    decreases k,
{
    if k > 0 {
        full_masks_are_no_masks(m, (k - 1) as nat);
        assert(m[k - 1]);
    }
}

/// Without a row that takes part the loss is zero.
pub proof fn masked_batches_cost_nothing<E: Fn(u32) -> u32, L: Fn(u32) -> u32>(
    exp: &E,
    ln: &L,
    x: Seq<u32>,
    b: int,
    d: int,
    targets: Seq<usize>,
    mask: Seq<bool>,
    l: u32,
)
    requires
        b >= 0,
        mask.len() == b,
        forall|i: int| 0 <= i < b ==> !#[trigger] mask[i],
        is_cross_entropy(exp, ln, x, b, d, targets, Some(mask), l),
    ensures
        l == 0,
{
    let nll = choose|nll: Seq<u32>|
        #![trigger running_sum(nll, b as nat)]
        nll.len() == b && (forall|i: int|
            0 <= i < b ==> is_row_loss(exp, ln, x, d, targets, Some(mask), i, #[trigger] nll[i]))
            && l == rounding::quotient(
            running_sum(nll, b as nat),
            rounding::count_value(divisor(Some(mask), b as nat)),
        );
    lemma_none_take_part(mask, b as nat);
    assert forall|i: int| 0 <= i < b implies #[trigger] nll[i] == 0 by {
        assert(is_row_loss(exp, ln, x, d, targets, Some(mask), i, nll[i]));
        assert(!mask[i]);
    }
    lemma_zero_sum(nll, b as nat);
    crate::quant_laws::one_is_one();
    lemma_zero_over_one();
}

proof fn lemma_none_take_part(mask: Seq<bool>, k: nat)
    requires
        k <= mask.len(),
        forall|i: int| 0 <= i < mask.len() ==> !#[trigger] mask[i],
    ensures
        taking_part(Some(mask), k) == 0,
    decreases k,
{
    if k > 0 {
        lemma_none_take_part(mask, (k - 1) as nat);
        assert(!mask[k - 1]);
    }
}

proof fn lemma_zero_sum(v: Seq<u32>, k: nat)
    requires
        k <= v.len(),
        forall|i: int| 0 <= i < k ==> #[trigger] v[i] == 0,
    ensures
        running_sum(v, k) == 0,
    decreases k,
{
    if k > 0 {
        lemma_zero_sum(v, (k - 1) as nat);
        assert(v[k - 1] == 0);
        crate::layer_laws::sum_with_zero(0, 0);
    }
}

proof fn lemma_zero_over_one()
    ensures
        rounding::quotient(0, rounding::count_value(1)) == 0,
{
    let one = crate::float_bits::one();
    crate::quant_laws::one_is_one();
    vstd::arithmetic::power2::lemma_pow2_pos(149);
    assert(1 * one == one && 0 * one == 0);
    assert(rounding::count_value(1) == ONE_BITS);
    assert(crate::float_bits::units(0) == 0) by {
        let p = vstd::arithmetic::power2::pow2(crate::float_bits::doublings(0));
        assert(0 * p == 0);
    }
    assert(0int / one == 0 && 0int % one == 0) by {
        vstd::arithmetic::div_mod::lemma_fundamental_div_mod_converse(0, one, 0, 0);
    }
    assert(rounding::nearest(0, one) == 0);
}

/// The gradient of one logit: `scale * (softmax - target)` added to what is there, and nothing
/// where the row takes no part.
pub open spec fn grad_cell(
    before: u32,
    e: Seq<u32>,
    d: int,
    targets: Seq<usize>,
    mask: Option<Seq<bool>>,
    scale: u32,
    i: int,
    j: int,
) -> u32 {
    if supervised(mask, i) {
        let inv = rounding::quotient(ONE_BITS, norms::row_sum(e, d, i, d as nat));
        let v = rounding::sum(
            before,
            rounding::product(scale, rounding::product(e[i * d + j], inv)),
        );
        if j == targets[i] {
            rounding::difference(v, scale)
        } else {
            v
        }
    } else {
        before
    }
}

/// Whether `e` holds what `exp` may make of the rows that take part.
pub open spec fn supervised_exps<E: Fn(u32) -> u32>(
    exp: &E,
    x: Seq<u32>,
    b: int,
    d: int,
    mask: Option<Seq<bool>>,
    e: Seq<u32>,
) -> bool {
    &&& e.len() == b * d
    &&& forall|i: int|
        0 <= i < b && supervised(mask, i) ==> #[trigger] softmax::row_exps(exp, x, d, i, e)
}

/// Whether `r` may be the gradients after the backward pass of cross entropy.
pub open spec fn is_gradient<E: Fn(u32) -> u32>(
    exp: &E,
    x: Seq<u32>,
    b: int,
    d: int,
    targets: Seq<usize>,
    mask: Option<Seq<bool>>,
    upstream: u32,
    before: Seq<u32>,
    r: Seq<u32>,
) -> bool {
    exists|e: Seq<u32>| #[trigger]
        supervised_exps(exp, x, b, d, mask, e) && r == Seq::new(
            (b * d) as nat,
            |p: int|
                grad_cell(
                    before[p],
                    e,
                    d,
                    targets,
                    mask,
                    rounding::quotient(
                        upstream,
                        rounding::count_value(divisor(mask, b as nat)),
                    ),
                    p / d,
                    p % d,
                ),
        )
}

/// Adds the gradient of cross entropy to the gradients of the logits.
pub fn cross_entropy_grad<E: Fn(u32) -> u32>(
    logits: &[u32],
    b: usize,
    d: usize,
    targets: &[usize],
    mask: Option<&[bool]>,
    upstream: u32,
    grad: &[u32],
    exp: &E,
) -> (r: Vec<u32>)
    requires
        logits@.len() == b * d,
        grad@.len() == b * d,
        targets@.len() == b,
        mask matches Some(m) ==> m@.len() == b,
        forall|i: int| 0 <= i < b ==> #[trigger] targets@[i] < d,
        forall|v: u32| call_requires(exp, (v,)),
    ensures
        is_gradient(
            exp,
            logits@,
            b as int,
            d as int,
            targets@,
            mask_of(mask),
            upstream,
            grad@,
            r@,
        ),
{
    let n: usize = logits.len();
    let scale: u32 = rounding::divide(
        upstream,
        rounding::from_count(count_supervised(mask, b) as u64),
    );
    let ghost m = mask_of(mask);
    let mut all: Vec<u32> = Vec::new();
    let mut r: Vec<u32> = Vec::new();
    assert(0 * d == 0);
    for i in 0..b
        invariant
            n == logits@.len(),
            logits@.len() == b * d,
            grad@.len() == b * d,
            targets@.len() == b,
            mask matches Some(m) ==> m@.len() == b,
            m == mask_of(mask),
            forall|i: int| 0 <= i < b ==> #[trigger] targets@[i] < d,
            forall|v: u32| call_requires(exp, (v,)),
            all@.len() == i * d,
            r@.len() == i * d,
            i * d <= n,
            forall|t: int|
                0 <= t < i && supervised(m, t) ==> #[trigger] softmax::row_exps(
                    exp,
                    logits@,
                    d as int,
                    t,
                    all@,
                ),
            forall|p: int|
                0 <= p < i * d ==> #[trigger] r@[p] == grad_cell(
                    grad@[p],
                    all@,
                    d as int,
                    targets@,
                    m,
                    scale,
                    p / (d as int),
                    p % (d as int),
                ),
    {
        proof {
            assert((i + 1) * d == i * d + d && (i + 1) * d <= b * d) by (nonlinear_arith)
                requires
                    i + 1 <= b,
                    d >= 0,
            ;
        }
        let on: bool = takes_part(mask, i);
        let (mut e, mx): (Vec<u32>, u32) = if on {
            exps_of_row(exp, logits, b, d, i)
        } else {
            (crate::params::zero_vec(d), 0)
        };
        assert(1 * d == d);
        let s: u32 = softmax::sum_of_row(&e, 1, d, 0);
        let inv: u32 = rounding::divide(ONE_BITS, s);
        let t: usize = targets[i];
        let ghost before = all@;
        let ghost done = r@;
        let ghost own = e@;
        for j in 0..d
            invariant
                n == logits@.len(),
                logits@.len() == b * d,
                grad@.len() == b * d,
                i < b,
                i * d + d <= n,
                t == targets@[i as int],
                e@ == own,
                own.len() == d,
                done.len() == i * d,
                r@.len() == i * d + j,
                forall|p: int| 0 <= p < i * d ==> #[trigger] r@[p] == done[p],
                forall|k: int|
                    0 <= k < j ==> #[trigger] r@[i * d + k] == if on {
                        let v = rounding::sum(
                            grad@[i * d + k],
                            rounding::product(scale, rounding::product(own[k], inv)),
                        );
                        if k == t {
                            rounding::difference(v, scale)
                        } else {
                            v
                        }
                    } else {
                        grad@[i * d + k]
                    },
        {
            let g: u32 = grad[i * d + j];
            if on {
                let v: u32 = rounding::plus(
                    g,
                    rounding::multiply(scale, rounding::multiply(e[j], inv)),
                );
                if j == t {
                    r.push(rounding::minus(v, scale));
                } else {
                    r.push(v);
                }
            } else {
                r.push(g);
            }
        }
        all.append(&mut e);
        proof {
            lemma_appended_row(before, own, d as int, i as int, d as nat);
            assert forall|q: int| 0 <= q < i && supervised(m, q) implies #[trigger] softmax::row_exps(
                exp,
                logits@,
                d as int,
                q,
                all@,
            ) by {
                assert(softmax::row_exps(exp, logits@, d as int, q, before));
                assert forall|k: int| 0 <= k < d implies call_ensures(
                    exp,
                    (rounding::difference(
                        logits@[q * d + k],
                        softmax::row_max(logits@, d as int, q, d as nat),
                    ),),
                    #[trigger] all@[q * d + k],
                ) by {
                    quant::cell_position(q, k, i as int, d as int);
                    assert(all@[q * d + k] == before[q * d + k]);
                }
            }
            if on {
                assert forall|k: int| 0 <= k < d implies call_ensures(
                    exp,
                    (rounding::difference(
                        logits@[i * d + k],
                        softmax::row_max(logits@, d as int, i as int, d as nat),
                    ),),
                    #[trigger] all@[i * d + k],
                ) by {
                    assert(all@[i * d + k] == own[k]);
                }
                assert(softmax::row_exps(exp, logits@, d as int, i as int, all@));
            }
            assert forall|p: int| 0 <= p < (i + 1) * d implies #[trigger] r@[p] == grad_cell(
                grad@[p],
                all@,
                d as int,
                targets@,
                m,
                scale,
                p / (d as int),
                p % (d as int),
            ) by {
                quant::flat_position(p, i + 1, d as int);
                let (q, k) = (p / (d as int), p % (d as int));
                if q < i {
                    assert(p < i * d) by (nonlinear_arith)
                        requires
                            p == q * d + k,
                            q + 1 <= i,
                            k < d,
                    ;
                    assert((q + 1) * d <= i * d) by (nonlinear_arith)
                        requires
                            q + 1 <= i,
                            d >= 0,
                    ;
                    assert(r@[p] == done[p]);
                    lemma_earlier_row(before, all@, d as int, q, d as nat);
                    assert(all@[q * d + k] == before[q * d + k]);
                } else {
                    assert(p == i * d + k);
                    assert(all@[i * d + k] == own[k]);
                }
            }
        }
    }
    proof {
        assert(supervised_exps(exp, logits@, b as int, d as int, m, all@));
        assert(r@ =~= Seq::new(
            (b * d) as nat,
            |p: int|
                grad_cell(
                    grad@[p],
                    all@,
                    d as int,
                    targets@,
                    m,
                    rounding::quotient(
                        upstream,
                        rounding::count_value(divisor(m, b as nat)),
                    ),
                    p / (d as int),
                    p % (d as int),
                ),
        ));
    }
    r
}

/// Rows that are there keep their sums when a row is added.
proof fn lemma_earlier_row(a: Seq<u32>, c: Seq<u32>, d: int, q: int, k: nat)
    requires
        k <= d,
        q >= 0,
        (q + 1) * d <= a.len(),
        a.len() <= c.len(),
        forall|p: int| 0 <= p < a.len() ==> c[p] == a[p],
    ensures
        norms::row_sum(a, d, q, k) == norms::row_sum(c, d, q, k),
    decreases k,
{
    if k > 0 {
        lemma_earlier_row(a, c, d, q, (k - 1) as nat);
        assert(0 <= q * d + (k - 1) < (q + 1) * d) by (nonlinear_arith)
            requires
                q >= 0,
                1 <= k <= d,
        ;
    }
}

/// The sum of an added row.
proof fn lemma_appended_row(a: Seq<u32>, own: Seq<u32>, d: int, i: int, k: nat)
    requires
        own.len() == d,
        a.len() == i * d,
        k <= d,
    ensures
        norms::row_sum(a + own, d, i, k) == norms::row_sum(own, d, 0, k),
    decreases k,
{
    if k > 0 {
        lemma_appended_row(a, own, d, i, (k - 1) as nat);
        assert(0 * d == 0);
        assert((a + own)[i * d + (k - 1)] == own[k - 1]);
    }
}

/// A row that takes no part gets no gradient.
pub proof fn masked_rows_get_no_gradient(
    before: u32,
    e: Seq<u32>,
    d: int,
    targets: Seq<usize>,
    mask: Seq<bool>,
    scale: u32,
    i: int,
    j: int,
)
    requires
        !mask[i],
    ensures
        grad_cell(before, e, d, targets, Some(mask), scale, i, j) == before,
{
}

} // verus!
