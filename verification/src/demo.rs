//! Small demonstrations: curves applied to numbers, a truth table, batched products.

use crate::awq;
use crate::matrix;
use vstd::prelude::*;

verus! {

/// Whether `y` holds what `curve` may make of every number.
pub open spec fn applied<F: Fn(u32) -> u32>(curve: &F, x: Seq<u32>, y: Seq<u32>) -> bool {
    &&& y.len() == x.len()
    &&& forall|i: int| 0 <= i < x.len() ==> call_ensures(curve, (x[i],), #[trigger] y[i])
}

fn apply<F: Fn(u32) -> u32>(curve: &F, x: &[u32]) -> (y: Vec<u32>)
    requires
        forall|v: u32| call_requires(curve, (v,)),
    ensures
        applied(curve, x@, y@),
{
    let mut y: Vec<u32> = Vec::new();
    for i in 0..x.len()
        invariant
            forall|v: u32| call_requires(curve, (v,)),
            y@.len() == i,
            forall|j: int| 0 <= j < i ==> call_ensures(curve, (x@[j],), #[trigger] y@[j]),
    {
        y.push(curve(x[i]));
    }
    y
}

/// The bell-weighted activation of every number; `curve` is the function of one.
pub fn gelu<F: Fn(u32) -> u32>(curve: &F, x: &[u32]) -> (y: Vec<u32>)
    requires
        forall|v: u32| call_requires(curve, (v,)),
    ensures
        applied(curve, x@, y@),
{
    apply(curve, x)
}

/// The hyperbolic tangent of every number; `curve` is the function of one.
pub fn tanh<F: Fn(u32) -> u32>(curve: &F, x: &[u32]) -> (y: Vec<u32>)
    requires
        forall|v: u32| call_requires(curve, (v,)),
    ensures
        applied(curve, x@, y@),
{
    apply(curve, x)
}

/// The class that two scores name: the first where it is larger.
pub open spec fn decided(scores: Seq<u32>, i: int) -> usize {
    if awq::less(scores[2 * i + 1], scores[2 * i]) {
        0
    } else {
        1
    }
}

/// How many of the first `n` samples are decided as stated.
pub open spec fn hits(scores: Seq<u32>, targets: Seq<usize>, n: nat) -> nat
    decreases n,
{
    if n == 0 {
        0
    } else {
        hits(scores, targets, (n - 1) as nat) + if decided(scores, n - 1) == targets[n - 1] {
            1nat
        } else {
            0nat
        }
    }
}

/// Counts the samples whose two scores name the right class.
pub fn count_correct(scores: &[u32], targets: &[usize]) -> (r: usize)
    requires
        scores@.len() == 2 * targets@.len(),
    ensures
        r == hits(scores@, targets@, targets@.len()),
{
    let mut correct: usize = 0;
    let len: usize = scores.len();
    for i in 0..targets.len()
        invariant
            len == scores@.len(),
            scores@.len() == 2 * targets@.len(),
            correct == hits(scores@, targets@, i as nat),
            correct <= i,
    {
        let class: usize = if awq::is_less(scores[2 * i + 1], scores[2 * i]) {
            0
        } else {
            1
        };
        if class == targets[i] {
            correct = correct + 1;
        }
    }
    correct
}

/// The products of the first `n` pairs of matrices, one after the other.
pub open spec fn products(a: Seq<u32>, b: Seq<u32>, m: int, k: int, n: int, batch: nat) -> Seq<u32>
    decreases batch,
{
    if batch == 0 {
        Seq::empty()
    } else {
        let i = batch - 1;
        products(a, b, m, k, n, i as nat) + matrix::product_of(
            a.subrange(i * (m * k), (i + 1) * (m * k)),
            b.subrange(i * (k * n), (i + 1) * (k * n)),
            m,
            k,
            n,
        )
    }
}

/// Multiplies `batch` pairs of matrices.
pub fn naive_matmul(a: &[u32], b: &[u32], m: usize, k: usize, n: usize, batch: usize) -> (out: Vec<
    u32,
>)
    requires
        a@.len() == batch * (m * k),
        b@.len() == batch * (k * n),
        m * k <= usize::MAX,
        k * n <= usize::MAX,
        m * n <= usize::MAX,
    ensures
        out@ == products(a@, b@, m as int, k as int, n as int, batch as nat),
{
    let mk: usize = m * k;
    let kn: usize = k * n;
    let (la, lb) = (a.len(), b.len());
    let mut out: Vec<u32> = Vec::new();
    assert(out@ =~= products(a@, b@, m as int, k as int, n as int, 0));
    for i in 0..batch
        invariant
            mk == m * k,
            kn == k * n,
            la == a@.len(),
            lb == b@.len(),
            la == batch * mk,
            lb == batch * kn,
            m * n <= usize::MAX,
            out@ == products(a@, b@, m as int, k as int, n as int, i as nat),
    {
        proof {
            assert(0 <= i * mk && i * mk + mk == (i + 1) * mk && (i + 1) * mk <= batch * mk)
                by (nonlinear_arith)
                requires
                    0 <= i < batch,
                    mk >= 0,
            ;
            assert(0 <= i * kn && i * kn + kn == (i + 1) * kn && (i + 1) * kn <= batch * kn)
                by (nonlinear_arith)
                requires
                    0 <= i < batch,
                    kn >= 0,
            ;
        }
        let x: &[u32] = vstd::slice::slice_subrange(a, i * mk, i * mk + mk);
        let y: &[u32] = vstd::slice::slice_subrange(b, i * kn, i * kn + kn);
        let mut p: Vec<u32> = matrix::matmul(x, y, m, k, n);
        out.append(&mut p);
    }
    out
}

/// Tokens that can be generated before the window is full.
pub fn window_room(block_size: usize, prompt_len: usize) -> (r: usize)
    ensures
        r == if prompt_len < block_size {
            block_size - prompt_len
        } else {
            0
        },
{
    if prompt_len < block_size {
        block_size - prompt_len
    } else {
        0
    }
}

} // verus!
