//! Trials of speculative decoding: what came first is counted, forward passes are compared.

use crate::dist;
use vstd::prelude::*;

verus! {

/// Counts how often each token of a vocabulary came first.
pub fn tally(firsts: &[usize], vocab: usize) -> (r: Vec<usize>)
    requires
        forall|i: int| 0 <= i < firsts@.len() ==> #[trigger] firsts@[i] < vocab,
    ensures
        r@.len() == vocab,
        forall|c: int|
            0 <= c < vocab ==> #[trigger] r@[c] == dist::occurrences(
                firsts@,
                c,
                firsts@.len(),
            ),
{
    let mut counts: Vec<usize> = Vec::new();
    for c in 0..vocab
        invariant
            counts@.len() == c,
            forall|k: int| 0 <= k < c ==> #[trigger] counts@[k] == 0,
    {
        counts.push(0);
    }
    for i in 0..firsts.len()
        invariant
            forall|k: int| 0 <= k < firsts@.len() ==> #[trigger] firsts@[k] < vocab,
            counts@.len() == vocab,
            forall|c: int|
                0 <= c < vocab ==> #[trigger] counts@[c] == dist::occurrences(
                    firsts@,
                    c,
                    i as nat,
                ) && counts@[c] <= i,
    {
        let t: usize = firsts[i];
        let ghost before: Seq<usize> = counts@;
        assert(counts@[t as int] <= i);
        counts[t] = counts[t] + 1;
        assert forall|c: int| 0 <= c < vocab implies #[trigger] counts@[c] == dist::occurrences(
            firsts@,
            c,
            (i + 1) as nat,
        ) && counts@[c] <= i + 1 by {
            assert(before[c] == dist::occurrences(firsts@, c, i as nat));
        }
    }
    counts
}

/// How often the tokens below `c` came first, in all.
pub open spec fn counted(firsts: Seq<usize>, c: nat, n: nat) -> nat
    decreases c,
{
    if c == 0 {
        0
    } else {
        counted(firsts, (c - 1) as nat, n) + dist::occurrences(firsts, c - 1, n)
    }
}

proof fn lemma_counted_step(firsts: Seq<usize>, c: nat, n: nat)
    requires
        0 < n <= firsts.len(),
    ensures
        counted(firsts, c, n) == counted(firsts, c, (n - 1) as nat) + if firsts[n - 1] < c {
            1nat
        } else {
            0nat
        },
    decreases c,
{
    if c > 0 {
        lemma_counted_step(firsts, (c - 1) as nat, n);
    }
}

proof fn lemma_counted_none(firsts: Seq<usize>, c: nat)
    ensures
        counted(firsts, c, 0) == 0,
    decreases c,
{
    if c > 0 {
        lemma_counted_none(firsts, (c - 1) as nat);
    }
}

/// Every trial is counted, and counted once: the counts of all tokens add up to the trials.
pub proof fn every_trial_counts(firsts: Seq<usize>, vocab: nat, n: nat)
    requires
        n <= firsts.len(),
        forall|i: int| 0 <= i < firsts.len() ==> #[trigger] firsts[i] < vocab,
    ensures
        counted(firsts, vocab, n) == n,
    decreases n,
{
    if n == 0 {
        lemma_counted_none(firsts, vocab);
    } else {
        every_trial_counts(firsts, vocab, (n - 1) as nat);
        lemma_counted_step(firsts, vocab, n);
        assert(firsts[n - 1] < vocab);
    }
}

/// What is wrong with a sweep over proposal lengths.
#[derive(Clone, Copy, Debug, PartialEq, Eq, Structural)]
pub enum SweepFault {
    /// More forward passes than tokens.
    TooMany,
    /// More forward passes than with shorter proposals.
    Rising,
}

/// What is wrong with the passes of one length, after those of the length before.
pub open spec fn sweep_fault(passes: Seq<usize>, i: int, tokens: usize) -> Option<SweepFault> {
    if passes[i] > tokens {
        Some(SweepFault::TooMany)
    } else if i > 0 && passes[i] > passes[i - 1] {
        Some(SweepFault::Rising)
    } else {
        None
    }
}

/// Checks the forward passes of a sweep: the first length that is wrong, and how.
pub fn check_sweep(passes: &[usize], tokens: usize) -> (r: Result<(), (usize, SweepFault)>)
    ensures
        r is Ok == (forall|i: int|
            0 <= i < passes@.len() ==> (#[trigger] sweep_fault(passes@, i, tokens)) is None),
        r matches Err(e) ==> {
            &&& e.0 < passes@.len()
            &&& sweep_fault(passes@, e.0 as int, tokens) == Some(e.1)
            &&& forall|i: int|
                0 <= i < e.0 ==> (#[trigger] sweep_fault(passes@, i, tokens)) is None
        },
{
    for i in 0..passes.len()
        invariant
            forall|k: int| 0 <= k < i ==> (#[trigger] sweep_fault(passes@, k, tokens)) is None,
    {
        if passes[i] > tokens {
            assert(sweep_fault(passes@, i as int, tokens) is Some);
            return Err((i, SweepFault::TooMany));
        }
        if i > 0 && passes[i] > passes[i - 1] {
            assert(sweep_fault(passes@, i as int, tokens) is Some);
            return Err((i, SweepFault::Rising));
        }
    }
    Ok(())
}

/// The tokens of the batch that extra heads are trained on: the beginning of the corpus, where it
/// has a further token to predict.
pub fn head_batch<'a>(corpus: &'a [usize], batch: usize, window: usize) -> (r: Option<
    &'a [usize],
>)
    ensures
        r is Some == (batch * window < corpus@.len()),
        r matches Some(s) ==> s@ == corpus@.take(batch * window),
{
    proof {
        assert(0 <= batch * window <= u128::MAX) by (nonlinear_arith)
            requires
                0 <= batch <= 0xffff_ffff_ffff_ffff,
                0 <= window <= 0xffff_ffff_ffff_ffff,
        ;
    }
    let need: u128 = batch as u128 * window as u128;
    if need >= corpus.len() as u128 {
        return None;
    }
    let n: usize = need as usize;
    assert(corpus@.subrange(0, n as int) =~= corpus@.take(n as int));
    Some(vstd::slice::slice_subrange(corpus, 0, n))
}

} // verus!
