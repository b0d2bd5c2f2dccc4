//! Speculative decoding experiments: distributions, ledgers, statistics.

use crate::awq;
use crate::awq_scaling;
use crate::float_bits;
use crate::float_bits::ONE_BITS;
use crate::gptq;
use crate::roots;
use crate::rounding;
use vstd::prelude::*;

verus! {

/// The bit pattern of `0.5`.
pub const HALF_BITS: u32 = 0x3f00_0000;

/// The bit pattern of `4.0`.
pub const FOUR_BITS: u32 = 0x4080_0000;

/// The bit pattern of `1e-3`.
pub const SLACK_BITS: u32 = 0x3a83_126f;

/// The bit pattern of `0.95`.
pub const MUST_FALL_TO: u32 = 0x3f73_3333;

/// The fewest trials of a distribution test.
pub const LEAST_TRIALS: usize = 200;

/// What an experiment is run with.
#[derive(Clone, Copy, Debug, PartialEq, Eq, Structural)]
pub struct SpecArgs {
    /// Tokens proposed per round.
    pub gamma: usize,
    pub max_new: usize,
    pub mtp_heads: usize,
    pub mtp_steps: usize,
    pub trials: usize,
    pub n_embd: usize,
    pub n_layer: usize,
    pub batch_size: usize,
    pub block_size: usize,
}

/// What is wrong with an experiment.
#[derive(Clone, Copy, Debug, PartialEq, Eq, Structural)]
pub enum SpecFault {
    Width,
    Gamma,
    Heads,
    HeadSteps,
    MaxNew,
    Trials,
    /// A round does not fit the window.
    Window,
}

impl SpecArgs {
    /// The first rule that is broken.
    pub open spec fn fault(self) -> Option<SpecFault> {
        if self.n_embd % 4 != 0 {
            Some(SpecFault::Width)
        } else if self.gamma < 1 {
            Some(SpecFault::Gamma)
        } else if self.mtp_heads < 1 {
            Some(SpecFault::Heads)
        } else if self.mtp_steps < 1 {
            Some(SpecFault::HeadSteps)
        } else if self.max_new < 1 {
            Some(SpecFault::MaxNew)
        } else if self.trials < LEAST_TRIALS {
            Some(SpecFault::Trials)
        } else if self.gamma + 1 > self.block_size {
            Some(SpecFault::Window)
        } else {
            None
        }
    }

    /// Checks the arguments.
    pub fn check(&self) -> (r: Result<(), SpecFault>)
        ensures
            r == match self.fault() {
                Some(e) => Err::<(), SpecFault>(e),
                None => Ok(()),
            },
    {
        if self.n_embd % 4 != 0 {
            return Err(SpecFault::Width);
        }
        if self.gamma < 1 {
            return Err(SpecFault::Gamma);
        }
        if self.mtp_heads < 1 {
            return Err(SpecFault::Heads);
        }
        if self.mtp_steps < 1 {
            return Err(SpecFault::HeadSteps);
        }
        if self.max_new < 1 {
            return Err(SpecFault::MaxNew);
        }
        if self.trials < LEAST_TRIALS {
            return Err(SpecFault::Trials);
        }
        if self.gamma >= self.block_size {
            return Err(SpecFault::Window);
        }
        Ok(())
    }
}

/// Of the proposal lengths 1, 2, 4 and 8, those that fit a window.
pub fn gamma_sweep(block_size: usize) -> (r: Vec<usize>)
    ensures
        r@ == if block_size >= 9 {
            seq![1usize, 2, 4, 8]
        } else if block_size >= 5 {
            seq![1usize, 2, 4]
        } else if block_size >= 3 {
            seq![1usize, 2]
        } else if block_size >= 2 {
            seq![1usize]
        } else {
            Seq::<usize>::empty()
        },
{
    let mut r: Vec<usize> = Vec::new();
    if block_size >= 2 {
        r.push(1);
    }
    if block_size >= 3 {
        r.push(2);
    }
    if block_size >= 5 {
        r.push(4);
    }
    if block_size >= 9 {
        r.push(8);
    }
    assert(r@ =~= if block_size >= 9 {
        seq![1usize, 2, 4, 8]
    } else if block_size >= 5 {
        seq![1usize, 2, 4]
    } else if block_size >= 3 {
        seq![1usize, 2]
    } else if block_size >= 2 {
        seq![1usize]
    } else {
        Seq::<usize>::empty()
    });
    r
}

/// The probability of a token under a distribution, searched from place `i` on; zero outside.
pub open spec fn probability(ids: Seq<usize>, probs: Seq<u32>, token: usize, i: int) -> u32
    decreases ids.len() - i,
{
    if i < 0 || i >= ids.len() {
        0
    } else if ids[i] == token {
        probs[i]
    } else {
        probability(ids, probs, token, i + 1)
    }
}

/// The probability of a token.
pub fn token_prob(ids: &[usize], probs: &[u32], token: usize) -> (r: u32)
    requires
        ids@.len() <= probs@.len(),
    ensures
        r == probability(ids@, probs@, token, 0),
{
    for i in 0..ids.len()
        invariant
            ids@.len() <= probs@.len(),
            probability(ids@, probs@, token, 0) == probability(ids@, probs@, token, i as int),
    {
        if ids[i] == token {
            return probs[i];
        }
    }
    0
}

/// The observed frequency of a token.
pub open spec fn frequency(count: usize, trials: usize) -> u32 {
    rounding::quotient(
        rounding::count_value(count as int),
        rounding::count_value(trials as int),
    )
}

/// The differences of observed and stated frequencies of the first `n` tokens, added in order.
pub open spec fn deviation(
    counts: Seq<usize>,
    trials: usize,
    ids: Seq<usize>,
    probs: Seq<u32>,
    n: nat,
) -> u32
    decreases n,
{
    if n == 0 {
        0
    } else {
        rounding::sum(
            deviation(counts, trials, ids, probs, (n - 1) as nat),
            float_bits::magnitude(
                rounding::difference(
                    frequency(counts[n - 1], trials),
                    probability(ids, probs, (n - 1) as usize, 0),
                ),
            ),
        )
    }
}

/// The total variation distance of observed counts from a distribution.
pub fn total_variation(counts: &[usize], trials: usize, ids: &[usize], probs: &[u32]) -> (r: u32)
    requires
        ids@.len() <= probs@.len(),
    ensures
        r == rounding::product(
            HALF_BITS,
            deviation(counts@, trials, ids@, probs@, counts@.len()),
        ),
{
    let mut sum: u32 = 0;
    let n: u32 = rounding::from_count(trials as u64);
    for i in 0..counts.len()
        invariant
            ids@.len() <= probs@.len(),
            n == rounding::count_value(trials as int),
            sum == deviation(counts@, trials, ids@, probs@, i as nat),
    {
        let f: u32 = rounding::divide(rounding::from_count(counts[i] as u64), n);
        let p: u32 = token_prob(ids, probs, i);
        sum = rounding::plus(sum, float_bits::abs_bits(rounding::minus(f, p)));
    }
    rounding::multiply(HALF_BITS, sum)
}

/// The places of the largest probabilities, at most three, equal ones as they come and what is no
/// number last.
pub fn likeliest(probs: &[u32]) -> (r: Vec<usize>)
    ensures
        exists|order: Seq<usize>| #[trigger]
            gptq::is_order(order, probs@, true) && r@ == order.take(
                if order.len() < 3 {
                    order.len() as int
                } else {
                    3
                },
            ),
{
    let order: Vec<usize> = gptq::order_by_importance(probs, true);
    assert(gptq::is_order(order@, probs@, true));
    let n: usize = if order.len() < 3 {
        order.len()
    } else {
        3
    };
    let mut r: Vec<usize> = Vec::new();
    for i in 0..n
        invariant
            n <= order@.len(),
            r@ == order@.take(i as int),
    {
        r.push(order[i]);
        assert(order@.take(i + 1) =~= order@.take(i as int).push(order@[i as int]));
    }
    r
}

/// The spread of an observed frequency: `sqrt(p (1 - p) / n)`.
pub open spec fn spread(p: u32, trials: usize) -> u32 {
    roots::root(
        rounding::quotient(
            rounding::product(p, rounding::difference(ONE_BITS, p)),
            rounding::count_value(trials as int),
        ),
    )
}

/// How far an observed frequency is from the stated one.
pub open spec fn distance(count: usize, trials: usize, p: u32) -> u32 {
    float_bits::magnitude(rounding::difference(frequency(count, trials), p))
}

/// Whether an observed frequency lies within four spreads of the stated one.
pub fn within_noise(count: usize, trials: usize, p: u32) -> (r: bool)
    ensures
        r == ({
            let limit = rounding::sum(
                rounding::product(FOUR_BITS, spread(p, trials)),
                SLACK_BITS,
            );
            let d = distance(count, trials, p);
            !float_bits::nan(d) && !float_bits::nan(limit) && !awq::less(limit, d)
        }),
{
    let n: u32 = rounding::from_count(trials as u64);
    let sigma: u32 = roots::square_root(
        rounding::divide(rounding::multiply(p, rounding::minus(ONE_BITS, p)), n),
    );
    let limit: u32 = rounding::plus(rounding::multiply(FOUR_BITS, sigma), SLACK_BITS);
    let d: u32 = float_bits::abs_bits(
        rounding::minus(rounding::divide(rounding::from_count(count as u64), n), p),
    );
    !float_bits::is_nan(d) && !float_bits::is_nan(limit) && !awq::is_less(limit, d)
}

/// What became of the proposals of a run.
#[derive(Clone, Copy, Debug, PartialEq, Eq, Structural)]
pub struct SpecStats {
    pub rounds: usize,
    pub drafted: usize,
    pub accepted: usize,
    pub corrected: usize,
    pub bonus: usize,
    pub target_forwards: usize,
    pub emitted: usize,
}

impl SpecStats {
    /// Every token comes from an accepted proposal, a correction or a bonus, and every round takes
    /// one pass of the target.
    pub open spec fn balances(self) -> bool {
        &&& self.target_forwards == self.rounds
        &&& self.emitted == self.accepted + self.corrected + self.bonus
    }

    /// Checks the ledger.
    pub fn is_balanced(&self) -> (r: bool)
        ensures
            r == self.balances(),
    {
        self.target_forwards == self.rounds && self.emitted as u128 == self.accepted as u128
            + self.corrected as u128 + self.bonus as u128
    }
}

/// How far a decoder's cache lags behind its sequence.
#[derive(Clone, Copy, Debug, PartialEq, Eq, Structural)]
pub struct CacheLedger {
    pub gamma: usize,
    /// Tokens of the sequence.
    pub len: usize,
    /// Tokens that the cache has seen.
    pub fed: usize,
}

/// What is wrong with a round.
#[derive(Clone, Copy, Debug, PartialEq, Eq, Structural)]
pub enum RoundFault {
    Nothing,
    TooMany,
    /// The cache does not lag behind by exactly one.
    Misaligned,
}

impl CacheLedger {
    /// The first rule that a round breaks.
    pub open spec fn fault(self, emitted: int, fed: int) -> Option<RoundFault> {
        if emitted == 0 {
            Some(RoundFault::Nothing)
        } else if emitted > self.gamma + 1 {
            Some(RoundFault::TooMany)
        } else if fed + 1 != self.len + emitted {
            Some(RoundFault::Misaligned)
        } else {
            None
        }
    }

    /// Enters a round that emitted so many tokens and left the cache at `fed`.
    pub fn round(&mut self, emitted: usize, fed: usize) -> (r: Result<(), RoundFault>)
        requires
            old(self).len + old(self).gamma < usize::MAX,
        ensures
            r == match old(self).fault(emitted as int, fed as int) {
                Some(e) => Err::<(), RoundFault>(e),
                None => Ok(()),
            },
            r is Err ==> *final(self) == *old(self),
            r is Ok ==> *final(self) == (CacheLedger {
                gamma: old(self).gamma,
                len: (old(self).len + emitted) as usize,
                fed,
            }) && final(self).fed + 1 == final(self).len,
    {
        if emitted == 0 {
            return Err(RoundFault::Nothing);
        }
        if emitted > self.gamma + 1 {
            return Err(RoundFault::TooMany);
        }
        let len: usize = self.len + emitted;
        if fed != len - 1 {
            return Err(RoundFault::Misaligned);
        }
        self.len = len;
        self.fed = fed;
        Ok(())
    }
}

/// How many losses are averaged at either end of training: five, or all there are.
pub open spec fn end_len(n: int) -> int {
    if n < 5 {
        n
    } else {
        5
    }
}

/// The mean of `n` values from `start` on.
pub open spec fn span_mean(v: Seq<u32>, start: int, n: int) -> u32 {
    rounding::quotient(awq_scaling::span_sum(v, start, n as nat), rounding::count_value(n))
}

/// The mean losses of the first and the last five steps, or of all steps where there are fewer.
pub fn loss_ends(history: &[u32]) -> (r: (u32, u32))
    requires
        history@.len() > 0,
    ensures
        r.0 == span_mean(history@, 0, end_len(history@.len() as int)),
        r.1 == span_mean(
            history@,
            history@.len() - end_len(history@.len() as int),
            end_len(history@.len() as int),
        ),
{
    let len: usize = history.len();
    let n: usize = if len < 5 {
        len
    } else {
        5
    };
    let count: u32 = rounding::from_count(n as u64);
    (
        rounding::divide(awq_scaling::sum_span(history, 0, n), count),
        rounding::divide(awq_scaling::sum_span(history, len - n, n), count),
    )
}

/// Whether training has lowered the loss by a twentieth.
pub fn has_learned(first: u32, last: u32) -> (r: bool)
    ensures
        r == awq::less(last, rounding::product(first, MUST_FALL_TO)),
{
    awq::is_less(last, rounding::multiply(first, MUST_FALL_TO))
}

/// A proposed token and the distribution it was drawn from.
#[derive(Clone, Debug)]
pub struct Proposal {
    pub token: usize,
    pub ids: Vec<usize>,
    pub probs: Vec<u32>,
}

/// A drafter that always proposes from the same distribution.
#[derive(Clone, Debug)]
pub struct FixedDrafter {
    pub ids: Vec<usize>,
    pub probs: Vec<u32>,
}

fn copy_ids(v: &Vec<usize>) -> (r: Vec<usize>)
    ensures
        r@ == v@,
{
    let mut r: Vec<usize> = Vec::new();
    for i in 0..v.len()
        invariant
            r@ =~= v@.take(i as int),
    {
        r.push(v[i]);
    }
    assert(r@ =~= v@);
    r
}

fn copy_probs(v: &Vec<u32>) -> (r: Vec<u32>)
    ensures
        r@ == v@,
{
    let mut r: Vec<u32> = Vec::new();
    for i in 0..v.len()
        invariant
            r@ =~= v@.take(i as int),
    {
        r.push(v[i]);
    }
    assert(r@ =~= v@);
    r
}

impl FixedDrafter {
    /// Proposes one token per draw; `draws` are drawn from the distribution.
    pub fn propose(&self, draws: &[usize]) -> (r: Vec<Proposal>)
        ensures
            r@.len() == draws@.len(),
            forall|i: int| 0 <= i < r@.len() ==> (#[trigger] r@[i]).token == draws@[i],
            forall|i: int| 0 <= i < r@.len() ==> (#[trigger] r@[i]).ids@ == self.ids@,
            forall|i: int| 0 <= i < r@.len() ==> (#[trigger] r@[i]).probs@ == self.probs@,
    {
        let mut out: Vec<Proposal> = Vec::new();
        for k in 0..draws.len()
            invariant
                out@.len() == k,
                forall|i: int| 0 <= i < k ==> (#[trigger] out@[i]).token == draws@[i],
                forall|i: int| 0 <= i < k ==> (#[trigger] out@[i]).ids@ == self.ids@,
                forall|i: int| 0 <= i < k ==> (#[trigger] out@[i]).probs@ == self.probs@,
        {
            out.push(
                Proposal {
                    token: draws[k],
                    ids: copy_ids(&self.ids),
                    probs: copy_probs(&self.probs),
                },
            );
        }
        out
    }
}

} // verus!
