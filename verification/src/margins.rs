//! What alignment is measured by: margins of scores, normalised advantages, distance to the
//! reference model.

use crate::awq;
use crate::float_bits;
use crate::gptq;
use crate::layers;
use crate::loss;
use crate::prefs;
use crate::roots;
use crate::rounding;
use crate::softmax;
use vstd::prelude::*;

verus! {

/// `1.0`.
pub const UNIT: u32 = 0x3f80_0000;

/// `1e-6`, by how much a mean or a spread may miss.
pub const MISS: u32 = 0x3586_37bd;

/// `0.75`, what the share of rightly ordered pairs must exceed.
pub const RANKED: u32 = 0x3f40_0000;

/// A preferred and a rejected answer.
#[derive(Clone, Debug)]
pub struct AnswerPair {
    pub chosen: Vec<usize>,
    pub rejected: Vec<usize>,
}

/// Whether pairs are those of the given numbers of repetitions.
pub open spec fn are_pairs(
    pairs: Seq<AnswerPair>,
    first: usize,
    second: usize,
    good: usize,
    bad: usize,
    lengths: Seq<usize>,
) -> bool {
    &&& pairs.len() == lengths.len()
    &&& forall|i: int|
        0 <= i < pairs.len() ==> {
            &&& (#[trigger] pairs[i]).chosen@ == prefs::answer_of(
                first,
                second,
                lengths[i] as int,
                good,
            )
            &&& pairs[i].rejected@ == prefs::answer_of(first, second, lengths[i] as int, bad)
        }
}

/// Makes a pair for each number of repetitions.
pub fn pairs_at(
    first: usize,
    second: usize,
    good: usize,
    bad: usize,
    lengths: &[usize],
) -> (r: Vec<AnswerPair>)
    requires
        forall|i: int| 0 <= i < lengths@.len() ==> 2 * #[trigger] lengths@[i] < usize::MAX,
    ensures
        are_pairs(r@, first, second, good, bad, lengths@),
{
    let mut out: Vec<AnswerPair> = Vec::new();
    for i in 0..lengths.len()
        invariant
            forall|k: int| 0 <= k < lengths@.len() ==> 2 * #[trigger] lengths@[k] < usize::MAX,
            are_pairs(out@, first, second, good, bad, lengths@.take(i as int)),
    {
        let m: usize = lengths[i];
        let ghost before: Seq<AnswerPair> = out@;
        out.push(
            AnswerPair {
                chosen: prefs::make_seq(first, second, m, good),
                rejected: prefs::make_seq(first, second, m, bad),
            },
        );
        assert forall|k: int| 0 <= k < i implies (#[trigger] out@[k]) == before[k] by {}
    }
    assert(lengths@.take(lengths@.len() as int) =~= lengths@);
    out
}

/// What is trained on and what is scored: the latter is longer than anything trained on.
#[derive(Debug)]
pub struct PairSets {
    pub trained: Vec<AnswerPair>,
    pub scored: Vec<AnswerPair>,
}

/// Makes both sets from the first four tokens of a corpus: two that repeat, a good and a bad end.
pub fn pair_sets(corpus: &[usize]) -> (r: Result<PairSets, prefs::AlignFault>)
    ensures
        r is Ok == (corpus@.len() >= 4),
        r matches Err(e) ==> e == prefs::AlignFault::ShortCorpus,
        r matches Ok(s) ==> {
            &&& are_pairs(
                s.trained@,
                corpus@[0],
                corpus@[1],
                corpus@[2],
                corpus@[3],
                seq![2usize, 3, 4],
            )
            &&& are_pairs(
                s.scored@,
                corpus@[0],
                corpus@[1],
                corpus@[2],
                corpus@[3],
                seq![5usize, 6, 7],
            )
        },
{
    if corpus.len() < 4 {
        return Err(prefs::AlignFault::ShortCorpus);
    }
    let mut low: Vec<usize> = Vec::new();
    let mut high: Vec<usize> = Vec::new();
    low.push(2);
    low.push(3);
    low.push(4);
    high.push(5);
    high.push(6);
    high.push(7);
    assert(low@ =~= seq![2usize, 3, 4]);
    assert(high@ =~= seq![5usize, 6, 7]);
    let trained: Vec<AnswerPair> = pairs_at(
        corpus[0],
        corpus[1],
        corpus[2],
        corpus[3],
        low.as_slice(),
    );
    let scored: Vec<AnswerPair> = pairs_at(
        corpus[0],
        corpus[1],
        corpus[2],
        corpus[3],
        high.as_slice(),
    );
    Ok(PairSets { trained, scored })
}

/// No answer that is scored has been trained on, preferred or rejected.
pub proof fn scored_answers_are_new(
    trained: Seq<AnswerPair>,
    scored: Seq<AnswerPair>,
    first: usize,
    second: usize,
    good: usize,
    bad: usize,
    low: Seq<usize>,
    high: Seq<usize>,
    i: int,
    j: int,
)
    requires
        are_pairs(trained, first, second, good, bad, low),
        are_pairs(scored, first, second, good, bad, high),
        forall|a: int, b: int|
            0 <= a < low.len() && 0 <= b < high.len() ==> #[trigger] low[a] != #[trigger] high[b],
        0 <= i < trained.len(),
        0 <= j < scored.len(),
    ensures
        trained[i].chosen@ != scored[j].chosen@,
        trained[i].chosen@ != scored[j].rejected@,
        trained[i].rejected@ != scored[j].chosen@,
        trained[i].rejected@ != scored[j].rejected@,
{
    assert(low[i] != high[j]);
    prefs::unseen_lengths_differ(first, second, low[i] as int, high[j] as int, good, good);
    prefs::unseen_lengths_differ(first, second, low[i] as int, high[j] as int, good, bad);
    prefs::unseen_lengths_differ(first, second, low[i] as int, high[j] as int, bad, good);
    prefs::unseen_lengths_differ(first, second, low[i] as int, high[j] as int, bad, bad);
}

/// By how much the preferred answers score more than the rejected ones, added over the first `n`
/// pairs.
pub open spec fn margin_sum(scores: Seq<(u32, u32)>, n: nat) -> u32
    decreases n,
{
    if n == 0 {
        0
    } else {
        rounding::sum(
            margin_sum(scores, (n - 1) as nat),
            rounding::difference(scores[n - 1].0, scores[n - 1].1),
        )
    }
}

/// The margin of all pairs together.
pub fn total_margin(scores: &[(u32, u32)]) -> (r: u32)
    ensures
        r == margin_sum(scores@, scores@.len()),
{
    let mut total: u32 = 0;
    for i in 0..scores.len()
        invariant
            total == margin_sum(scores@, i as nat),
    {
        let (chosen, rejected) = scores[i];
        total = rounding::plus(total, rounding::minus(chosen, rejected));
    }
    total
}

/// The margin of a pair on average.
pub fn mean_margin(scores: &[(u32, u32)]) -> (r: u32)
    requires
        scores@.len() > 0,
    ensures
        r == rounding::quotient(
            margin_sum(scores@, scores@.len()),
            rounding::count_value(scores@.len() as int),
        ),
{
    rounding::divide(total_margin(scores), rounding::from_count(scores.len() as u64))
}

/// Groups numbers that stand for preferred and rejected answers in turn.
pub fn in_pairs(flat: &[u32]) -> (r: Vec<(u32, u32)>)
    requires
        flat@.len() % 2 == 0,
    ensures
        r@ == Seq::new((flat@.len() / 2) as nat, |i: int| (flat@[2 * i], flat@[2 * i + 1])),
{
    let len: usize = flat.len();
    let n: usize = len / 2;
    let mut out: Vec<(u32, u32)> = Vec::new();
    for i in 0..n
        invariant
            len == flat@.len(),
            n == len / 2,
            len % 2 == 0,
            out@ =~= Seq::new(i as nat, |k: int| (flat@[2 * k], flat@[2 * k + 1])),
    {
        let at: usize = 2 * i;
        out.push((flat[at], flat[at + 1]));
    }
    out
}

/// What training a reward model must bring.
#[derive(Clone, Copy, Debug, PartialEq, Eq, Structural)]
pub enum RewardFault {
    /// The mean margin has not grown.
    Margin,
    /// Too few pairs that were not trained on are ordered rightly.
    Ranking,
}

/// Judges a trained reward model by its mean margins before and after and by the share of pairs
/// that it orders rightly.
pub fn judge_reward(before: u32, after: u32, share: u32) -> (r: Result<(), RewardFault>)
    ensures
        r is Ok == (awq::less(before, after) && awq::less(RANKED, share)),
        r == Err::<(), RewardFault>(RewardFault::Margin) <==> !awq::less(before, after),
        r matches Err(e) ==> (e == RewardFault::Ranking ==> !awq::less(RANKED, share)),
{
    if !awq::is_less(before, after) {
        return Err(RewardFault::Margin);
    }
    if !awq::is_less(RANKED, share) {
        return Err(RewardFault::Ranking);
    }
    Ok(())
}

/// What preference training must bring.
#[derive(Clone, Copy, Debug, PartialEq, Eq, Structural)]
pub enum PolicyFault {
    /// A parameter of the reference model has changed.
    Reference,
    /// The margin has not grown.
    Margin,
    /// The loss has not fallen.
    Loss,
}

/// Whether two numbers are equal: the two zeros are, and what is no number equals nothing.
pub open spec fn equal(x: u32, y: u32) -> bool {
    !float_bits::nan(x) && !float_bits::nan(y) && gptq::numeric(x) == gptq::numeric(y)
}

/// Whether two lists hold equal numbers.
pub open spec fn equal_lists(a: Seq<u32>, b: Seq<u32>) -> bool {
    a.len() == b.len() && forall|i: int| 0 <= i < a.len() ==> equal(#[trigger] a[i], b[i])
}

/// Compares two lists of numbers.
pub fn same_numbers(a: &[u32], b: &[u32]) -> (r: bool)
    ensures
        r == equal_lists(a@, b@),
{
    if a.len() != b.len() {
        return false;
    }
    for i in 0..a.len()
        invariant
            a@.len() == b@.len(),
            forall|j: int| 0 <= j < i ==> equal(#[trigger] a@[j], b@[j]),
    {
        if float_bits::is_nan(a[i]) || float_bits::is_nan(b[i]) || gptq::numeric_key(a[i])
            != gptq::numeric_key(b[i]) {
            assert(!equal(a@[i as int], b@[i as int]));
            return false;
        }
    }
    true
}

/// What a run of preference training shows: the reference model's parameters, the margin and the
/// loss, each before and after.
#[derive(Debug)]
pub struct PolicyRun {
    pub reference_before: Vec<u32>,
    pub reference_after: Vec<u32>,
    pub margin_before: u32,
    pub margin_after: u32,
    pub loss_before: u32,
    pub loss_after: u32,
}

impl PolicyRun {
    /// The first rule that is broken.
    pub open spec fn fault(self) -> Option<PolicyFault> {
        if !equal_lists(self.reference_after@, self.reference_before@) {
            Some(PolicyFault::Reference)
        } else if !awq::less(self.margin_before, self.margin_after) {
            Some(PolicyFault::Margin)
        } else if !awq::less(self.loss_after, self.loss_before) {
            Some(PolicyFault::Loss)
        } else {
            None
        }
    }

    /// Judges the run.
    pub fn judge(&self) -> (r: Result<(), PolicyFault>)
        ensures
            r is Ok == self.fault() is None,
            r matches Err(e) ==> self.fault() == Some(e),
    {
        if !same_numbers(self.reference_after.as_slice(), self.reference_before.as_slice()) {
            return Err(PolicyFault::Reference);
        }
        if !awq::is_less(self.margin_before, self.margin_after) {
            return Err(PolicyFault::Margin);
        }
        if !awq::is_less(self.loss_after, self.loss_before) {
            return Err(PolicyFault::Loss);
        }
        Ok(())
    }
}

/// The squares of the first `n` numbers added in order.
pub open spec fn power_sum(v: Seq<u32>, n: nat) -> u32
    decreases n,
{
    if n == 0 {
        0
    } else {
        rounding::sum(power_sum(v, (n - 1) as nat), rounding::product(v[n - 1], v[n - 1]))
    }
}

/// The mean of the advantages.
pub open spec fn advantage_mean(v: Seq<u32>) -> u32 {
    rounding::quotient(loss::running_sum(v, v.len()), rounding::count_value(v.len() as int))
}

/// The spread of the advantages about zero, over all of the group.
pub open spec fn advantage_spread(v: Seq<u32>) -> u32 {
    roots::root(rounding::quotient(power_sum(v, v.len()), rounding::count_value(v.len() as int)))
}

/// The mean and the spread of a group's advantages.
pub fn advantage_moments(v: &[u32]) -> (r: (u32, u32))
    requires
        v@.len() > 0,
    ensures
        r.0 == advantage_mean(v@),
        r.1 == advantage_spread(v@),
{
    let mut s: u32 = 0;
    let mut q: u32 = 0;
    for i in 0..v.len()
        invariant
            s == loss::running_sum(v@, i as nat),
            q == power_sum(v@, i as nat),
    {
        s = rounding::plus(s, v[i]);
        q = rounding::plus(q, rounding::multiply(v[i], v[i]));
    }
    let n: u32 = rounding::from_count(v.len() as u64);
    (rounding::divide(s, n), roots::square_root(rounding::divide(q, n)))
}

/// Whether advantages have mean zero and spread one, up to rounding.
pub fn is_normalised(v: &[u32]) -> (r: bool)
    requires
        v@.len() > 0,
    ensures
        r == (awq::less(float_bits::magnitude(advantage_mean(v@)), MISS) && awq::less(
            float_bits::magnitude(rounding::difference(advantage_spread(v@), UNIT)),
            MISS,
        )),
{
    let (mean, spread) = advantage_moments(v);
    awq::is_less(float_bits::abs_bits(mean), MISS) && awq::is_less(
        float_bits::abs_bits(rounding::minus(spread, UNIT)),
        MISS,
    )
}

/// Whether every number is zero, of either sign.
pub fn all_zero(v: &[u32]) -> (r: bool)
    ensures
        r == (forall|i: int| 0 <= i < v@.len() ==> float_bits::magnitude(#[trigger] v@[i]) == 0),
{
    for i in 0..v.len()
        invariant
            forall|j: int| 0 <= j < i ==> float_bits::magnitude(#[trigger] v@[j]) == 0,
    {
        if float_bits::abs_bits(v[i]) != 0 {
            return false;
        }
    }
    true
}

/// How the distance to the reference model compares with that of a small step: `sqrt(2 kl) /
/// |delta|`, which tends to one; there is none for no step.
pub fn distance_ratio(kl: u32, delta: u32) -> (r: Option<u32>)
    ensures
        r == if float_bits::magnitude(delta) == 0 {
            None::<u32>
        } else {
            Some(
                rounding::quotient(
                    roots::root(rounding::product(layers::TWO_BITS, kl)),
                    float_bits::magnitude(delta),
                ),
            )
        },
{
    let step: u32 = float_bits::abs_bits(delta);
    if step == 0 {
        None
    } else {
        Some(
            rounding::divide(
                roots::square_root(rounding::multiply(layers::TWO_BITS, kl)),
                step,
            ),
        )
    }
}

/// The largest of the first `n` distances; what is no number is passed over.
pub open spec fn farthest(kls: Seq<u32>, n: nat) -> u32
    decreases n,
{
    if n == 0 {
        0
    } else {
        softmax::larger(farthest(kls, (n - 1) as nat), kls[n - 1])
    }
}

/// The largest distance, where none is below zero; otherwise the first that is.
pub fn sweep_distances(kls: &[u32]) -> (r: Result<u32, usize>)
    ensures
        r is Ok == (forall|i: int|
            0 <= i < kls@.len() ==> float_bits::at_least_zero(#[trigger] kls@[i])),
        r matches Ok(m) ==> m == farthest(kls@, kls@.len()),
        r matches Err(k) ==> {
            &&& k < kls@.len()
            &&& !float_bits::at_least_zero(kls@[k as int])
            &&& forall|i: int| 0 <= i < k ==> float_bits::at_least_zero(#[trigger] kls@[i])
        },
{
    let mut m: u32 = 0;
    for i in 0..kls.len()
        invariant
            m == farthest(kls@, i as nat),
            forall|j: int| 0 <= j < i ==> float_bits::at_least_zero(#[trigger] kls@[j]),
    {
        if !float_bits::is_at_least_zero(kls[i]) {
            return Err(i);
        }
        m = softmax::larger_of(m, kls[i]);
    }
    Ok(m)
}

} // verus!
