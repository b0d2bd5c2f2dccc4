//! Preference data for alignment: pairs of answers that differ in their last token only.

use crate::float_bits;
use vstd::prelude::*;

verus! {

/// Tokens of the corpus that the first experiment uses.
pub const ALIGN_TOKENS: usize = 24;

/// The fewest tokens that make a question and an answer.
pub const ALIGN_LEAST: usize = 12;

/// Tokens of the question, besides a leading mark.
pub const QUESTION_TOKENS: usize = 8;

/// What an alignment experiment is run with. Rates and coefficients are bit patterns.
#[derive(Clone, Copy, Debug, PartialEq, Eq, Structural)]
pub struct AlignArgs {
    pub rm_steps: usize,
    pub rm_lr: u32,
    pub steps: usize,
    pub lr: u32,
    pub beta: u32,
    pub clip_eps: u32,
    pub kl_coef: u32,
    pub group_size: usize,
    pub n_embd: usize,
    pub n_layer: usize,
    pub block_size: usize,
    pub batch_size: usize,
}

/// What is wrong with an alignment experiment.
#[derive(Clone, Copy, Debug, PartialEq, Eq, Structural)]
pub enum AlignFault {
    Width,
    RewardSteps,
    Steps,
    Beta,
    ClipRange,
    KlCoef,
    GroupSize,
    /// The corpus is too short for a question and an answer.
    ShortCorpus,
    /// The vocabulary has no four different tokens.
    SmallVocab,
}

impl AlignArgs {
    /// The first rule that is broken.
    pub open spec fn fault(self) -> Option<AlignFault> {
        if self.n_embd % 4 != 0 {
            Some(AlignFault::Width)
        } else if self.rm_steps < 1 {
            Some(AlignFault::RewardSteps)
        } else if self.steps < 1 {
            Some(AlignFault::Steps)
        } else if !float_bits::positive(self.beta) {
            Some(AlignFault::Beta)
        } else if !float_bits::positive(self.clip_eps) {
            Some(AlignFault::ClipRange)
        } else if !float_bits::positive(self.kl_coef) {
            Some(AlignFault::KlCoef)
        } else if self.group_size < 2 {
            Some(AlignFault::GroupSize)
        } else {
            None
        }
    }

    /// Checks the arguments.
    pub fn check(&self) -> (r: Result<(), AlignFault>)
        ensures
            r == match self.fault() {
                Some(e) => Err::<(), AlignFault>(e),
                None => Ok(()),
            },
    {
        if self.n_embd % 4 != 0 {
            return Err(AlignFault::Width);
        }
        if self.rm_steps < 1 {
            return Err(AlignFault::RewardSteps);
        }
        if self.steps < 1 {
            return Err(AlignFault::Steps);
        }
        if !float_bits::is_positive(self.beta) {
            return Err(AlignFault::Beta);
        }
        if !float_bits::is_positive(self.clip_eps) {
            return Err(AlignFault::ClipRange);
        }
        if !float_bits::is_positive(self.kl_coef) {
            return Err(AlignFault::KlCoef);
        }
        if self.group_size < 2 {
            return Err(AlignFault::GroupSize);
        }
        Ok(())
    }
}

/// The fewest tokens of a vocabulary: two that repeat, a good and a bad end.
pub const LEAST_VOCAB: usize = 4;

/// Checks the size of the vocabulary.
pub fn check_vocab(vocab: usize) -> (r: Result<(), AlignFault>)
    ensures
        r is Ok == (vocab >= LEAST_VOCAB),
        r matches Err(e) ==> e == AlignFault::SmallVocab,
{
    if vocab < LEAST_VOCAB {
        return Err(AlignFault::SmallVocab);
    }
    Ok(())
}

/// Two tokens in turn, `m` times, and a last one.
pub open spec fn answer_of(first: usize, second: usize, m: int, last: usize) -> Seq<usize> {
    Seq::new(
        (2 * m) as nat,
        |i: int|
            if i % 2 == 0 {
                first
            } else {
                second
            },
    ).push(last)
}

/// Makes an answer.
pub fn make_seq(first: usize, second: usize, m: usize, last: usize) -> (r: Vec<usize>)
    requires
        2 * m < usize::MAX,
    ensures
        r@ == answer_of(first, second, m as int, last),
{
    let mut v: Vec<usize> = Vec::new();
    for i in 0..2 * m
        invariant
            v@.len() == i,
            forall|j: int|
                0 <= j < i ==> #[trigger] v@[j] == if j % 2 == 0 {
                    first
                } else {
                    second
                },
    {
        v.push(
            if i % 2 == 0 {
                first
            } else {
                second
            },
        );
    }
    v.push(last);
    assert(v@ =~= answer_of(first, second, m as int, last));
    v
}

/// Preferred and rejected answers have the same length and differ in their last token only: that
/// one is longer cannot be learned.
pub proof fn pairs_differ_at_the_end(first: usize, second: usize, m: int, good: usize, bad: usize)
    requires
        m >= 0,
    ensures
        answer_of(first, second, m, good).len() == answer_of(first, second, m, bad).len(),
        answer_of(first, second, m, good).len() == 2 * m + 1,
        answer_of(first, second, m, good).drop_last() == answer_of(
            first,
            second,
            m,
            bad,
        ).drop_last(),
        answer_of(first, second, m, good).last() == good,
        answer_of(first, second, m, bad).last() == bad,
{
    assert(answer_of(first, second, m, good).drop_last() =~= answer_of(
        first,
        second,
        m,
        bad,
    ).drop_last());
}

/// Answers of different lengths are different data: what is scored after training was not seen.
pub proof fn unseen_lengths_differ(
    first: usize,
    second: usize,
    trained: int,
    scored: int,
    a: usize,
    b: usize,
)
    requires
        trained >= 0,
        scored >= 0,
        trained != scored,
    ensures
        answer_of(first, second, trained, a) != answer_of(first, second, scored, b),
{
    assert(answer_of(first, second, trained, a).len() == 2 * trained + 1);
    assert(answer_of(first, second, scored, b).len() == 2 * scored + 1);
}

/// A question with an answer behind it.
pub fn after_prompt(prompt: &[usize], answer: &[usize]) -> (r: Vec<usize>)
    ensures
        r@ == prompt@ + answer@,
{
    let mut v: Vec<usize> = Vec::new();
    for i in 0..prompt.len()
        invariant
            v@ =~= prompt@.take(i as int),
    {
        v.push(prompt[i]);
    }
    assert(v@ =~= prompt@);
    for i in 0..answer.len()
        invariant
            v@ =~= prompt@ + answer@.take(i as int),
    {
        v.push(answer[i]);
    }
    assert(v@ =~= prompt@ + answer@);
    v
}

/// The sequence of the first experiment and the length of its question.
#[derive(Clone, Debug)]
pub struct MaskedProbe {
    pub ids: Vec<usize>,
    pub prompt_len: usize,
}

/// How many tokens of the corpus are used.
pub open spec fn probe_tokens(corpus: int) -> int {
    if corpus < 1 {
        0
    } else if corpus - 1 < ALIGN_TOKENS {
        corpus - 1
    } else {
        ALIGN_TOKENS as int
    }
}

/// Takes the sequence of the first experiment: a leading mark where the tokenizer has one, and the
/// beginning of the corpus.
pub fn masked_probe(bos: Option<usize>, corpus: &[usize]) -> (r: Result<MaskedProbe, AlignFault>)
    ensures
        r is Ok == (probe_tokens(corpus@.len() as int) >= ALIGN_LEAST),
        r matches Err(e) ==> e == AlignFault::ShortCorpus,
        r matches Ok(p) ==> p.prompt_len == QUESTION_TOKENS + 1 && p.ids@ == (match bos {
            Some(b) => seq![b],
            None => Seq::empty(),
        }) + corpus@.take(probe_tokens(corpus@.len() as int)),
{
    let n: usize = corpus.len();
    let take: usize = if n < 1 {
        0
    } else if n - 1 < ALIGN_TOKENS {
        n - 1
    } else {
        ALIGN_TOKENS
    };
    if take < ALIGN_LEAST {
        return Err(AlignFault::ShortCorpus);
    }
    let mut ids: Vec<usize> = Vec::new();
    if let Some(b) = bos {
        ids.push(b);
    }
    let ghost head: Seq<usize> = match bos {
        Some(b) => seq![b],
        None => Seq::empty(),
    };
    assert(ids@ =~= head);
    for i in 0..take
        invariant
            take <= corpus@.len(),
            ids@ =~= head + corpus@.take(i as int),
    {
        ids.push(corpus[i]);
    }
    Ok(MaskedProbe { ids, prompt_len: QUESTION_TOKENS + 1 })
}

/// Which answer the `i`-th member of a group gives: its length and whether it is the good one.
pub open spec fn group_member(i: int) -> (int, bool) {
    (2 + i % 3, i % 2 == 0)
}

/// Makes a group of answers to one question, good and bad ones in turn.
pub fn answer_group(
    prompt: &[usize],
    first: usize,
    second: usize,
    good: usize,
    bad: usize,
    size: usize,
) -> (r: Vec<Vec<usize>>)
    ensures
        r@.len() == size,
        forall|i: int|
            0 <= i < size ==> (#[trigger] r@[i])@ == prompt@ + answer_of(
                first,
                second,
                group_member(i).0,
                if group_member(i).1 {
                    good
                } else {
                    bad
                },
            ),
{
    let mut out: Vec<Vec<usize>> = Vec::new();
    for i in 0..size
        invariant
            out@.len() == i,
            forall|j: int|
                0 <= j < i ==> (#[trigger] out@[j])@ == prompt@ + answer_of(
                    first,
                    second,
                    group_member(j).0,
                    if group_member(j).1 {
                        good
                    } else {
                        bad
                    },
                ),
    {
        let last: usize = if i % 2 == 0 {
            good
        } else {
            bad
        };
        let answer: Vec<usize> = make_seq(first, second, 2 + i % 3, last);
        out.push(after_prompt(prompt, answer.as_slice()));
    }
    out
}

/// A group of two or more holds a good and a bad answer, so that its scores can differ.
pub proof fn groups_hold_both_kinds(size: int)
    requires
        size >= 2,
    ensures
        exists|i: int| 0 <= i < size && (#[trigger] group_member(i)).1,
        exists|i: int| 0 <= i < size && !(#[trigger] group_member(i)).1,
{
    assert(group_member(0).1);
    assert(!group_member(1).1);
}

/// Which pair is trained on in a step.
pub fn pair_at(step: usize, pairs: usize) -> (r: usize)
    requires
        pairs > 0,
    ensures
        r == step % pairs,
        r < pairs,
{
    step % pairs
}

} // verus!
