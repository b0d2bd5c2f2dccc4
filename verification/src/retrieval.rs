//! What retrieval must keep to: numbers of hits, their order, redundancy, the budget of a prompt.

use crate::awq;
use crate::chunks;
use crate::float_bits;
use crate::rounding;
use crate::text;
use vstd::prelude::*;

verus! {

/// `1e-6`, by how much scores may miss their order.
pub const SCORE_SLACK: u32 = 0x3586_37bd;

/// `1e-5`, by how much the length of an embedding may miss one.
pub const NORM_SLACK: u32 = 0x3727_c5ac;

/// Whether a list of terms holds a term.
pub open spec fn has_term(terms: Seq<String>, term: Seq<char>) -> bool {
    exists|i: int| 0 <= i < terms.len() && (#[trigger] terms[i])@ == term
}

/// In how many of the first `n` pieces a term occurs.
pub open spec fn pieces_with(pieces: Seq<Vec<String>>, term: Seq<char>, n: nat) -> nat
    decreases n,
{
    if n == 0 {
        0
    } else {
        pieces_with(pieces, term, (n - 1) as nat) + if has_term(pieces[n - 1]@, term) {
            1nat
        } else {
            0nat
        }
    }
}

fn holds_term(terms: &Vec<String>, term: &str) -> (r: bool)
    ensures
        r == has_term(terms@, term@),
{
    for i in 0..terms.len()
        invariant
            forall|k: int| 0 <= k < i ==> (#[trigger] terms@[k])@ != term@,
    {
        if text::same_text(terms[i].as_str(), term) {
            return true;
        }
    }
    false
}

/// In how many pieces a term occurs, given the terms of each piece.
pub fn document_frequency(pieces: &[Vec<String>], term: &str) -> (r: usize)
    ensures
        r == pieces_with(pieces@, term@, pieces@.len()),
        r <= pieces@.len(),
{
    let mut n: usize = 0;
    for i in 0..pieces.len()
        invariant
            n == pieces_with(pieces@, term@, i as nat),
            n <= i,
    {
        if holds_term(&pieces[i], term) {
            n = n + 1;
        }
    }
    n
}

/// How many of the first `n` coordinates are not zero.
pub open spec fn live(v: Seq<u32>, n: nat) -> nat
    decreases n,
{
    if n == 0 {
        0
    } else {
        live(v, (n - 1) as nat) + if float_bits::magnitude(v[n - 1]) != 0 {
            1nat
        } else {
            0nat
        }
    }
}

/// How many coordinates of a vector are not zero.
pub fn live_dims(v: &[u32]) -> (r: usize)
    ensures
        r == live(v@, v@.len()),
        r <= v@.len(),
{
    let mut n: usize = 0;
    for i in 0..v.len()
        invariant
            n == live(v@, i as nat),
            n <= i,
    {
        if float_bits::abs_bits(v[i]) != 0 {
            n = n + 1;
        }
    }
    n
}

/// Whether the length of an embedding is one, up to the tolerance; no NaN is.
pub open spec fn unit_length(norm: u32) -> bool {
    awq::less(
        float_bits::magnitude(rounding::difference(norm, float_bits::ONE_BITS)),
        NORM_SLACK,
    )
}

/// Tests the length of an embedding.
pub fn is_unit_length(norm: u32) -> (r: bool)
    ensures
        r == unit_length(norm),
{
    awq::is_less(float_bits::abs_bits(rounding::minus(norm, float_bits::ONE_BITS)), NORM_SLACK)
}

/// Whether two numbers compare equal: zeros of either sign do, NaNs do not.
pub open spec fn same_number(x: u32, y: u32) -> bool {
    !float_bits::nan(x) && !float_bits::nan(y) && (x == y || (float_bits::magnitude(x) == 0
        && float_bits::magnitude(y) == 0))
}

/// Whether embedding the same text twice gave the same vector.
pub fn repeats(a: &[u32], b: &[u32]) -> (r: bool)
    ensures
        r == (a@.len() == b@.len() && forall|i: int|
            0 <= i < a@.len() ==> same_number(#[trigger] a@[i], b@[i])),
{
    if a.len() != b.len() {
        return false;
    }
    for i in 0..a.len()
        invariant
            a@.len() == b@.len(),
            forall|j: int| 0 <= j < i ==> same_number(#[trigger] a@[j], b@[j]),
    {
        let (x, y): (u32, u32) = (a[i], b[i]);
        let same: bool = !float_bits::is_nan(x) && !float_bits::is_nan(y) && (x == y || (
        float_bits::abs_bits(x) == 0 && float_bits::abs_bits(y) == 0));
        if !same {
            assert(!same_number(a@[i as int], b@[i as int]));
            return false;
        }
    }
    true
}

/// Whether every score is zero, as those of a query are whose terms all are unknown.
pub fn all_silent(hits: &[Hit]) -> (r: bool)
    ensures
        r == (forall|i: int|
            0 <= i < hits@.len() ==> float_bits::magnitude((#[trigger] hits@[i]).score) == 0),
{
    for i in 0..hits.len()
        invariant
            forall|j: int|
                0 <= j < i ==> float_bits::magnitude((#[trigger] hits@[j]).score) == 0,
    {
        if float_bits::abs_bits(hits[i].score) != 0 {
            assert(float_bits::magnitude(hits@[i as int].score) != 0);
            return false;
        }
    }
    true
}

/// A piece that was found, by its place, and its score.
#[derive(Clone, Copy, Debug, PartialEq, Eq, Structural)]
pub struct Hit {
    pub index: usize,
    pub score: u32,
}

/// What three searches for one query have found: by relevance, by relevance and diversity, and by
/// the latter with diversity turned off. The redundancies are those of the first two.
#[derive(Debug)]
pub struct Searches {
    pub plain: Vec<Hit>,
    pub diverse: Vec<Hit>,
    pub turned_off: Vec<Hit>,
    pub plain_redundancy: u32,
    pub diverse_redundancy: u32,
}

/// What is wrong with the searches.
#[derive(Clone, Copy, Debug, PartialEq, Eq, Structural)]
pub enum SearchFault {
    /// Not as many hits as were asked for and can be had.
    Count,
    /// The searches found different numbers.
    Uneven,
    /// The scores rise.
    Order,
    /// The best hit has nothing in common with the query.
    Unrelated,
    /// Diversity made the hits more alike.
    Redundant,
    /// With diversity turned off, other pieces are found.
    Picks,
}

/// The scores of hits.
pub open spec fn scores(hits: Seq<Hit>) -> Seq<u32> {
    hits.map_values(|h: Hit| h.score)
}

/// The places of hits.
pub open spec fn picks(hits: Seq<Hit>) -> Seq<usize> {
    hits.map_values(|h: Hit| h.index)
}

/// Whether scores never rise, up to the slack.
pub open spec fn ordered(s: Seq<u32>) -> bool {
    forall|i: int|
        0 < i < s.len() ==> chunks::not_below(
            s[i - 1],
            rounding::difference(#[trigger] s[i], SCORE_SLACK),
        )
}

/// How many hits there must be.
pub open spec fn expected_hits(k: int, pieces: int) -> int {
    if k < pieces {
        k
    } else {
        pieces
    }
}

fn scores_of(hits: &Vec<Hit>) -> (r: Vec<u32>)
    ensures
        r@ == scores(hits@),
{
    let mut r: Vec<u32> = Vec::new();
    for i in 0..hits.len()
        invariant
            r@ =~= scores(hits@).take(i as int),
    {
        r.push(hits[i].score);
    }
    assert(r@ =~= scores(hits@));
    r
}

fn same_picks(a: &Vec<Hit>, b: &Vec<Hit>) -> (r: bool)
    ensures
        r == (picks(a@) == picks(b@)),
{
    if a.len() != b.len() {
        assert(picks(a@).len() != picks(b@).len());
        return false;
    }
    for i in 0..a.len()
        invariant
            a@.len() == b@.len(),
            forall|k: int| 0 <= k < i ==> picks(a@)[k] == picks(b@)[k],
    {
        if a[i].index != b[i].index {
            assert(picks(a@)[i as int] != picks(b@)[i as int]);
            return false;
        }
    }
    assert(picks(a@) =~= picks(b@));
    true
}

impl Searches {
    /// The first rule that is broken, of a search for `k` among `pieces`.
    pub open spec fn fault(self, k: int, pieces: int) -> Option<SearchFault> {
        if self.plain@.len() != expected_hits(k, pieces) {
            Some(SearchFault::Count)
        } else if self.diverse@.len() != self.plain@.len() {
            Some(SearchFault::Uneven)
        } else if !ordered(scores(self.plain@)) {
            Some(SearchFault::Order)
        } else if self.plain@.len() == 0 || !float_bits::positive(self.plain@[0].score) {
            Some(SearchFault::Unrelated)
        } else if !chunks::not_below(
            rounding::sum(self.plain_redundancy, SCORE_SLACK),
            self.diverse_redundancy,
        ) {
            Some(SearchFault::Redundant)
        } else if picks(self.turned_off@) != picks(self.plain@) {
            Some(SearchFault::Picks)
        } else {
            None
        }
    }

    /// Checks the searches.
    pub fn check(&self, k: usize, pieces: usize) -> (r: Result<(), SearchFault>)
        ensures
            r == match self.fault(k as int, pieces as int) {
                Some(e) => Err::<(), SearchFault>(e),
                None => Ok(()),
            },
    {
        let wanted: usize = if k < pieces {
            k
        } else {
            pieces
        };
        if self.plain.len() != wanted {
            return Err(SearchFault::Count);
        }
        if self.diverse.len() != self.plain.len() {
            return Err(SearchFault::Uneven);
        }
        let s: Vec<u32> = scores_of(&self.plain);
        if !chunks::falls(s.as_slice(), SCORE_SLACK) {
            assert(!ordered(s@));
            return Err(SearchFault::Order);
        }
        assert(ordered(s@));
        if self.plain.len() == 0 || !float_bits::is_positive(self.plain[0].score) {
            return Err(SearchFault::Unrelated);
        }
        let most: u32 = rounding::plus(self.plain_redundancy, SCORE_SLACK);
        if float_bits::is_nan(most) || float_bits::is_nan(self.diverse_redundancy) || awq::is_less(
            most,
            self.diverse_redundancy,
        ) {
            return Err(SearchFault::Redundant);
        }
        if !same_picks(&self.turned_off, &self.plain) {
            return Err(SearchFault::Picks);
        }
        Ok(())
    }
}

/// What a prompt took up of the hits.
#[derive(Clone, Copy, Debug, PartialEq, Eq, Structural)]
pub struct PromptUse {
    pub chunks: usize,
    pub chars: usize,
}

/// What is wrong with the prompts that were put together.
#[derive(Clone, Copy, Debug, PartialEq, Eq, Structural)]
pub enum PromptFault {
    /// A prompt takes more than its budget.
    OverBudget,
    /// Nothing was taken up.
    Nothing,
    /// There was room for all, and not all were taken up.
    LeftOut,
    /// With next to no room, not exactly the first was taken up.
    FirstLost,
    /// What was cut short is still over its budget.
    CutTooLong,
}

/// What is wrong with the prompts of one query: within the budget, with room for all, and with next
/// to no room.
pub open spec fn prompt_fault(
    used: PromptUse,
    budget: int,
    roomy: PromptUse,
    hits: int,
    tight: PromptUse,
    tight_budget: int,
) -> Option<PromptFault> {
    if used.chars > budget {
        Some(PromptFault::OverBudget)
    } else if used.chunks < 1 {
        Some(PromptFault::Nothing)
    } else if roomy.chunks != hits {
        Some(PromptFault::LeftOut)
    } else if tight.chunks != 1 {
        Some(PromptFault::FirstLost)
    } else if tight.chars > tight_budget {
        Some(PromptFault::CutTooLong)
    } else {
        None
    }
}

/// Checks the prompts of one query.
pub fn check_prompts(
    used: PromptUse,
    budget: usize,
    roomy: PromptUse,
    hits: usize,
    tight: PromptUse,
    tight_budget: usize,
) -> (r: Result<(), PromptFault>)
    ensures
        r == match prompt_fault(
            used,
            budget as int,
            roomy,
            hits as int,
            tight,
            tight_budget as int,
        ) {
            Some(e) => Err::<(), PromptFault>(e),
            None => Ok(()),
        },
{
    if used.chars > budget {
        return Err(PromptFault::OverBudget);
    }
    if used.chunks < 1 {
        return Err(PromptFault::Nothing);
    }
    if roomy.chunks != hits {
        return Err(PromptFault::LeftOut);
    }
    if tight.chunks != 1 {
        return Err(PromptFault::FirstLost);
    }
    if tight.chars > tight_budget {
        return Err(PromptFault::CutTooLong);
    }
    Ok(())
}

} // verus!
