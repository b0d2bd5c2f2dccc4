//! Pieces of a text for retrieval: their invariants, putting them together again, scores.

use crate::awq;
use crate::float_bits;
use crate::quant;
use crate::rounding;
use crate::softmax;
use vstd::prelude::*;

verus! {

/// What a retrieval experiment is run with. The weight of relevance is a bit pattern.
#[derive(Clone, Copy, Debug, PartialEq, Eq, Structural)]
pub struct RagArgs {
    pub chunk_size: usize,
    pub overlap: usize,
    pub top_k: usize,
    pub hash_dim: usize,
    pub context_chars: usize,
    pub mmr_lambda: u32,
    pub mmr_pool: usize,
    pub n_embd: usize,
}

/// What is wrong with a retrieval experiment.
#[derive(Clone, Copy, Debug, PartialEq, Eq, Structural)]
pub enum RagFault {
    /// The window would not move on.
    Overlap,
    TopK,
    HashDim,
    Budget,
    Lambda,
    Width,
}

/// Whether a number lies between zero and one, both included.
pub open spec fn in_unit(x: u32) -> bool {
    float_bits::at_least_zero(x) && !awq::less(float_bits::ONE_BITS, x)
}

impl RagArgs {
    /// The first rule that is broken.
    pub open spec fn fault(self) -> Option<RagFault> {
        if self.chunk_size <= self.overlap {
            Some(RagFault::Overlap)
        } else if self.top_k < 1 {
            Some(RagFault::TopK)
        } else if self.hash_dim < 1 {
            Some(RagFault::HashDim)
        } else if self.context_chars < 1 {
            Some(RagFault::Budget)
        } else if !in_unit(self.mmr_lambda) {
            Some(RagFault::Lambda)
        } else if self.n_embd % 4 != 0 {
            Some(RagFault::Width)
        } else {
            None
        }
    }

    /// Checks the arguments.
    pub fn check(&self) -> (r: Result<(), RagFault>)
        ensures
            r == match self.fault() {
                Some(e) => Err::<(), RagFault>(e),
                None => Ok(()),
            },
    {
        if self.chunk_size <= self.overlap {
            return Err(RagFault::Overlap);
        }
        if self.top_k < 1 {
            return Err(RagFault::TopK);
        }
        if self.hash_dim < 1 {
            return Err(RagFault::HashDim);
        }
        if self.context_chars < 1 {
            return Err(RagFault::Budget);
        }
        let l: u32 = self.mmr_lambda;
        if !float_bits::is_at_least_zero(l) || awq::is_less(float_bits::ONE_BITS, l) {
            return Err(RagFault::Lambda);
        }
        if self.n_embd % 4 != 0 {
            return Err(RagFault::Width);
        }
        Ok(())
    }

    /// The window of the embedding model.
    pub fn model_window(&self) -> (r: usize)
        requires
            self.chunk_size + 8 <= usize::MAX,
        ensures
            r == if self.chunk_size + 8 < 64 {
                64
            } else {
                self.chunk_size + 8
            },
    {
        if self.chunk_size + 8 < 64 {
            64
        } else {
            self.chunk_size + 8
        }
    }

    /// The smallest of the budgets that prompts are built with.
    pub fn tight_budget(&self) -> (r: usize)
        ensures
            r == if self.context_chars < 40 {
                self.context_chars
            } else {
                40
            },
    {
        if self.context_chars < 40 {
            self.context_chars
        } else {
            40
        }
    }
}

/// A piece of a text: the characters from `start` up to `end`.
#[derive(Clone, Debug)]
pub struct Chunk {
    pub text: String,
    pub start: usize,
    pub end: usize,
}

/// Whether pieces have as many characters as their places say, and neighbours overlap by exactly
/// `overlap`.
pub open spec fn are_chunks(chunks: Seq<Chunk>, overlap: int) -> bool {
    &&& forall|i: int|
        0 <= i < chunks.len() ==> (#[trigger] chunks[i]).start <= chunks[i].end
            && chunks[i].text@.len() == chunks[i].end - chunks[i].start
    &&& forall|i: int|
        0 < i < chunks.len() ==> (#[trigger] chunks[i]).start + overlap == chunks[i - 1].end
}

/// The first `n` pieces put together, each without what it shares with the next; the last whole.
pub open spec fn rebuilt(chunks: Seq<Chunk>, overlap: int, n: nat) -> Seq<char>
    decreases n,
{
    if n == 0 {
        Seq::empty()
    } else {
        let t = chunks[n - 1].text@;
        rebuilt(chunks, overlap, (n - 1) as nat) + if n < chunks.len() {
            t.take(t.len() - overlap)
        } else {
            t
        }
    }
}

/// Checks the places and overlaps of pieces.
pub fn check_chunks(chunks: &[Chunk], overlap: usize) -> (r: bool)
    ensures
        r == are_chunks(chunks@, overlap as int),
{
    for i in 0..chunks.len()
        invariant
            forall|j: int|
                0 <= j < i ==> (#[trigger] chunks@[j]).start <= chunks@[j].end
                    && chunks@[j].text@.len() == chunks@[j].end - chunks@[j].start,
            forall|j: int|
                0 < j < i ==> (#[trigger] chunks@[j]).start + overlap == chunks@[j - 1].end,
    {
        let c: &Chunk = &chunks[i];
        if c.start > c.end || c.text.as_str().unicode_len() != c.end - c.start {
            assert(!(chunks@[i as int].start <= chunks@[i as int].end
                && chunks@[i as int].text@.len() == chunks@[i as int].end
                - chunks@[i as int].start));
            return false;
        }
        if i > 0 {
            let before: usize = chunks[i - 1].end;
            if before < c.start || before - c.start != overlap {
                assert(chunks@[i as int].start + overlap != chunks@[i - 1].end);
                return false;
            }
        }
    }
    true
}

/// Puts pieces together again.
pub fn rebuild(chunks: &[Chunk], overlap: usize) -> (r: String)
    requires
        are_chunks(chunks@, overlap as int),
        forall|i: int|
            0 <= i < chunks@.len() - 1 ==> (#[trigger] chunks@[i]).text@.len() >= overlap,
    ensures
        r@ == rebuilt(chunks@, overlap as int, chunks@.len()),
{
    let n: usize = chunks.len();
    let mut out: String = String::new();
    assert(out@ =~= rebuilt(chunks@, overlap as int, 0));
    for i in 0..n
        invariant
            n == chunks@.len(),
            forall|j: int|
                0 <= j < chunks@.len() - 1 ==> (#[trigger] chunks@[j]).text@.len() >= overlap,
            out@ == rebuilt(chunks@, overlap as int, i as nat),
    {
        let t: &str = chunks[i].text.as_str();
        if i + 1 < n {
            let len: usize = t.unicode_len();
            assert(chunks@[i as int].text@.len() >= overlap);
            assert(t@.subrange(0, len - overlap) =~= t@.take(len - overlap));
            out.append(t.substring_char(0, len - overlap));
        } else {
            out.append(t);
        }
    }
    out
}

/// Whether pieces are cut out of a text from its beginning to its end.
pub open spec fn cut_from(chunks: Seq<Chunk>, s: Seq<char>) -> bool {
    &&& forall|i: int|
        0 <= i < chunks.len() ==> (#[trigger] chunks[i]).end <= s.len() && chunks[i].text@
            == s.subrange(chunks[i].start as int, chunks[i].end as int)
    &&& chunks.len() > 0 ==> chunks[0].start == 0 && chunks.last().end == s.len()
    &&& chunks.len() == 0 ==> s.len() == 0
}

proof fn lemma_rebuilt_prefix(chunks: Seq<Chunk>, overlap: int, s: Seq<char>, n: nat)
    requires
        are_chunks(chunks, overlap),
        cut_from(chunks, s),
        forall|i: int| 0 <= i < chunks.len() - 1 ==> (#[trigger] chunks[i]).text@.len() >= overlap,
        n < chunks.len(),
        overlap >= 0,
    ensures
        rebuilt(chunks, overlap, n) == s.take(chunks[n as int].start as int),
    decreases n,
{
    if n == 0 {
        assert(s.take(0) =~= Seq::empty());
    } else {
        lemma_rebuilt_prefix(chunks, overlap, s, (n - 1) as nat);
        let c = chunks[n - 1];
        assert(chunks[n as int].start + overlap == chunks[n - 1].end);
        assert(rebuilt(chunks, overlap, n) =~= s.take(chunks[n as int].start as int));
    }
}

/// Pieces that are cut out of a text, with the stated overlap, give the text back: no character is
/// lost and none is doubled.
pub proof fn pieces_give_the_text_back(chunks: Seq<Chunk>, overlap: int, s: Seq<char>)
    requires
        are_chunks(chunks, overlap),
        cut_from(chunks, s),
        forall|i: int| 0 <= i < chunks.len() - 1 ==> (#[trigger] chunks[i]).text@.len() >= overlap,
        overlap >= 0,
    ensures
        rebuilt(chunks, overlap, chunks.len()) == s,
{
    if chunks.len() > 0 {
        let n = (chunks.len() - 1) as nat;
        lemma_rebuilt_prefix(chunks, overlap, s, n);
        assert(rebuilt(chunks, overlap, chunks.len()) =~= s);
    } else {
        assert(rebuilt(chunks, overlap, 0) =~= s);
    }
}

/// Cuts a text into pieces of `size` characters, each of which begins with the last `overlap`
/// characters of the one before; the last piece may be shorter.
pub fn cut(text: &str, size: usize, overlap: usize) -> (r: Vec<Chunk>)
    requires
        overlap < size,
    ensures
        are_chunks(r@, overlap as int),
        cut_from(r@, text@),
        forall|i: int| 0 <= i < r@.len() - 1 ==> (#[trigger] r@[i]).text@.len() == size,
        r@.len() > 0 ==> r@.last().text@.len() <= size,
        r@.len() > 1 ==> r@.last().text@.len() > overlap,
        rebuilt(r@, overlap as int, r@.len()) == text@,
{
    let n: usize = text.unicode_len();
    let mut pieces: Vec<Chunk> = Vec::new();
    let mut at: usize = 0;
    let mut done: bool = n == 0;
    while !done
        invariant
            n == text@.len(),
            overlap < size,
            are_chunks(pieces@, overlap as int),
            forall|i: int|
                0 <= i < pieces@.len() ==> (#[trigger] pieces@[i]).end <= n && pieces@[i].text@
                    == text@.subrange(pieces@[i].start as int, pieces@[i].end as int),
            forall|i: int|
                0 <= i < pieces@.len() - 1 ==> (#[trigger] pieces@[i]).text@.len() == size,
            pieces@.len() > 0 ==> pieces@[0].start == 0 && pieces@.last().text@.len() <= size,
            pieces@.len() > 1 ==> pieces@.last().text@.len() > overlap,
            !done ==> at < n,
            !done && pieces@.len() > 0 ==> at + overlap < n,
            !done && pieces@.len() > 0 ==> pieces@.last().text@.len() == size
                && pieces@.last().end == at + overlap,
            !done && pieces@.len() == 0 ==> at == 0,
            done ==> if pieces@.len() > 0 {
                pieces@.last().end == n
            } else {
                n == 0
            },
        decreases
            if done {
                0
            } else {
                n - at + 1
            },
    {
        let end: usize = if n - at <= size {
            n
        } else {
            at + size
        };
        pieces.push(
            Chunk { text: String::from_str(text.substring_char(at, end)), start: at, end },
        );
        if end == n {
            done = true;
        } else {
            at = end - overlap;
        }
    }
    proof {
        pieces_give_the_text_back(pieces@, overlap as int, text@);
    }
    pieces
}

/// Whether a character ends a sentence or a paragraph.
pub open spec fn breaks(c: char) -> bool {
    c == '。' || c == '！' || c == '？' || c == '；' || c == '…' || c == '.' || c == '!' || c == '?'
        || c == ';' || c == '\n'
}

/// How many of the first `n` pieces end with a break.
pub open spec fn broken(chunks: Seq<Chunk>, n: nat) -> nat
    decreases n,
{
    if n == 0 {
        0
    } else {
        let t = chunks[n - 1].text@;
        broken(chunks, (n - 1) as nat) + if t.len() > 0 && breaks(t.last()) {
            1nat
        } else {
            0nat
        }
    }
}

/// The inner borders that fall on a break.
pub open spec fn inner_breaks(chunks: Seq<Chunk>) -> nat {
    broken(
        chunks,
        if chunks.len() == 0 {
            0
        } else {
            (chunks.len() - 1) as nat
        },
    )
}

/// Counts the inner borders that fall on a break: the last piece ends with the text.
pub fn borders_on_breaks(chunks: &[Chunk]) -> (r: usize)
    ensures
        r == inner_breaks(chunks@),
{
    let n: usize = if chunks.len() == 0 {
        0
    } else {
        chunks.len() - 1
    };
    let mut found: usize = 0;
    for i in 0..n
        invariant
            n <= chunks@.len(),
            found == broken(chunks@, i as nat),
            found <= i,
    {
        let t: &str = chunks[i].text.as_str();
        let len: usize = t.unicode_len();
        if len > 0 {
            let c: char = t.get_char(len - 1);
            if c == '。' || c == '！' || c == '？' || c == '；' || c == '…' || c == '.' || c == '!'
                || c == '?' || c == ';' || c == '\n' {
                found = found + 1;
            }
        }
    }
    found
}

/// Whether moving pieces to sentence ends has cost no border that fell on a break.
pub fn alignment_helps(plain: &[Chunk], aligned: &[Chunk]) -> (r: bool)
    ensures
        r == (inner_breaks(aligned@) >= inner_breaks(plain@)),
{
    borders_on_breaks(aligned) >= borders_on_breaks(plain)
}

/// Whether pieces that were moved to sentence ends exceed the size by a quarter at most.
pub fn sizes_hold(chunks: &[Chunk], size: usize) -> (r: bool)
    requires
        size + size / 4 <= usize::MAX,
    ensures
        r == (forall|i: int|
            0 <= i < chunks@.len() ==> (#[trigger] chunks@[i]).text@.len() <= size + size / 4),
{
    for i in 0..chunks.len()
        invariant
            size + size / 4 <= usize::MAX,
            forall|j: int|
                0 <= j < i ==> (#[trigger] chunks@[j]).text@.len() <= size + size / 4,
    {
        if chunks[i].text.as_str().unicode_len() > size + size / 4 {
            assert(chunks@[i as int].text@.len() > size + size / 4);
            return false;
        }
    }
    true
}

/// The bit pattern of the largest finite number.
pub const LARGEST_FINITE: u32 = 0x7f7f_ffff;

/// The bit pattern of the smallest finite number.
pub const SMALLEST_FINITE: u32 = 0xff7f_ffff;

/// The smaller of two numbers; what is no number gives way.
pub open spec fn smaller(x: u32, y: u32) -> u32 {
    if float_bits::nan(y) {
        x
    } else if float_bits::nan(x) || awq::less(y, x) {
        y
    } else {
        x
    }
}

/// The smallest of the first `n` scores.
pub open spec fn lowest(scores: Seq<u32>, n: nat) -> u32
    decreases n,
{
    if n == 0 {
        LARGEST_FINITE
    } else {
        smaller(lowest(scores, (n - 1) as nat), scores[n - 1])
    }
}

/// The largest of the first `n` scores.
pub open spec fn highest(scores: Seq<u32>, n: nat) -> u32
    decreases n,
{
    if n == 0 {
        SMALLEST_FINITE
    } else {
        softmax::larger(highest(scores, (n - 1) as nat), scores[n - 1])
    }
}

/// The range of scores.
pub fn score_range(scores: &[u32]) -> (r: (u32, u32))
    ensures
        r.0 == lowest(scores@, scores@.len()),
        r.1 == highest(scores@, scores@.len()),
{
    let mut lo: u32 = LARGEST_FINITE;
    let mut hi: u32 = SMALLEST_FINITE;
    for i in 0..scores.len()
        invariant
            lo == lowest(scores@, i as nat),
            hi == highest(scores@, i as nat),
    {
        let s: u32 = scores[i];
        if !float_bits::is_nan(s) && (float_bits::is_nan(lo) || awq::is_less(s, lo)) {
            lo = s;
        }
        hi = softmax::larger_of(hi, s);
    }
    (lo, hi)
}

/// The largest of the similarities above the diagonal, row by row, among the first `p` of an
/// `n x n` table; zero where there is none.
pub open spec fn worst_pair(sims: Seq<u32>, n: int, p: nat) -> u32
    decreases p,
{
    if p == 0 {
        0
    } else {
        let before = worst_pair(sims, n, (p - 1) as nat);
        if (p - 1) / n < (p - 1) % n {
            softmax::larger(before, sims[p - 1])
        } else {
            before
        }
    }
}

/// Whether a table holds what `sim` may find for every pair above the diagonal.
pub open spec fn are_similarities<S: Fn(usize, usize) -> u32>(
    sim: &S,
    n: int,
    sims: Seq<u32>,
) -> bool {
    &&& sims.len() == n * n
    &&& forall|p: int|
        0 <= p < n * n && p / n < p % n ==> call_ensures(
            sim,
            ((p / n) as usize, (p % n) as usize),
            #[trigger] sims[p],
        )
}

/// The largest similarity of two different results out of `n`.
pub fn max_pairwise_similarity<S: Fn(usize, usize) -> u32>(sim: &S, n: usize) -> (r: u32)
    requires
        n * n <= usize::MAX,
        forall|i: usize, j: usize| i < j < n ==> call_requires(sim, (i, j)),
    ensures
        exists|sims: Seq<u32>| #[trigger]
            are_similarities(sim, n as int, sims) && r == worst_pair(
                sims,
                n as int,
                (n * n) as nat,
            ),
{
    let total: usize = n * n;
    let mut worst: u32 = 0;
    let ghost mut sims: Seq<u32> = Seq::empty();
    for p in 0..total
        invariant
            total == n * n,
            forall|i: usize, j: usize| i < j < n ==> call_requires(sim, (i, j)),
            sims.len() == p,
            forall|q: int|
                0 <= q < p && q / (n as int) < q % (n as int) ==> call_ensures(
                    sim,
                    ((q / (n as int)) as usize, (q % (n as int)) as usize),
                    #[trigger] sims[q],
                ),
            worst == worst_pair(sims, n as int, p as nat),
    {
        proof {
            quant::flat_position(p as int, n as int, n as int);
        }
        let i: usize = p / n;
        let j: usize = p % n;
        let ghost before = sims;
        if i < j {
            let s: u32 = sim(i, j);
            worst = softmax::larger_of(worst, s);
            proof {
                sims = before.push(s);
            }
        } else {
            proof {
                sims = before.push(0);
            }
        }
        proof {
            lemma_worst_is_local(before, sims[p as int], n as int, p as nat);
            assert forall|q: int| 0 <= q < p + 1 && q / (n as int) < q % (n as int) implies call_ensures(
                sim,
                ((q / (n as int)) as usize, (q % (n as int)) as usize),
                #[trigger] sims[q],
            ) by {
                if q < p {
                    assert(sims[q] == before[q]);
                }
            }
        }
    }
    assert(are_similarities(sim, n as int, sims));
    worst
}

proof fn lemma_worst_is_local(sims: Seq<u32>, more: u32, n: int, p: nat)
    requires
        p <= sims.len(),
    ensures
        worst_pair(sims.push(more), n, p) == worst_pair(sims, n, p),
    decreases p,
{
    if p > 0 {
        lemma_worst_is_local(sims, more, n, (p - 1) as nat);
    }
}

/// Whether scores never rise, up to a tolerance.
pub fn falls(scores: &[u32], tolerance: u32) -> (r: bool)
    ensures
        r == (forall|i: int|
            0 < i < scores@.len() ==> not_below(
                scores@[i - 1],
                rounding::difference(#[trigger] scores@[i], tolerance),
            )),
{
    if scores.len() < 2 {
        return true;
    }
    for i in 1..scores.len()
        invariant
            forall|j: int|
                0 < j < i ==> not_below(
                    scores@[j - 1],
                    rounding::difference(#[trigger] scores@[j], tolerance),
                ),
    {
        let floor: u32 = rounding::minus(scores[i], tolerance);
        let a: u32 = scores[i - 1];
        if float_bits::is_nan(a) || float_bits::is_nan(floor) || awq::is_less(a, floor) {
            assert(!not_below(
                scores@[i - 1],
                rounding::difference(scores@[i as int], tolerance),
            ));
            return false;
        }
    }
    true
}

/// Whether `x >= y`, which no NaN is.
pub open spec fn not_below(x: u32, y: u32) -> bool {
    !float_bits::nan(x) && !float_bits::nan(y) && !awq::less(x, y)
}

} // verus!
