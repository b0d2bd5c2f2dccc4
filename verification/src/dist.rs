//! Distributed training: batches and their shards, pieces put together, coverage, traffic.

use crate::awq;
use crate::float_bits;
use crate::layers;
use crate::matrix;
use crate::quant;
use crate::rounding;
use crate::roots;
use crate::softmax;
use vstd::prelude::*;

verus! {

/// Query heads of the experiment.
pub const DIST_HEADS: usize = 4;

/// Tokens that the corpus holds beyond a batch.
pub const CORPUS_MARGIN: usize = 8;

/// The bit pattern of `0.01`.
pub const HUNDREDTH: u32 = 0x3c23_d70a;

/// How the work is divided, and what is trained. Rates are bit patterns.
#[derive(Clone, Copy, Debug, PartialEq, Eq, Structural)]
pub struct DistArgs {
    /// Ways of splitting the samples.
    pub dp: usize,
    /// Ways of splitting a layer.
    pub tp: usize,
    /// Ways of splitting the stack of layers.
    pub pp: usize,
    pub micro_batches: usize,
    pub steps: usize,
    /// Samples per rank.
    pub batch_size: usize,
    pub block_size: usize,
    pub lr: u32,
    pub weight_decay: u32,
    pub n_embd: usize,
    pub n_layer: usize,
    pub seed: usize,
}

/// What is wrong with an experiment.
#[derive(Clone, Copy, Debug, PartialEq, Eq, Structural)]
pub enum DistFault {
    Degree,
    MicroBatches,
    Steps,
    Width,
    /// Without decay a shard that holds stale parameters would go unnoticed.
    NoDecay,
    CorpusTooShort,
    /// A layer cannot be split evenly.
    Indivisible,
}

impl DistArgs {
    /// The first rule that is broken.
    pub open spec fn fault(self) -> Option<DistFault> {
        if self.dp < 1 || self.tp < 1 || self.pp < 1 {
            Some(DistFault::Degree)
        } else if self.micro_batches < 1 {
            Some(DistFault::MicroBatches)
        } else if self.steps < 2 {
            Some(DistFault::Steps)
        } else if self.n_embd % DIST_HEADS != 0 {
            Some(DistFault::Width)
        } else if !float_bits::positive(self.weight_decay) {
            Some(DistFault::NoDecay)
        } else {
            None
        }
    }

    /// Checks the arguments.
    pub fn check(&self) -> (r: Result<(), DistFault>)
        ensures
            r == match self.fault() {
                Some(e) => Err::<(), DistFault>(e),
                None => Ok(()),
            },
    {
        if self.dp < 1 || self.tp < 1 || self.pp < 1 {
            return Err(DistFault::Degree);
        }
        if self.micro_batches < 1 {
            return Err(DistFault::MicroBatches);
        }
        if self.steps < 2 {
            return Err(DistFault::Steps);
        }
        if self.n_embd % DIST_HEADS != 0 {
            return Err(DistFault::Width);
        }
        if !float_bits::is_positive(self.weight_decay) {
            return Err(DistFault::NoDecay);
        }
        Ok(())
    }

    /// Tokens of the whole batch.
    pub open spec fn need(self) -> int {
        self.batch_size * self.dp * self.block_size
    }

    /// Tokens of one rank.
    pub open spec fn share(self) -> int {
        self.batch_size * self.block_size
    }

    /// Checks that the hidden layer, twice as wide as the model, can be split.
    pub fn check_split(&self) -> (r: Result<(), DistFault>)
        requires
            self.tp >= 1,
            2 * self.n_embd <= usize::MAX,
        ensures
            r is Ok == ((2 * self.n_embd) % (self.tp as int) == 0 && self.n_embd % self.tp == 0),
            r matches Err(e) ==> e == DistFault::Indivisible,
    {
        if (2 * self.n_embd) % self.tp == 0 && self.n_embd % self.tp == 0 {
            Ok(())
        } else {
            Err(DistFault::Indivisible)
        }
    }
}

/// A batch and what is to be predicted for it.
#[derive(Clone, Debug)]
pub struct Batch {
    pub ids: Vec<usize>,
    pub targets: Vec<usize>,
}

/// Where the batch begins in the corpus.
pub open spec fn batch_start(seed: int, corpus: int, need: int) -> int {
    (seed * 13) % (corpus - need)
}

/// The next token of every token; the first follows the last.
pub open spec fn successors(ids: Seq<usize>) -> Seq<usize> {
    Seq::new(ids.len(), |i: int| ids[(i + 1) % (ids.len() as int)])
}

/// Takes the batch of an experiment from the corpus. What is predicted is a function of the whole
/// batch, so that shards of it are the same wherever they are cut.
pub fn take_batch(args: &DistArgs, corpus: &[usize]) -> (r: Result<Batch, DistFault>)
    requires
        args.need() + CORPUS_MARGIN <= usize::MAX,
        args.batch_size * args.dp <= usize::MAX,
        args.seed * 13 <= usize::MAX,
    ensures
        r is Ok == (corpus@.len() > args.need() + CORPUS_MARGIN),
        r matches Err(e) ==> e == DistFault::CorpusTooShort,
        r matches Ok(b) ==> {
            let start = batch_start(args.seed as int, corpus@.len() as int, args.need());
            &&& b.ids@ == corpus@.subrange(start, start + args.need())
            &&& b.targets@ == successors(b.ids@)
        },
{
    let total: usize = args.batch_size * args.dp;
    proof {
        assert(0 <= total * args.block_size) by (nonlinear_arith)
            requires
                total >= 0,
                args.block_size >= 0,
        ;
    }
    let need: usize = total * args.block_size;
    if corpus.len() <= need + CORPUS_MARGIN {
        return Err(DistFault::CorpusTooShort);
    }
    let start: usize = (args.seed * 13) % (corpus.len() - need);
    let len: usize = corpus.len();
    let mut ids: Vec<usize> = Vec::new();
    for i in 0..need
        invariant
            len == corpus@.len(),
            start + need <= len,
            ids@ == corpus@.subrange(start as int, start + i),
    {
        ids.push(corpus[start + i]);
        assert(corpus@.subrange(start as int, start + i + 1) =~= corpus@.subrange(
            start as int,
            start + i,
        ).push(corpus@[start + i]));
    }
    let mut targets: Vec<usize> = Vec::new();
    for i in 0..need
        invariant
            need == ids@.len(),
            targets@.len() == i,
            forall|j: int|
                0 <= j < i ==> #[trigger] targets@[j] == ids@[(j + 1) % (ids@.len() as int)],
    {
        targets.push(ids[(i + 1) % need]);
    }
    assert(targets@ =~= successors(ids@));
    Ok(Batch { ids, targets })
}

/// What one rank, or one step of a pipeline, gets of a batch.
pub open spec fn shard_of<T>(ids: Seq<T>, share: int, rank: int) -> Seq<T> {
    ids.subrange(rank * share, (rank + 1) * share)
}

/// Cuts out what one rank, or one step of a pipeline, gets of a batch.
pub fn shard<'a, T>(ids: &'a [T], share: usize, rank: usize) -> (r: &'a [T])
    requires
        (rank + 1) * share <= ids@.len(),
    ensures
        r@ == shard_of(ids@, share as int, rank as int),
{
    let n: usize = ids.len();
    proof {
        assert(0 <= rank * share && rank * share + share == (rank + 1) * share) by (nonlinear_arith)
            requires
                rank >= 0,
                share >= 0,
        ;
    }
    let lo: usize = rank * share;
    vstd::slice::slice_subrange(ids, lo, lo + share)
}

/// Every token of a batch is in the shard of exactly one rank, at the same place relative to its
/// start as its prediction.
pub proof fn shards_share_out_the_batch(ids: Seq<usize>, share: int, ranks: int, i: int)
    requires
        share >= 1,
        ranks >= 0,
        ids.len() == ranks * share,
        0 <= i < ids.len(),
    ensures
        0 <= i / share < ranks,
        shard_of(ids, share, i / share)[i % share] == ids[i],
        shard_of(successors(ids), share, i / share)[i % share] == successors(ids)[i],
        forall|r: int|
            0 <= r < ranks && #[trigger] (r * share) <= i < (r + 1) * share ==> r == i / share,
{
    quant::flat_position(i, ranks, share);
    let q = i / share;
    vstd::arithmetic::div_mod::lemma_fundamental_div_mod(i, share);
    assert(q * share == share * q) by (nonlinear_arith);
    assert((q + 1) * share == q * share + share) by (nonlinear_arith);
    assert((q + 1) * share <= ranks * share) by (nonlinear_arith)
        requires
            q + 1 <= ranks,
            share >= 1,
    ;
    assert(0 <= q * share) by (nonlinear_arith)
        requires
            q >= 0,
            share >= 1,
    ;
    assert forall|r: int|
        0 <= r < ranks && #[trigger] (r * share) <= i < (r + 1) * share implies r == i / share by {
        assert((r + 1) * share == r * share + share) by (nonlinear_arith);
        vstd::arithmetic::div_mod::lemma_fundamental_div_mod_converse(i, share, r, i - r * share);
    }
}

/// The local numbers of one rank in the traffic experiment: they depend on the rank, so that a
/// piece that was not moved shows.
pub open spec fn local_value(i: int, rank: int) -> u32 {
    rounding::product(rounding::count_value((i * 37 + rank * 11) % 101), HUNDREDTH)
}

/// Makes the local numbers of one rank.
pub fn local_values(n: usize, rank: usize) -> (r: Vec<u32>)
    requires
        n * 37 + rank * 11 <= usize::MAX,
    ensures
        r@ == Seq::new(n as nat, |i: int| local_value(i, rank as int)),
{
    let mut r: Vec<u32> = Vec::new();
    for i in 0..n
        invariant
            n * 37 + rank * 11 <= usize::MAX,
            r@.len() == i,
            forall|j: int| 0 <= j < i ==> #[trigger] r@[j] == local_value(j, rank as int),
    {
        let k: usize = (i * 37 + rank * 11) % 101;
        r.push(rounding::multiply(rounding::from_count(k as u64), HUNDREDTH));
    }
    assert(r@ =~= Seq::new(n as nat, |i: int| local_value(i, rank as int)));
    r
}

/// The largest of the first `n` differences; what is no number is passed over.
pub open spec fn largest_difference(a: Seq<u32>, b: Seq<u32>, n: nat) -> u32
    decreases n,
{
    if n == 0 {
        0
    } else {
        softmax::larger(
            largest_difference(a, b, (n - 1) as nat),
            float_bits::magnitude(rounding::difference(a[n - 1], b[n - 1])),
        )
    }
}

/// The largest difference of two buffers, element by element.
pub fn max_abs_diff(a: &[u32], b: &[u32]) -> (r: u32)
    requires
        a@.len() == b@.len(),
    ensures
        r == largest_difference(a@, b@, a@.len()),
{
    let mut worst: u32 = 0;
    for i in 0..a.len()
        invariant
            a@.len() == b@.len(),
            worst == largest_difference(a@, b@, i as nat),
    {
        worst = softmax::larger_of(worst, float_bits::abs_bits(rounding::minus(a[i], b[i])));
    }
    worst
}

/// Whether two buffers differ by less than `tolerance` everywhere.
pub fn agree(a: &[u32], b: &[u32], tolerance: u32) -> (r: bool)
    requires
        a@.len() == b@.len(),
    ensures
        r == (forall|i: int|
            0 <= i < a@.len() ==> awq::less(
                float_bits::magnitude(rounding::difference(#[trigger] a@[i], b@[i])),
                tolerance,
            )),
{
    for i in 0..a.len()
        invariant
            a@.len() == b@.len(),
            forall|j: int|
                0 <= j < i ==> awq::less(
                    float_bits::magnitude(rounding::difference(#[trigger] a@[j], b@[j])),
                    tolerance,
                ),
    {
        if !awq::is_less(float_bits::abs_bits(rounding::minus(a[i], b[i])), tolerance) {
            assert(!awq::less(
                float_bits::magnitude(rounding::difference(a@[i as int], b@[i as int])),
                tolerance,
            ));
            return false;
        }
    }
    true
}

/// A buffer of finite numbers differs from itself by nothing.
pub proof fn equal_buffers_agree(a: Seq<u32>, n: nat)
    requires
        n <= a.len(),
        forall|i: int| 0 <= i < a.len() ==> float_bits::finite(#[trigger] a[i]),
    ensures
        largest_difference(a, a, n) == 0,
    decreases n,
{
    if n > 0 {
        equal_buffers_agree(a, (n - 1) as nat);
        let x = a[n - 1];
        assert(rounding::signed_units(x) - rounding::signed_units(x) == 0);
        assert(float_bits::magnitude(rounding::difference(x, x)) == 0) by {
            crate::layer_laws::difference_with_itself(x);
        }
    }
}

/// Normal draws scaled to the spread `sqrt(2 / (rows + cols))`.
pub fn xavier_data(rows: usize, cols: usize, draws: &[u32]) -> (r: Vec<u32>)
    requires
        rows + cols <= usize::MAX,
        draws@.len() == rows * cols,
    ensures
        r@ == layers::xavier(draws@, rows as int, cols as int),
{
    let std: u32 = roots::square_root(
        rounding::divide(layers::TWO_BITS, rounding::from_count((rows + cols) as u64)),
    );
    matrix::scale(draws, std)
}

/// How often a column occurs among the first `n` entries of a list.
pub open spec fn occurrences(list: Seq<usize>, c: int, n: nat) -> nat
    decreases n,
{
    if n == 0 {
        0
    } else {
        occurrences(list, c, (n - 1) as nat) + if list[n - 1] == c {
            1nat
        } else {
            0nat
        }
    }
}

/// How often a column occurs in the first `n` lists.
pub open spec fn ownership(parts: Seq<Vec<usize>>, c: int, n: nat) -> nat
    decreases n,
{
    if n == 0 {
        0
    } else {
        ownership(parts, c, (n - 1) as nat) + occurrences(parts[n - 1]@, c, parts[n - 1]@.len())
    }
}

/// Whether the lists share out the columns below `width`: each occurs exactly once.
pub fn columns_covered(width: usize, parts: &[Vec<usize>]) -> (r: bool)
    ensures
        r == (forall|c: int| 0 <= c < width ==> #[trigger] ownership(parts@, c, parts@.len()) == 1),
{
    for c in 0..width
        invariant
            forall|k: int| 0 <= k < c ==> #[trigger] ownership(parts@, k, parts@.len()) == 1,
    {
        let mut found: u8 = 0;
        for p in 0..parts.len()
            invariant
                found <= 2,
                found < 2 ==> ownership(parts@, c as int, p as nat) == found,
                found == 2 ==> ownership(parts@, c as int, p as nat) >= 2,
        {
            let list: &Vec<usize> = &parts[p];
            let ghost before = found;
            for j in 0..list.len()
                invariant
                    before <= 2,
                    found <= 2,
                    found < 2 ==> before + occurrences(list@, c as int, j as nat) == found,
                    found == 2 ==> before + occurrences(list@, c as int, j as nat) >= 2,
            {
                if list[j] == c && found < 2 {
                    found = found + 1;
                }
            }
        }
        if found != 1 {
            assert(ownership(parts@, c as int, parts@.len()) != 1);
            return false;
        }
    }
    true
}

/// How many of the first `n` ranges hold a position.
pub open spec fn holders(ranges: Seq<(usize, usize)>, k: int, n: nat) -> nat
    decreases n,
{
    if n == 0 {
        0
    } else {
        holders(ranges, k, (n - 1) as nat) + if ranges[n - 1].0 <= k < ranges[n - 1].1 {
            1nat
        } else {
            0nat
        }
    }
}

/// Whether the ranges share out the positions below `n`: each is in exactly one.
pub fn ranges_covered(n: usize, ranges: &[(usize, usize)]) -> (r: bool)
    ensures
        r == (forall|k: int| 0 <= k < n ==> #[trigger] holders(ranges@, k, ranges@.len()) == 1),
{
    for k in 0..n
        invariant
            forall|q: int| 0 <= q < k ==> #[trigger] holders(ranges@, q, ranges@.len()) == 1,
    {
        let mut found: u8 = 0;
        for p in 0..ranges.len()
            invariant
                found <= 2,
                found < 2 ==> holders(ranges@, k as int, p as nat) == found,
                found == 2 ==> holders(ranges@, k as int, p as nat) >= 2,
        {
            let (lo, hi) = ranges[p];
            if lo <= k && k < hi && found < 2 {
                found = found + 1;
            }
        }
        if found != 1 {
            assert(holders(ranges@, k as int, ranges@.len()) != 1);
            return false;
        }
    }
    true
}

/// Whether rank `r` holds column `c` as its `j`-th.
pub open spec fn owns(cols: Seq<Vec<usize>>, c: int, r: int, j: int) -> bool {
    0 <= r < cols.len() && 0 <= j < cols[r]@.len() && cols[r]@[j] == c
}

/// Whether no column is held twice.
pub open spec fn owned_once(cols: Seq<Vec<usize>>) -> bool {
    forall|c: int, r: int, j: int, s: int, k: int| #[trigger]
        owns(cols, c, r, j) && #[trigger] owns(cols, c, s, k) ==> r == s && j == k
}

fn find_owner(cols: &[Vec<usize>], c: usize) -> (r: Option<(usize, usize)>)
    ensures
        r matches Some(o) ==> owns(cols@, c as int, o.0 as int, o.1 as int),
        r is None ==> forall|s: int, k: int| !#[trigger] owns(cols@, c as int, s, k),
{
    for s in 0..cols.len()
        invariant
            forall|p: int, k: int| 0 <= p < s ==> !#[trigger] owns(cols@, c as int, p, k),
    {
        let list: &Vec<usize> = &cols[s];
        for k in 0..list.len()
            invariant
                s < cols@.len(),
                *list == cols@[s as int],
                forall|q: int| 0 <= q < k ==> !#[trigger] owns(cols@, c as int, s as int, q),
        {
            if list[k] == c {
                assert(owns(cols@, c as int, s as int, k as int));
                return Some((s, k));
            }
        }
        assert forall|p: int, k: int| 0 <= p < s + 1 implies !#[trigger] owns(
            cols@,
            c as int,
            p,
            k,
        ) by {
            if p == s && 0 <= k < list@.len() {
                assert(!owns(cols@, c as int, s as int, k));
            }
        }
    }
    None
}

/// The number at row `row` that the rank holding column `c` has for it; zero where none holds it.
pub open spec fn is_assembled(
    shards: Seq<Vec<u32>>,
    cols: Seq<Vec<usize>>,
    row: int,
    c: int,
    v: u32,
) -> bool {
    &&& forall|r: int, j: int| #[trigger]
        owns(cols, c, r, j) ==> v == shards[r]@[row * cols[r]@.len() + j]
    &&& (forall|r: int, j: int| !#[trigger] owns(cols, c, r, j)) ==> v == 0
}

/// Puts a matrix together again from the columns that the ranks hold.
pub fn assemble_columns(
    shards: &[Vec<u32>],
    cols: &[Vec<usize>],
    rows: usize,
    width: usize,
) -> (out: Vec<u32>)
    requires
        shards@.len() == cols@.len(),
        owned_once(cols@),
        forall|r: int|
            0 <= r < cols@.len() ==> (#[trigger] shards@[r])@.len() == rows * cols@[r]@.len(),
        rows * width <= usize::MAX,
    ensures
        out@.len() == rows * width,
        forall|row: int, c: int|
            0 <= row < rows && 0 <= c < width ==> is_assembled(
                shards@,
                cols@,
                row,
                c,
                #[trigger] out@[row * width + c],
            ),
{
    let mut owners: Vec<Option<(usize, usize)>> = Vec::new();
    for c in 0..width
        invariant
            owners@.len() == c,
            forall|k: int|
                0 <= k < c ==> match #[trigger] owners@[k] {
                    Some(o) => owns(cols@, k, o.0 as int, o.1 as int),
                    None => forall|s: int, q: int| !#[trigger] owns(cols@, k, s, q),
                },
    {
        owners.push(find_owner(cols, c));
    }
    let total: usize = rows * width;
    let mut out: Vec<u32> = Vec::new();
    for p in 0..total
        invariant
            total == rows * width,
            shards@.len() == cols@.len(),
            owned_once(cols@),
            forall|r: int|
                0 <= r < cols@.len() ==> (#[trigger] shards@[r])@.len() == rows * cols@[r]@.len(),
            owners@.len() == width,
            forall|k: int|
                0 <= k < width ==> match #[trigger] owners@[k] {
                    Some(o) => owns(cols@, k, o.0 as int, o.1 as int),
                    None => forall|s: int, q: int| !#[trigger] owns(cols@, k, s, q),
                },
            out@.len() == p,
            forall|q: int|
                0 <= q < p ==> is_assembled(
                    shards@,
                    cols@,
                    q / (width as int),
                    q % (width as int),
                    #[trigger] out@[q],
                ),
    {
        proof {
            quant::flat_position(p as int, rows as int, width as int);
        }
        let row: usize = p / width;
        let c: usize = p % width;
        let v: u32 = match owners[c] {
            Some((r, j)) => {
                let local: usize = cols[r].len();
                proof {
                    assert(owns(cols@, c as int, r as int, j as int));
                    quant::cell_position(row as int, j as int, rows as int, local as int);
                }
                let shard: &Vec<u32> = &shards[r];
                let len: usize = shard.len();
                shard[row * local + j]
            },
            None => 0,
        };
        assert(is_assembled(shards@, cols@, row as int, c as int, v));
        out.push(v);
    }
    proof {
        assert forall|row: int, c: int| 0 <= row < rows && 0 <= c < width implies is_assembled(
            shards@,
            cols@,
            row,
            c,
            #[trigger] out@[row * width + c],
        ) by {
            quant::cell_position(row, c, rows as int, width as int);
            assert(is_assembled(
                shards@,
                cols@,
                (row * width + c) / (width as int),
                (row * width + c) % (width as int),
                out@[row * width + c],
            ));
        }
    }
    out
}

/// Bytes that one step of sharded training moves in all: as much as a full exchange.
pub fn step_traffic(ranks: usize, params: usize) -> (r: u128)
    requires
        ranks >= 1,
        8 * ((ranks - 1) * params) <= u128::MAX,
    ensures
        r == 8 * ((ranks - 1) * params),
{
    proof {
        assert(0 <= (ranks - 1) * params) by (nonlinear_arith)
            requires
                ranks >= 1,
                params >= 0,
        ;
    }
    8 * ((ranks - 1) as u128 * params as u128)
}

/// Bytes of the two moments that an unsharded optimiser keeps on every rank.
pub fn full_state(params: usize) -> (r: u128)
    ensures
        r == 2 * params * 4,
{
    2 * params as u128 * 4
}

} // verus!
