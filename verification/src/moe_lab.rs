//! Experiments with experts: their configurations, collapsed routers, load reports.

use crate::awq;
use crate::block;
use crate::block::{BlockView, Ffn, FfnView};
use crate::config;
use crate::config::GPTConfig;
use crate::float_bits;
use crate::layer_laws;
use crate::layers::LinearView;
use crate::matrix;
use crate::model::{ModelView, GPT};
use crate::moe;
use crate::moe_layer::{MoELayer, MoeView};
use crate::params;
use crate::params::ParamView;
use crate::quant;
use crate::rounding;
use crate::sparse;
use crate::sparse::{Ratio, RouteStats, SparseStats};
use crate::text;
use vstd::prelude::*;

verus! {

/// The bit pattern of `3.0`.
pub const SKEW_BIAS: u32 = 0x4040_0000;

/// The bit pattern of `1e-6`.
pub const AUX_TOLERANCE: u32 = 0x3586_37bd;

/// Query heads of the experiments.
pub const LAB_HEADS: usize = 4;

/// Columns of a load bar.
pub const BAR_COLUMNS: usize = 40;

/// The configuration of an experiment. A single choice is weighted by its own probability:
/// renormalised it would always weigh one, and the router would learn nothing.
pub fn moe_config(
    vocab: usize,
    n_embd: usize,
    n_layer: usize,
    block_size: usize,
    n_expert: usize,
    top_k: usize,
    aux_coef: u32,
    z_loss: u32,
) -> (c: GPTConfig)
    ensures
        c == (GPTConfig {
            vocab_size: vocab,
            n_embd,
            n_head: LAB_HEADS,
            n_layer,
            block_size,
            dropout: 0,
            n_expert,
            moe_top_k: top_k,
            moe_capacity_factor: 0,
            moe_aux_coef: aux_coef,
            moe_z_loss_coef: z_loss,
            moe_switch_gate: n_expert > 1 && top_k == 1,
            ..config::default_config()
        }),
{
    let mut c: GPTConfig = GPTConfig::default();
    c.vocab_size = vocab;
    c.n_embd = n_embd;
    c.n_head = LAB_HEADS;
    c.n_layer = n_layer;
    c.block_size = block_size;
    c.dropout = 0;
    c.n_expert = n_expert;
    c.moe_top_k = top_k;
    c.moe_capacity_factor = 0;
    c.moe_aux_coef = aux_coef;
    c.moe_z_loss_coef = z_loss;
    c.moe_switch_gate = n_expert > 1 && top_k == 1;
    c
}

/// The first number of experts that makes a layer sparse.
pub fn first_sparse(experts: &[usize]) -> (r: Option<usize>)
    ensures
        r is None == (forall|i: int| 0 <= i < experts@.len() ==> experts@[i] < 2),
        r matches Some(e) ==> exists|i: int|
            0 <= i < experts@.len() && #[trigger] experts@[i] == e && e >= 2 && forall|j: int|
                0 <= j < i ==> experts@[j] < 2,
{
    for i in 0..experts.len()
        invariant
            forall|j: int| 0 <= j < i ==> experts@[j] < 2,
    {
        if experts[i] >= 2 {
            assert(experts@[i as int] >= 2);
            return Some(experts[i]);
        }
    }
    None
}

/// The numbers of choices that the isolated experiment is run with: one, and the given number
/// where that is more.
pub fn isolated_choices(k: usize) -> (r: Vec<usize>)
    ensures
        r@ == if k > 1 {
            seq![1usize, k]
        } else {
            seq![1usize]
        },
{
    let mut r: Vec<usize> = Vec::new();
    r.push(1);
    if k > 1 {
        r.push(k);
    }
    assert(r@ =~= if k > 1 {
        seq![1usize, k]
    } else {
        seq![1usize]
    });
    r
}

/// The account of a sparse model against the dense one.
#[derive(Clone, Copy, Debug, PartialEq, Eq, Structural)]
pub struct SparseAccount {
    /// What the model should hold.
    pub expected: u128,
    /// What one token uses of it.
    pub activated: u128,
}

/// What a model with `n_layer` sparse layers holds and uses, where the dense one holds `dense`.
pub fn sparse_account(dense: usize, n_layer: usize, s: &SparseStats) -> (r: SparseAccount)
    requires
        1 <= s.top_k <= s.n_expert,
        s.total() <= usize::MAX,
    ensures
        r.expected == dense + n_layer * (s.total() - s.expert_params),
        r.activated == r.expected - n_layer * ((s.n_expert - s.top_k) * s.expert_params),
{
    let total: usize = s.total_params();
    let (e, k, p) = (s.n_expert, s.top_k, s.expert_params);
    proof {
        assert(e * p >= p && (e - k) * p <= e * p - p && 0 <= (e - k) * p) by (nonlinear_arith)
            requires
                1 <= k <= e,
                p >= 0,
        ;
        let more = total - p;
        assert(0 <= n_layer * more <= usize::MAX * usize::MAX) by (nonlinear_arith)
            requires
                0 <= n_layer <= usize::MAX,
                0 <= more <= usize::MAX,
        ;
        assert(usize::MAX * usize::MAX + usize::MAX <= u128::MAX) by (nonlinear_arith)
            requires
                usize::MAX <= u64::MAX,
        ;
        let idle = (e - k) * p;
        assert(0 <= n_layer * idle <= n_layer * more) by (nonlinear_arith)
            requires
                0 <= idle <= more,
                0 <= n_layer,
        ;
    }
    let expected: u128 = dense as u128 + n_layer as u128 * (total - p) as u128;
    let idle: u128 = n_layer as u128 * ((e - k) * p) as u128;
    SparseAccount { expected, activated: expected - idle }
}

/// Adds up the loads of several batches: loads and drops are summed, the balance loss is averaged.
pub fn moe_probe(batches: &[RouteStats]) -> (r: RouteStats)
    requires
        batches@.len() > 0,
        forall|i: int|
            0 <= i < batches@.len() ==> (#[trigger] batches@[i]).counts@.len()
                == batches@[0].counts@.len(),
        sparse::sums_fit(batches@),
    ensures
        r.n_tokens == sparse::tokens_sum(batches@, batches@.len()),
        r.dropped == sparse::dropped_sum(batches@, batches@.len()),
        r.aux == rounding::quotient(
            sparse::aux_sum(batches@, batches@.len()),
            rounding::count_value(batches@.len() as int),
        ),
        forall|e: int|
            0 <= e < r.counts@.len() ==> #[trigger] r.counts@[e] == sparse::counts_sum(
                batches@,
                e,
                batches@.len(),
            ),
        r.counts@.len() == batches@[0].counts@.len(),
{
    sparse::merge_stats(batches)
}

/// The bias of a collapsed router: all for the first expert.
pub open spec fn skewed_bias(n: nat) -> Seq<u32> {
    Seq::new(
        n,
        |i: int|
            if i == 0 {
                SKEW_BIAS
            } else {
                0
            },
    )
}

/// A collapsed router: no weight, and a bias for the first expert.
pub open spec fn skewed_router(r: LinearView) -> LinearView {
    LinearView {
        weight: ParamView { data: params::zeros(r.weight.data.len()), ..r.weight },
        bias: ParamView { data: skewed_bias(r.bias.data.len()), ..r.bias },
        ..r
    }
}

/// A block whose router, if it has one, is collapsed.
pub open spec fn skewed_block(b: BlockView) -> BlockView {
    match b.ffn {
        FfnView::Moe(m) => BlockView {
            ffn: FfnView::Moe(MoeView { router: skewed_router(m.router), ..m }),
            ..b
        },
        FfnView::Dense(_) => b,
    }
}

/// How many of the first `n` blocks have experts.
pub open spec fn sparse_blocks(bs: Seq<BlockView>, n: nat) -> nat
    decreases n,
{
    if n == 0 {
        0
    } else {
        sparse_blocks(bs, (n - 1) as nat) + if bs[n - 1].ffn is Moe {
            1nat
        } else {
            0nat
        }
    }
}

fn skewed_vec(n: usize) -> (r: Vec<u32>)
    ensures
        r@ == skewed_bias(n as nat),
{
    let mut r: Vec<u32> = Vec::new();
    for i in 0..n
        invariant
            r@ =~= skewed_bias(i as nat),
    {
        r.push(
            if i == 0 {
                SKEW_BIAS
            } else {
                0
            },
        );
    }
    r
}

fn skew_layer(m: &mut MoELayer)
    ensures
        final(m)@ == (MoeView { router: skewed_router(old(m)@.router), ..old(m)@ }),
        final(m).stats == old(m).stats,
{
    let n: usize = m.router.weight.data.len();
    let k: usize = m.router.bias.data.len();
    m.router.weight.data = params::zero_vec(n);
    m.router.bias.data = skewed_vec(k);
}

/// Collapses every router of a model; returns how many there were.
pub fn skew_router(model: &mut GPT) -> (hit: usize)
    ensures
        hit == sparse_blocks(old(model)@.blocks, old(model)@.blocks.len()),
        final(model)@ == (ModelView {
            blocks: Seq::new(
                old(model)@.blocks.len(),
                |i: int| skewed_block(old(model)@.blocks[i]),
            ),
            ..old(model)@
        }),
        block::records(final(model).blocks@) == block::records(old(model).blocks@),
{
    let ghost before = model@;
    let ghost kept = block::records(model.blocks@);
    let n: usize = model.blocks.len();
    let mut hit: usize = 0;
    for i in 0..n
        invariant
            n == model.blocks@.len(),
            kept == block::records(model.blocks@),
            n == before.blocks.len(),
            model.cfg == before.cfg,
            model.tok_emb.table@ == before.table,
            model.ln_f@ == before.ln_f,
            model.lora == before.lora,
            model.quant == before.quant,
            model.dropout == before.dropout,
            hit == sparse_blocks(before.blocks, i as nat),
            hit <= i,
            forall|j: int| i <= j < n ==> (#[trigger] model.blocks@[j])@ == before.blocks[j],
            forall|j: int|
                0 <= j < i ==> (#[trigger] model.blocks@[j])@ == skewed_block(before.blocks[j]),
    {
        assert(model.blocks@[i as int]@ == before.blocks[i as int]);
        match &mut model.blocks[i].ffn {
            Ffn::Moe(m) => {
                skew_layer(m);
                hit = hit + 1;
                assert(before.blocks[i as int].ffn is Moe);
            },
            Ffn::Dense(_) => {},
        }
        assert(kept =~= block::records(model.blocks@));
    }
    assert(model@.blocks =~= Seq::new(before.blocks.len(), |i: int| skewed_block(before.blocks[i])));
    hit
}

/// A collapsed router gives the first expert its bias and all others zero, whatever the token.
pub proof fn collapsed_routers_ignore_the_token(r: LinearView, x: Seq<u32>, n: int, t: int, e: int)
    requires
        r.wf(),
        r.quant is None,
        r.lora is None,
        n >= 0,
        x.len() == n * r.inputs(),
        forall|p: int| 0 <= p < x.len() ==> float_bits::finite(#[trigger] x[p]),
        0 <= t < n,
        0 <= e < r.outputs(),
    ensures
        skewed_router(r).output(x, n)[t * r.outputs() + e] == if e == 0 {
            SKEW_BIAS
        } else {
            0
        },
{
    let s = skewed_router(r);
    let (i, o) = (r.inputs() as int, r.outputs() as int);
    quant::cell_position(t, e, n, o);
    layer_laws::dots_with_zeros_are_zero(x, s.weight.data, n, i, o, t, e, i as nat);
    assert(matrix::product_of(x, s.weight.data, n, i, o)[t * o + e] == 0);
    assert(layer_laws::clean(SKEW_BIAS));
    layer_laws::sum_with_zero(SKEW_BIAS, 0);
    layer_laws::sum_with_zero(0, 0);
    assert(rounding::sum(0, SKEW_BIAS) == rounding::sum(SKEW_BIAS, 0));
}

/// Every token of a collapsed router chooses the first expert.
pub proof fn collapsed_routers_choose_one(
    r: LinearView,
    x: Seq<u32>,
    n: int,
    k: int,
    t: int,
)
    requires
        r.wf(),
        r.quant is None,
        r.lora is None,
        n >= 0,
        x.len() == n * r.inputs(),
        forall|p: int| 0 <= p < x.len() ==> float_bits::finite(#[trigger] x[p]),
        0 <= t < n,
        r.outputs() >= 1,
        k >= 1,
    ensures
        moe::chooses(skewed_router(r).output(x, n), r.outputs() as int, k, t, 0),
{
    let l = skewed_router(r).output(x, n);
    let o = r.outputs() as int;
    assert forall|e: int| 0 <= e < o implies !#[trigger] moe::beats(l, o, t, e, 0) by {
        collapsed_routers_ignore_the_token(r, x, n, t, 0);
        collapsed_routers_ignore_the_token(r, x, n, t, e);
    }
    lemma_nobody_preferred(l, o, t, 0, o as nat);
}

proof fn lemma_nobody_preferred(l: Seq<u32>, o: int, t: int, e: int, upto: nat)
    requires
        upto <= o,
        forall|a: int| 0 <= a < o ==> !#[trigger] moe::beats(l, o, t, a, e),
    ensures
        moe::preferred(l, o, t, e, upto) == 0,
    decreases upto,
{
    if upto > 0 {
        lemma_nobody_preferred(l, o, t, e, (upto - 1) as nat);
        assert(!moe::beats(l, o, t, upto - 1, e));
    }
}

/// Whether optimising the balance loss has not raised it, up to rounding.
pub fn aux_not_raised(before: u32, after: u32) -> (r: bool)
    ensures
        r == (!float_bits::nan(after) && !float_bits::nan(rounding::sum(before, AUX_TOLERANCE))
            && !awq::less(rounding::sum(before, AUX_TOLERANCE), after)),
{
    let limit: u32 = rounding::plus(before, AUX_TOLERANCE);
    !float_bits::is_nan(after) && !float_bits::is_nan(limit) && !awq::is_less(limit, after)
}

/// Experts among the first `n` that got a token.
pub open spec fn experts_used(counts: Seq<usize>, n: nat) -> nat
    decreases n,
{
    if n == 0 {
        0
    } else {
        experts_used(counts, (n - 1) as nat) + if counts[n - 1] > 0 {
            1nat
        } else {
            0nat
        }
    }
}

/// The largest load, at least one.
pub open spec fn peak(counts: Seq<usize>) -> int {
    let most = sparse::largest_of(counts, counts.len());
    if most < 1 {
        1
    } else {
        most as int
    }
}

/// The length of a load bar: the share of the peak, to the nearest column, halves up.
pub open spec fn bar(count: int, peak: int) -> int {
    (2 * BAR_COLUMNS * count + peak) / (2 * peak)
}

/// A load report.
#[derive(Clone, Debug)]
pub struct RouteReport {
    pub imbalance: Ratio,
    /// Experts that got a token.
    pub used: usize,
    pub dropped: Ratio,
    /// Assignments in all.
    pub assigned: u128,
    /// One bar per expert.
    pub bars: Vec<usize>,
}

/// Reports on a load.
pub fn route_report(st: &RouteStats, top_k: usize) -> (r: RouteReport)
    ensures
        r.imbalance == sparse::imbalance_of(st.counts@),
        r.used == experts_used(st.counts@, st.counts@.len()),
        r.dropped == sparse::dropped_share(st.dropped as int, st.n_tokens as int, top_k as int),
        r.assigned == st.n_tokens * top_k,
        r.bars@.len() == st.counts@.len(),
        forall|i: int|
            0 <= i < r.bars@.len() ==> #[trigger] r.bars@[i] == bar(
                st.counts@[i] as int,
                peak(st.counts@),
            ),
{
    let n: usize = st.counts.len();
    let mut most: usize = 0;
    let mut used: usize = 0;
    for i in 0..n
        invariant
            n == st.counts@.len(),
            most == sparse::largest_of(st.counts@, i as nat),
            used == experts_used(st.counts@, i as nat),
            used <= i,
    {
        let c: usize = st.counts[i];
        if c > most {
            most = c;
        }
        if c > 0 {
            used = used + 1;
        }
    }
    let top: usize = if most < 1 {
        1
    } else {
        most
    };
    let mut bars: Vec<usize> = Vec::new();
    for i in 0..n
        invariant
            n == st.counts@.len(),
            top == peak(st.counts@),
            bars@.len() == i,
            forall|j: int|
                0 <= j < i ==> #[trigger] bars@[j] == bar(st.counts@[j] as int, peak(st.counts@)),
    {
        let c: usize = st.counts[i];
        proof {
            lemma_largest_bounds(st.counts@, st.counts@.len(), i as int);
            bars_fit(c as int, top as int);
            assert(0 <= 2 * BAR_COLUMNS * c <= 2 * BAR_COLUMNS * u64::MAX) by (nonlinear_arith)
                requires
                    0 <= c <= u64::MAX,
                    0 <= BAR_COLUMNS,
            ;
        }
        let w: u128 = (2 * BAR_COLUMNS as u128 * c as u128 + top as u128) / (2 * top as u128);
        bars.push(w as usize);
    }
    proof {
        assert(0 <= st.n_tokens * top_k <= u128::MAX) by (nonlinear_arith)
            requires
                0 <= st.n_tokens <= u64::MAX,
                0 <= top_k <= u64::MAX,
        ;
    }
    RouteReport {
        imbalance: st.imbalance(),
        used,
        dropped: st.dropped_ratio(top_k),
        assigned: st.n_tokens as u128 * top_k as u128,
        bars,
    }
}

proof fn lemma_largest_bounds(counts: Seq<usize>, n: nat, i: int)
    requires
        0 <= i < n <= counts.len(),
    ensures
        counts[i] <= sparse::largest_of(counts, n),
    decreases n,
{
    if i < n - 1 {
        lemma_largest_bounds(counts, (n - 1) as nat, i);
    }
}

/// A load bar fits its columns; a peak load fills them, and no load leaves them empty.
pub proof fn bars_fit(count: int, peak: int)
    requires
        0 <= count <= peak,
        peak >= 1,
    ensures
        0 <= bar(count, peak) <= BAR_COLUMNS,
        bar(peak, peak) == BAR_COLUMNS,
        bar(0, peak) == 0,
{
    let top = 2 * BAR_COLUMNS * count + peak;
    assert(BAR_COLUMNS * (2 * peak) == 2 * BAR_COLUMNS * peak) by (nonlinear_arith);
    assert(0 <= 2 * BAR_COLUMNS * count <= 2 * BAR_COLUMNS * peak) by (nonlinear_arith)
        requires
            0 <= count <= peak,
    ;
    vstd::arithmetic::div_mod::lemma_div_pos_is_pos(top, 2 * peak);
    vstd::arithmetic::div_mod::lemma_fundamental_div_mod_converse(
        2 * BAR_COLUMNS * peak + peak,
        2 * peak,
        BAR_COLUMNS as int,
        peak,
    );
    vstd::arithmetic::div_mod::lemma_fundamental_div_mod_converse(peak, 2 * peak, 0, peak);
    vstd::arithmetic::div_mod::lemma_div_is_ordered(
        top,
        2 * BAR_COLUMNS * peak + peak,
        2 * peak,
    );
}

/// How a capacity is shown: unlimited, or a number.
pub fn capacity_text(cap: usize) -> (r: String)
    ensures
        r@ == if cap == usize::MAX {
            "不限"@
        } else {
            text::digits(cap as nat)
        },
{
    if cap == usize::MAX {
        String::from_str("不限")
    } else {
        text::decimal(cap)
    }
}

} // verus!
