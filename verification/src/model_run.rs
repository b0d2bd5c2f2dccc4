//! Windows, masks, caches and statistics of a model.

use crate::block;
use crate::block::{BlockView, Ffn, FfnView, TransformerBlock};
use crate::codes::QBits;
use crate::config::{GPTConfig, RopeScaling, RopeSpec};
use crate::matrix;
use crate::model;
use crate::model::{GPT, ModelView};
use crate::moe::MINUS_INFINITY;
use crate::params;
use crate::params::{Module, Param, ParamView};
use crate::quant;
use crate::rounding;
use crate::sparse;
use crate::sparse::RouteStats;
use vstd::prelude::*;

verus! {

/// What a cache of keys and values is made for.
#[derive(Clone, Copy, Debug, PartialEq, Eq, Structural)]
pub struct KvCacheOpts {
    /// Positions kept; zero means all.
    pub window: usize,
    /// First positions that are never dropped.
    pub sink: usize,
    /// The width of stored codes; without one the numbers are kept as they are.
    pub bits: Option<QBits>,
}

/// Where a forward pass stands relative to its cache.
#[derive(Clone, Copy, Debug, PartialEq, Eq, Structural)]
pub struct Geometry {
    /// The position of the first new token.
    pub base: usize,
    /// Positions that the new tokens can see, themselves included.
    pub t_total: usize,
    /// How many of these come before the first new token.
    pub visible_before: usize,
}

/// The geometry of `t` new tokens after `seen` ones in a window, where zero means no limit.
pub open spec fn geometry_of(seen: int, window: int, t: int) -> (int, int, int) {
    let total = if window == 0 || seen + t <= window {
        seen + t
    } else {
        window
    };
    (seen, total, total - t)
}

fn geometry(seen: usize, window: usize, t: usize) -> (g: Geometry)
    requires
        seen + t <= usize::MAX,
        window == 0 || t <= window,
    ensures
        (g.base as int, g.t_total as int, g.visible_before as int) == geometry_of(
            seen as int,
            window as int,
            t as int,
        ),
{
    let total: usize = if window == 0 || seen + t <= window {
        seen + t
    } else {
        window
    };
    Geometry { base: seen, t_total: total, visible_before: total - t }
}

/// The geometry of `t` new tokens. More tokens than the window holds cannot be taken at once.
pub fn window_geometry(seen: usize, window: usize, t: usize) -> (r: Option<Geometry>)
    requires
        seen + t <= usize::MAX,
    ensures
        r is None <==> window != 0 && t > window,
        r matches Some(g) ==> (g.base as int, g.t_total as int, g.visible_before as int)
            == geometry_of(seen as int, window as int, t as int),
{
    if window != 0 && t > window {
        return None;
    }
    Some(geometry(seen, window, t))
}

/// The mask of `t` new tokens: token `i` sees position `j` exactly if `j <= i + before`.
pub open spec fn causal_mask(t: int, t_total: int, before: int) -> Seq<u32> {
    Seq::new(
        (t * t_total) as nat,
        |p: int|
            if p % t_total > p / t_total + before {
                MINUS_INFINITY
            } else {
                0u32
            },
    )
}

/// The mask of `t` new tokens.
pub fn build_mask(t: usize, g: &Geometry) -> (m: Vec<u32>)
    requires
        t * g.t_total <= usize::MAX,
        g.visible_before + t <= g.t_total,
    ensures
        m@ == causal_mask(t as int, g.t_total as int, g.visible_before as int),
{
    let width: usize = g.t_total;
    let n: usize = t * width;
    let before: usize = g.visible_before;
    let mut m: Vec<u32> = Vec::new();
    for p in 0..n
        invariant
            n == t * width,
            before + t <= width,
            m@ =~= Seq::new(
                p as nat,
                |p: int|
                    if p % (width as int) > p / (width as int) + before {
                        MINUS_INFINITY
                    } else {
                        0u32
                    },
            ),
    {
        proof {
            quant::flat_position(p as int, t as int, width as int);
        }
        if p % width > p / width + before {
            m.push(MINUS_INFINITY);
        } else {
            m.push(0);
        }
    }
    m
}

/// How far the caches of a model are, and how many positions they keep, where zero means all.
#[derive(Clone, Copy, Debug, PartialEq, Eq, Structural)]
pub struct CacheState {
    pub seen: usize,
    pub window: usize,
}

/// The state of caches that may not be there: none is like one that has seen nothing.
pub open spec fn state_of(cache: Option<CacheState>) -> CacheState {
    match cache {
        Some(c) => c,
        None => CacheState { seen: 0, window: 0 },
    }
}

/// What attention is told of a forward pass: the mask, `[new tokens, t_total]`, and the position of
/// the first new token.
#[derive(Debug)]
pub struct Sight {
    pub mask: Vec<u32>,
    pub t_total: usize,
    pub base: usize,
}

/// Whether this is what `t` new tokens see behind such caches.
pub open spec fn is_sight(s: Sight, c: CacheState, t: int) -> bool {
    let g = geometry_of(c.seen as int, c.window as int, t);
    s.base == g.0 && s.t_total == g.1 && s.mask@ == causal_mask(t, g.1, g.2)
}

/// Whether `t` new tokens can be taken at once behind such caches.
pub open spec fn admits(c: CacheState, t: int) -> bool {
    &&& c.seen + t <= usize::MAX
    &&& c.window == 0 || t <= c.window
    &&& t * geometry_of(c.seen as int, c.window as int, t).1 <= usize::MAX
}

/// What `t` new tokens see.
pub fn sight(cache: Option<CacheState>, t: usize) -> (s: Sight)
    requires
        admits(state_of(cache), t as int),
    ensures
        is_sight(s, state_of(cache), t as int),
{
    let c: CacheState = match cache {
        Some(c) => c,
        None => CacheState { seen: 0, window: 0 },
    };
    let g: Geometry = geometry(c.seen, c.window, t);
    Sight { mask: build_mask(t, &g), t_total: g.t_total, base: g.base }
}

/// A new token sees itself, every position before it and none after it; the last one sees all.
pub proof fn tokens_see_the_past(seen: int, window: int, t: int, i: int, j: int)
    requires
        seen >= 0,
        window >= 0,
        window == 0 || t <= window,
        0 <= i < t,
        0 <= j < geometry_of(seen, window, t).1,
    ensures
        ({
            let (base, total, before) = geometry_of(seen, window, t);
            let visible = causal_mask(t, total, before)[i * total + j] == 0;
            &&& visible <==> j <= before + i
            &&& j == before + i ==> visible
            &&& i == t - 1 ==> visible
        }),
{
    let (base, total, before) = geometry_of(seen, window, t);
    quant::cell_position(i, j, t, total);
}

/// A token behind a cache that drops the oldest positions sees of those that are kept what it would
/// see of them if all tokens were taken at once: column `j` stands for the position
/// `seen + t - total + j`.
pub proof fn caches_change_no_view(seen: int, window: int, t: int, i: int, j: int)
    requires
        seen >= 0,
        window >= 0,
        window == 0 || t <= window,
        0 <= i < t,
        0 <= j < geometry_of(seen, window, t).1,
    ensures
        ({
            let (base, total, before) = geometry_of(seen, window, t);
            let all = seen + t;
            let (row, column) = (seen + i, all - total + j);
            &&& base + i == row
            &&& 0 <= column < all
            &&& causal_mask(t, total, before)[i * total + j] == causal_mask(
                all,
                geometry_of(0, 0, all).1,
                geometry_of(0, 0, all).2,
            )[row * all + column]
        }),
{
    let (base, total, before) = geometry_of(seen, window, t);
    let all = seen + t;
    quant::cell_position(i, j, t, total);
    quant::cell_position(seen + i, all - total + j, all, all);
}

/// The losses of all blocks added in order, where there are any.
pub open spec fn aux_total(bs: Seq<TransformerBlock>, n: nat) -> Option<u32>
    decreases n,
{
    if n == 0 {
        None
    } else {
        let before = aux_total(bs, (n - 1) as nat);
        match bs[n - 1].aux {
            Some(a) => match before {
                Some(s) => Some(rounding::sum(s, a)),
                None => Some(a),
            },
            None => before,
        }
    }
}

/// The statistics of the expert layers among the first `n` blocks.
pub open spec fn expert_stats(bs: Seq<TransformerBlock>, n: nat) -> Seq<RouteStats>
    decreases n,
{
    if n == 0 {
        Seq::empty()
    } else {
        let before = expert_stats(bs, (n - 1) as nat);
        match bs[n - 1].ffn {
            Ffn::Moe(m) => before.push(m.stats),
            Ffn::Dense(_) => before,
        }
    }
}

/// Whether any block has experts.
pub open spec fn has_experts(m: ModelView) -> bool {
    exists|i: int| 0 <= i < m.blocks.len() && (#[trigger] m.blocks[i]).ffn is Moe
}

/// A block with another capacity factor.
pub open spec fn with_capacity(b: BlockView, cf: u32) -> BlockView {
    match b.ffn {
        FfnView::Moe(m) => BlockView {
            ffn: FfnView::Moe(crate::moe_layer::MoeView { capacity_factor: cf, ..m }),
            ..b
        },
        FfnView::Dense(_) => b,
    }
}

/// A copy of routing statistics.
fn copy_stats(s: &RouteStats) -> (r: RouteStats)
    ensures
        r.counts@ == s.counts@,
        r.dropped == s.dropped,
        r.n_tokens == s.n_tokens,
        r.aux == s.aux,
{
    RouteStats {
        counts: params::copied(&s.counts),
        dropped: s.dropped,
        n_tokens: s.n_tokens,
        aux: s.aux,
    }
}

/// Whether two statistics say the same.
pub open spec fn same_stats(a: Seq<RouteStats>, b: Seq<RouteStats>) -> bool {
    &&& a.len() == b.len()
    &&& forall|i: int|
        0 <= i < a.len() ==> (#[trigger] a[i]).counts@ == b[i].counts@ && a[i].dropped
            == b[i].dropped && a[i].n_tokens == b[i].n_tokens && a[i].aux == b[i].aux
}

proof fn lemma_same_sums(a: Seq<RouteStats>, b: Seq<RouteStats>, n: nat)
    requires
        same_stats(a, b),
        n <= a.len(),
    ensures
        sparse::tokens_sum(a, n) == sparse::tokens_sum(b, n),
        sparse::dropped_sum(a, n) == sparse::dropped_sum(b, n),
        sparse::aux_sum(a, n) == sparse::aux_sum(b, n),
        forall|e: int| #[trigger] sparse::counts_sum(a, e, n) == sparse::counts_sum(b, e, n),
    decreases n,
{
    if n > 0 {
        lemma_same_sums(a, b, (n - 1) as nat);
        assert(a[n - 1].counts@ == b[n - 1].counts@);
        assert forall|e: int| #[trigger] sparse::counts_sum(a, e, n) == sparse::counts_sum(
            b,
            e,
            n,
        ) by {
            assert(sparse::counts_sum(a, e, (n - 1) as nat) == sparse::counts_sum(
                b,
                e,
                (n - 1) as nat,
            ));
        }
    }
}

impl GPT {
    /// The losses that the experts of the last forward pass add, summed over all blocks.
    pub fn aux_loss(&self) -> (r: Option<u32>)
        ensures
            r == aux_total(self.blocks@, self.blocks@.len()),
    {
        let mut acc: Option<u32> = None;
        for i in 0..self.blocks.len()
            invariant
                acc == aux_total(self.blocks@, i as nat),
        {
            acc = match self.blocks[i].aux {
                Some(a) => match acc {
                    Some(s) => Some(rounding::plus(s, a)),
                    None => Some(a),
                },
                None => acc,
            };
        }
        acc
    }

    /// The routing statistics of all expert layers merged; nothing without experts.
    pub fn route_stats(&self) -> (r: Option<RouteStats>)
        requires
            sparse::sums_fit(expert_stats(self.blocks@, self.blocks@.len())),
        ensures
            ({
                let all = expert_stats(self.blocks@, self.blocks@.len());
                &&& r is None <==> all.len() == 0
                &&& r matches Some(s) ==> {
                    &&& s.n_tokens == sparse::tokens_sum(all, all.len())
                    &&& s.dropped == sparse::dropped_sum(all, all.len())
                    &&& s.aux == rounding::quotient(
                        sparse::aux_sum(all, all.len()),
                        rounding::count_value(all.len() as int),
                    )
                    &&& s.counts@.len() == all[0].counts@.len()
                    &&& forall|e: int|
                        0 <= e < s.counts@.len() ==> #[trigger] s.counts@[e] == sparse::counts_sum(
                            all,
                            e,
                            all.len(),
                        )
                }
            }),
    {
        let ghost all = expert_stats(self.blocks@, self.blocks@.len());
        let mut stats: Vec<RouteStats> = Vec::new();
        for i in 0..self.blocks.len()
            invariant
                same_stats(stats@, expert_stats(self.blocks@, i as nat)),
        {
            match self.blocks[i].route_stats() {
                Some(s) => stats.push(copy_stats(s)),
                None => {},
            }
        }
        if stats.len() == 0 {
            return None;
        }
        proof {
            lemma_same_sums(stats@, all, all.len());
            assert(stats@[0].counts@ == all[0].counts@);
        }
        Some(sparse::merge_stats(&stats))
    }

    /// Sets the capacity factor of all expert layers; tells whether there were any.
    pub fn set_moe_capacity_factor(&mut self, cf: u32) -> (any: bool)
        ensures
            any == has_experts(old(self)@),
            final(self)@ == (ModelView {
                blocks: Seq::new(
                    old(self)@.blocks.len(),
                    |i: int| with_capacity(old(self)@.blocks[i], cf),
                ),
                ..old(self)@
            }),
            block::records(final(self).blocks@) == block::records(old(self).blocks@),
    {
        let ghost before = self@;
        let ghost kept = block::records(self.blocks@);
        let n: usize = self.blocks.len();
        let mut any: bool = false;
        for i in 0..n
            invariant
                n == self.blocks@.len(),
                kept == block::records(self.blocks@),
                n == before.blocks.len(),
                self.cfg == before.cfg,
                self.tok_emb.table@ == before.table,
                self.ln_f@ == before.ln_f,
                self.lora == before.lora,
                self.quant == before.quant,
                self.dropout == before.dropout,
                any ==> has_experts(before),
                !any ==> forall|j: int| 0 <= j < i ==> !((#[trigger] before.blocks[j]).ffn is Moe),
                forall|j: int| i <= j < n ==> (#[trigger] self.blocks@[j])@ == before.blocks[j],
                forall|j: int|
                    0 <= j < i ==> (#[trigger] self.blocks@[j])@ == with_capacity(
                        before.blocks[j],
                        cf,
                    ),
        {
            assert(self.blocks@[i as int]@ == before.blocks[i as int]);
            match &mut self.blocks[i].ffn {
                Ffn::Moe(m) => {
                    m.capacity_factor = cf;
                    any = true;
                    assert(before.blocks[i as int].ffn is Moe);
                },
                Ffn::Dense(_) => {},
            }
            assert(kept =~= block::records(self.blocks@));
        }
        assert(self@.blocks =~= Seq::new(
            before.blocks.len(),
            |i: int| with_capacity(before.blocks[i], cf),
        ));
        any
    }

    /// Changes the rotary frequencies and the window; returns the window before. A training
    /// window of zero stands for the new window.
    pub fn set_rope(
        &mut self,
        base: u32,
        scaling: RopeScaling,
        train_ctx: usize,
        new_block_size: usize,
    ) -> (old_window: usize)
        ensures
            old_window == old(self)@.cfg.block_size,
            final(self)@ == old(self)@.rotated(
                GPTConfig {
                    block_size: new_block_size,
                    rope_base: base,
                    rope_scaling: scaling,
                    rope_train_ctx: if train_ctx == 0 {
                        new_block_size
                    } else {
                        train_ctx
                    },
                    ..old(self)@.cfg
                },
            ),
            block::records(final(self).blocks@) == block::records(old(self).blocks@),
    {
        let ghost before = self@;
        let ghost kept = block::records(self.blocks@);
        let old_window: usize = self.cfg.block_size;
        self.cfg.block_size = new_block_size;
        self.cfg.rope_base = base;
        self.cfg.rope_scaling = scaling;
        self.cfg.rope_train_ctx = if train_ctx == 0 {
            new_block_size
        } else {
            train_ctx
        };
        let spec: RopeSpec = self.cfg.rope_spec();
        let ghost cfg = self.cfg;
        let n: usize = self.blocks.len();
        for i in 0..n
            invariant
                n == self.blocks@.len(),
                kept == block::records(self.blocks@),
                n == before.blocks.len(),
                self.cfg == cfg,
                spec == cfg.frequencies(),
                self.tok_emb.table@ == before.table,
                self.ln_f@ == before.ln_f,
                self.lora == before.lora,
                self.quant == before.quant,
                self.dropout == before.dropout,
                forall|j: int| i <= j < n ==> (#[trigger] self.blocks@[j])@ == before.blocks[j],
                forall|j: int|
                    0 <= j < i ==> (#[trigger] self.blocks@[j])@ == before.rotated(cfg).blocks[j],
        {
            assert(self.blocks@[i as int]@ == before.blocks[i as int]);
            self.blocks[i].attn.rope = spec;
            assert(kept =~= block::records(self.blocks@));
        }
        assert(self@.blocks =~= before.rotated(cfg).blocks);
        old_window
    }

    /// The caches of a fresh conversation: one per block, as wide as the window.
    pub fn new_kv_cache_with(&self, sink: usize, bits: Option<QBits>) -> (r: Vec<KvCacheOpts>)
        ensures
            r@ == Seq::new(
                self@.cfg.n_layer as nat,
                |i: int| KvCacheOpts { window: self@.cfg.block_size, sink, bits },
            ),
    {
        let o: KvCacheOpts = KvCacheOpts { window: self.cfg.block_size, sink, bits };
        let mut r: Vec<KvCacheOpts> = Vec::new();
        for i in 0..self.cfg.n_layer
            invariant
                r@ =~= Seq::new(i as nat, |i: int| o),
        {
            r.push(o);
        }
        assert(r@ =~= Seq::new(
            self@.cfg.n_layer as nat,
            |i: int| KvCacheOpts { window: self@.cfg.block_size, sink, bits },
        ));
        r
    }

    /// The caches of a fresh conversation, without sinks and codes.
    pub fn new_kv_cache(&self) -> (r: Vec<KvCacheOpts>)
        ensures
            r@ == Seq::new(
                self@.cfg.n_layer as nat,
                |i: int| KvCacheOpts { window: self@.cfg.block_size, sink: 0, bits: None },
            ),
    {
        self.new_kv_cache_with(0, None)
    }

    /// The embeddings of `b * t` tokens.
    pub fn embed(&self, idx: &[usize], b: usize, t: usize) -> (x: Vec<u32>)
        requires
            self@.wf(),
            idx@.len() == b * t,
            idx@.len() * self@.cfg.n_embd <= usize::MAX,
            forall|i: int| 0 <= i < idx@.len() ==> #[trigger] idx@[i] < self@.cfg.vocab_size,
        ensures
            x@ == matrix::picked(self@.table.data, self@.cfg.n_embd as int, idx@),
    {
        self.tok_emb.forward(self.cfg.vocab_size, self.cfg.n_embd, idx)
    }

    /// The scores of all tokens of the vocabulary for `n` rows of hidden state.
    pub fn output_head(&self, hidden: &[u32], n: usize) -> (y: Vec<u32>)
        requires
            self@.wf(),
            hidden@.len() == n * self@.cfg.n_embd,
            n * self@.cfg.vocab_size <= usize::MAX,
        ensures
            y@ == matrix::product_of(
                hidden@,
                matrix::transposed(
                    self@.table.data,
                    self@.cfg.vocab_size as int,
                    self@.cfg.n_embd as int,
                ),
                n as int,
                self@.cfg.n_embd as int,
                self@.cfg.vocab_size as int,
            ),
    {
        let (v, d): (usize, usize) = (self.cfg.vocab_size, self.cfg.n_embd);
        let wt: Vec<u32> = matrix::transpose(&self.tok_emb.table.data, v, d);
        matrix::matmul(hidden, &wt, n, d, v)
    }

    /// The parameters of all adapters.
    pub fn lora_parameters(&self) -> (ps: Vec<&Param>)
        ensures
            params::views(ps@) == self@.adapters(),
    {
        let mut ps: Vec<&Param> = Vec::new();
        assert(params::views(ps@) =~= Seq::empty());
        for i in 0..self.blocks.len()
            invariant
                params::views(ps@) == model::stack_adapters(self@.blocks, i as nat),
        {
            params::extend_params(&mut ps, self.blocks[i].adapter_parameters());
        }
        ps
    }
}

/// Changing the window changes no parameter.
pub proof fn windows_change_no_parameter(m: ModelView, cfg: GPTConfig)
    ensures
        m.rotated(cfg).params() == m.params(),
        m.rotated(cfg).named() == m.named(),
{
    lemma_rotated_stack(m, cfg, m.blocks.len());
}

proof fn lemma_rotated_stack(m: ModelView, cfg: GPTConfig, n: nat)
    requires
        n <= m.blocks.len(),
    ensures
        model::stack_params(m.rotated(cfg).blocks, n) == model::stack_params(m.blocks, n),
        model::stack_named(m.rotated(cfg).blocks, n) == model::stack_named(m.blocks, n),
    decreases n,
{
    if n > 0 {
        lemma_rotated_stack(m, cfg, (n - 1) as nat);
    }
}

proof fn lemma_stack_changes(bs: Seq<BlockView>, on: bool, n: nat)
    requires
        n <= bs.len(),
    ensures
        model::stack_params(Seq::new(bs.len(), |i: int| bs[i].cleared()), n) == params::cleared(
            model::stack_params(bs, n),
        ),
        model::stack_params(Seq::new(bs.len(), |i: int| bs[i].marked(on)), n) == params::marked(
            model::stack_params(bs, n),
            on,
        ),
    decreases n,
{
    if n > 0 {
        lemma_stack_changes(bs, on, (n - 1) as nat);
        crate::block::changes_of_block(bs[n - 1], on);
        params::changes_of_concat(
            model::stack_params(bs, (n - 1) as nat),
            bs[n - 1].params(),
            on,
        );
    } else {
        assert(params::cleared(model::stack_params(bs, 0)) =~= Seq::empty());
        assert(params::marked(model::stack_params(bs, 0), on) =~= Seq::empty());
    }
}

impl Module for GPT {
    open spec fn param_views(&self) -> Seq<ParamView> {
        self@.params()
    }

    fn parameters(&self) -> (ps: Vec<&Param>) {
        let mut ps: Vec<&Param> = self.tok_emb.parameters();
        let ghost head = seq![self@.table];
        assert(head + model::stack_params(self@.blocks, 0) =~= head);
        for i in 0..self.blocks.len()
            invariant
                head == seq![self@.table],
                params::views(ps@) == head + model::stack_params(self@.blocks, i as nat),
        {
            params::extend_params(&mut ps, self.blocks[i].parameters());
            assert(params::views(ps@) =~= head + model::stack_params(
                self@.blocks,
                (i + 1) as nat,
            ));
        }
        params::extend_params(&mut ps, self.ln_f.parameters());
        assert(params::views(ps@) =~= self.param_views());
        ps
    }

    fn zero_grad(&mut self)
        ensures
            final(self)@ == old(self)@.cleared(),
            block::records(final(self).blocks@) == block::records(old(self).blocks@),
    {
        let ghost before = self@;
        let ghost kept = block::records(self.blocks@);
        let n: usize = self.blocks.len();
        self.tok_emb.zero_grad();
        self.ln_f.zero_grad();
        for i in 0..n
            invariant
                n == self.blocks@.len(),
                kept == block::records(self.blocks@),
                n == before.blocks.len(),
                self.cfg == before.cfg,
                self.tok_emb.table@ == before.table.cleared(),
                self.ln_f@ == before.ln_f.cleared(),
                self.lora == before.lora,
                self.quant == before.quant,
                self.dropout == before.dropout,
                forall|j: int| i <= j < n ==> (#[trigger] self.blocks@[j])@ == before.blocks[j],
                forall|j: int|
                    0 <= j < i ==> (#[trigger] self.blocks@[j])@ == before.blocks[j].cleared(),
        {
            assert(self.blocks@[i as int]@ == before.blocks[i as int]);
            self.blocks[i].zero_grad();
            assert(kept =~= block::records(self.blocks@));
        }
        proof {
            assert(self@.blocks =~= before.cleared().blocks);
            lemma_model_changes(before, true);
        }
    }

    fn set_requires_grad(&mut self, on: bool)
        ensures
            final(self)@ == old(self)@.marked(on),
            block::records(final(self).blocks@) == block::records(old(self).blocks@),
    {
        let ghost before = self@;
        let ghost kept = block::records(self.blocks@);
        let n: usize = self.blocks.len();
        self.tok_emb.set_requires_grad(on);
        self.ln_f.set_requires_grad(on);
        for i in 0..n
            invariant
                n == self.blocks@.len(),
                kept == block::records(self.blocks@),
                n == before.blocks.len(),
                self.cfg == before.cfg,
                self.tok_emb.table@ == before.table.marked(on),
                self.ln_f@ == before.ln_f.marked(on),
                self.lora == before.lora,
                self.quant == before.quant,
                self.dropout == before.dropout,
                forall|j: int| i <= j < n ==> (#[trigger] self.blocks@[j])@ == before.blocks[j],
                forall|j: int|
                    0 <= j < i ==> (#[trigger] self.blocks@[j])@ == before.blocks[j].marked(on),
        {
            assert(self.blocks@[i as int]@ == before.blocks[i as int]);
            self.blocks[i].set_requires_grad(on);
            assert(kept =~= block::records(self.blocks@));
        }
        proof {
            assert(self@.blocks =~= before.marked(on).blocks);
            lemma_model_changes(before, on);
        }
    }
}

proof fn lemma_model_changes(m: ModelView, on: bool)
    ensures
        m.cleared().params() == params::cleared(m.params()),
        m.marked(on).params() == params::marked(m.params(), on),
{
    let head = seq![m.table];
    let mid = model::stack_params(m.blocks, m.blocks.len());
    lemma_stack_changes(m.blocks, on, m.blocks.len());
    params::changes_of_concat(head, mid, on);
    params::changes_of_concat(head + mid, m.ln_f.params(), on);
    assert(params::cleared(head) =~= seq![m.table.cleared()]);
    assert(params::marked(head, on) =~= seq![m.table.marked(on)]);
    assert(params::cleared(m.ln_f.params()) =~= m.ln_f.cleared().params());
    assert(params::marked(m.ln_f.params(), on) =~= m.ln_f.marked(on).params());
}

} // verus!
