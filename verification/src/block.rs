//! One block of the model: attention and a feed-forward layer, each behind a normalisation.

use crate::attention;
use crate::attention::{AttnView, MultiHeadAttention};
use crate::config;
use crate::config::{GPTConfig, LoRAConfig};
use crate::layers::{Linear, LinearView};
use crate::mlp;
use crate::mlp::{MLPEnum, MlpView};
use crate::moe_layer;
use crate::moe_layer::{MoELayer, MoeView};
use crate::norms;
use crate::norms::{NormLayer, NormView};
use crate::params;
use crate::params::{Module, Param, ParamView};
use crate::sparse::RouteStats;
use crate::text;
use vstd::prelude::*;

verus! {

/// The bit pattern of `1e-5`.
pub const LN_EPS: u32 = 0x3727_c5ac;

/// A feed-forward layer: dense, or made of experts.
#[derive(Debug)]
pub enum Ffn {
    Dense(MLPEnum),
    Moe(MoELayer),
}

/// What a feed-forward layer holds.
#[verifier::ext_equal]
pub enum FfnView {
    Dense(MlpView),
    Moe(MoeView),
}

impl View for Ffn {
    type V = FfnView;

    open spec fn view(&self) -> FfnView {
        match self {
            Ffn::Dense(m) => FfnView::Dense(m@),
            Ffn::Moe(m) => FfnView::Moe(m@),
        }
    }
}

impl FfnView {
    pub open spec fn wf(self, d: usize) -> bool {
        match self {
            FfnView::Dense(m) => m.wf(d),
            FfnView::Moe(m) => m.wf(d),
        }
    }

    pub open spec fn params(self) -> Seq<ParamView> {
        match self {
            FfnView::Dense(m) => m.params(),
            FfnView::Moe(m) => m.params(),
        }
    }

    pub open spec fn named(self, prefix: Seq<char>) -> Seq<(Seq<char>, ParamView)> {
        match self {
            FfnView::Dense(m) => m.named(prefix + ".mlp"@),
            FfnView::Moe(m) => m.named(prefix + ".moe"@),
        }
    }

    /// The layers that can be quantised: none of a layer of experts.
    pub open spec fn linears(self, prefix: Seq<char>) -> Seq<(Seq<char>, LinearView)> {
        match self {
            FfnView::Dense(m) => m.linears(prefix + ".mlp"@),
            FfnView::Moe(m) => Seq::empty(),
        }
    }

    pub open spec fn adapter_params(self) -> Seq<ParamView> {
        match self {
            FfnView::Dense(m) => m.adapter_params(),
            FfnView::Moe(m) => Seq::empty(),
        }
    }

    pub open spec fn has_lora(self) -> bool {
        match self {
            FfnView::Dense(m) => m.has_lora(),
            FfnView::Moe(m) => false,
        }
    }

    pub open spec fn has_quant(self) -> bool {
        match self {
            FfnView::Dense(m) => m.has_quant(),
            FfnView::Moe(m) => false,
        }
    }

    pub open spec fn merged(self) -> FfnView {
        match self {
            FfnView::Dense(m) => FfnView::Dense(m.merged()),
            FfnView::Moe(m) => self,
        }
    }

    pub open spec fn dequantized(self) -> FfnView {
        match self {
            FfnView::Dense(m) => FfnView::Dense(m.dequantized()),
            FfnView::Moe(m) => self,
        }
    }

    pub open spec fn cleared(self) -> FfnView {
        match self {
            FfnView::Dense(m) => FfnView::Dense(m.cleared()),
            FfnView::Moe(m) => FfnView::Moe(m.cleared()),
        }
    }

    pub open spec fn marked(self, on: bool) -> FfnView {
        match self {
            FfnView::Dense(m) => FfnView::Dense(m.marked(on)),
            FfnView::Moe(m) => FfnView::Moe(m.marked(on)),
        }
    }

    pub open spec fn tuned(self) -> FfnView {
        match self {
            FfnView::Dense(m) => FfnView::Dense(m.tuned()),
            FfnView::Moe(m) => FfnView::Moe(m.marked(false)),
        }
    }

    /// With fresh adapters, which only a dense layer takes.
    pub open spec fn adapted(self, lora: LoRAConfig, tape: Seq<u32>, pos: int) -> FfnView {
        match self {
            FfnView::Dense(m) => FfnView::Dense(m.adapted(lora, tape, pos)),
            FfnView::Moe(m) => self,
        }
    }

    pub open spec fn after_adapting(self, lora: LoRAConfig, pos: int) -> int {
        match self {
            FfnView::Dense(m) => m.after_adapting(lora, pos),
            FfnView::Moe(m) => pos,
        }
    }

    pub open spec fn adaptable(self, lora: LoRAConfig) -> bool {
        match self {
            FfnView::Dense(m) => m.adaptable(lora),
            FfnView::Moe(m) => true,
        }
    }
}

impl Ffn {
    pub fn named_parameters(&self, prefix: &str) -> (ps: Vec<(String, &Param)>)
        ensures
            params::listing(ps@) == self@.named(prefix@),
    {
        match self {
            Ffn::Dense(m) => m.named_parameters(text::joined(prefix, ".mlp").as_str()),
            Ffn::Moe(m) => m.named_parameters(text::joined(prefix, ".moe").as_str()),
        }
    }

    pub fn named_linears(&self, prefix: &str) -> (ls: Vec<(String, &Linear)>)
        ensures
            mlp::layer_listing(ls@) == self@.linears(prefix@),
    {
        match self {
            Ffn::Dense(m) => m.named_linears(text::joined(prefix, ".mlp").as_str()),
            Ffn::Moe(_) => {
                let ls: Vec<(String, &Linear)> = Vec::new();
                assert(mlp::layer_listing(ls@) =~= Seq::empty());
                ls
            },
        }
    }

    pub fn has_lora(&self) -> (r: bool)
        ensures
            r == self@.has_lora(),
    {
        match self {
            Ffn::Dense(m) => m.has_lora(),
            Ffn::Moe(_) => false,
        }
    }

    pub fn has_quant(&self) -> (r: bool)
        ensures
            r == self@.has_quant(),
    {
        match self {
            Ffn::Dense(m) => m.has_quant(),
            Ffn::Moe(_) => false,
        }
    }

    pub fn apply_lora(&mut self, lora: &LoRAConfig, tape: &[u32], pos: usize) -> (next: usize)
        requires
            old(self)@.adaptable(*lora),
            lora.rank >= 1,
            old(self)@.after_adapting(*lora, pos as int) <= tape@.len(),
            tape@.len() <= usize::MAX,
        ensures
            final(self)@ == old(self)@.adapted(*lora, tape@, pos as int),
            final(self).usage() == old(self).usage(),
            next == old(self)@.after_adapting(*lora, pos as int),
            forall|d: usize| old(self)@.wf(d) ==> #[trigger] final(self)@.wf(d),
    {
        match self {
            Ffn::Dense(m) => m.apply_lora(lora, tape, pos),
            Ffn::Moe(_) => pos,
        }
    }

    pub fn train_adapters(&mut self)
        ensures
            final(self)@ == old(self)@.tuned(),
            final(self).usage() == old(self).usage(),
    {
        match self {
            Ffn::Dense(m) => m.train_adapters(),
            Ffn::Moe(m) => m.set_requires_grad(false),
        }
    }

    pub fn merge_lora(&mut self, d: usize)
        requires
            old(self)@.wf(d),
        ensures
            final(self)@ == old(self)@.merged(),
            final(self).usage() == old(self).usage(),
            final(self)@.wf(d),
    {
        match self {
            Ffn::Dense(m) => m.merge_lora(d),
            Ffn::Moe(_) => {},
        }
    }

    pub fn dequantize_weights(&mut self, d: usize)
        requires
            old(self)@.wf(d),
        ensures
            final(self)@ == old(self)@.dequantized(),
            final(self).usage() == old(self).usage(),
            final(self)@.wf(d),
    {
        match self {
            Ffn::Dense(m) => m.dequantize_weights(d),
            Ffn::Moe(_) => {},
        }
    }

    /// Weights and biases around the activation of a dense ungated layer.
    pub fn gelu_weights(&self) -> (r: Option<(&Param, &Param, &Param, &Param)>)
        ensures
            match self@ {
                FfnView::Dense(MlpView::Plain { first, second }) => r matches Some(w) && w.0@
                    == first.weight && w.1@ == first.bias && w.2@ == second.weight && w.3@
                    == second.bias,
                _ => r is None,
            },
    {
        match self {
            Ffn::Dense(m) => m.gelu_weights(),
            Ffn::Moe(_) => None,
        }
    }
}

impl Module for Ffn {
    open spec fn param_views(&self) -> Seq<ParamView> {
        self@.params()
    }

    fn parameters(&self) -> (ps: Vec<&Param>) {
        let ps: Vec<&Param> = match self {
            Ffn::Dense(m) => m.parameters(),
            Ffn::Moe(m) => m.parameters(),
        };
        assert(params::views(ps@) =~= self.param_views());
        ps
    }

    fn zero_grad(&mut self)
        ensures
            final(self)@ == old(self)@.cleared(),
            final(self).usage() == old(self).usage(),
    {
        match self {
            Ffn::Dense(m) => m.zero_grad(),
            Ffn::Moe(m) => m.zero_grad(),
        }
    }

    fn set_requires_grad(&mut self, on: bool)
        ensures
            final(self)@ == old(self)@.marked(on),
            final(self).usage() == old(self).usage(),
    {
        match self {
            Ffn::Dense(m) => m.set_requires_grad(on),
            Ffn::Moe(m) => m.set_requires_grad(on),
        }
    }
}

/// One block.
#[derive(Debug)]
pub struct TransformerBlock {
    pub ln1: NormLayer,
    pub attn: MultiHeadAttention,
    pub ln2: NormLayer,
    pub ffn: Ffn,
    pub dropout: u32,
    /// The loss that the experts of the last forward pass add.
    pub aux: Option<u32>,
}

/// What the parameters of a block hold, and its dropout rate.
#[verifier::ext_equal]
pub struct BlockView {
    pub ln1: NormView,
    pub attn: AttnView,
    pub ln2: NormView,
    pub ffn: FfnView,
    pub dropout: u32,
}

/// What a block keeps of its last forward pass.
pub struct PassRecord {
    /// The loss that its experts add.
    pub aux: Option<u32>,
    /// How its experts were used.
    pub used: Option<RouteStats>,
}

impl PassRecord {
    /// Whether there was no pass yet.
    pub open spec fn is_fresh(self) -> bool {
        &&& self.aux is None
        &&& self.used matches Some(s) ==> s.counts@.len() == 0 && s.dropped == 0 && s.n_tokens == 0
            && s.aux == 0
    }
}

impl Ffn {
    /// How the experts were used in the last forward pass.
    pub open spec fn usage(&self) -> Option<RouteStats> {
        match self {
            Ffn::Dense(_) => None,
            Ffn::Moe(m) => Some(m.stats),
        }
    }
}

impl TransformerBlock {
    /// What the block keeps of its last forward pass.
    pub open spec fn record(&self) -> PassRecord {
        PassRecord { aux: self.aux, used: self.ffn.usage() }
    }
}

/// What the blocks keep of their last forward pass.
pub open spec fn records(bs: Seq<TransformerBlock>) -> Seq<PassRecord> {
    Seq::new(bs.len(), |i: int| bs[i].record())
}

impl View for TransformerBlock {
    type V = BlockView;

    open spec fn view(&self) -> BlockView {
        BlockView {
            ln1: self.ln1@,
            attn: self.attn@,
            ln2: self.ln2@,
            ffn: self.ffn@,
            dropout: self.dropout,
        }
    }
}

impl BlockView {
    pub open spec fn wf(self, d: usize) -> bool {
        &&& self.ln1.wf(d)
        &&& self.attn.wf(d)
        &&& self.ln2.wf(d)
        &&& self.ffn.wf(d)
    }

    pub open spec fn params(self) -> Seq<ParamView> {
        self.ln1.params() + self.attn.params() + self.ln2.params() + self.ffn.params()
    }

    pub open spec fn named(self, prefix: Seq<char>) -> Seq<(Seq<char>, ParamView)> {
        self.ln1.named(prefix + ".ln1"@) + self.attn.named(prefix + ".attn"@) + self.ln2.named(
            prefix + ".ln2"@,
        ) + self.ffn.named(prefix)
    }

    /// The layers that can be quantised.
    pub open spec fn linears(self, prefix: Seq<char>) -> Seq<(Seq<char>, LinearView)> {
        self.attn.linears(prefix + ".attn"@) + self.ffn.linears(prefix)
    }

    pub open spec fn adapter_params(self) -> Seq<ParamView> {
        self.attn.adapter_params() + self.ffn.adapter_params()
    }

    pub open spec fn has_lora(self) -> bool {
        self.attn.has_lora() || self.ffn.has_lora()
    }

    pub open spec fn has_quant(self) -> bool {
        self.attn.has_quant() || self.ffn.has_quant()
    }

    pub open spec fn merged(self) -> BlockView {
        BlockView { attn: self.attn.merged(), ffn: self.ffn.merged(), ..self }
    }

    pub open spec fn dequantized(self) -> BlockView {
        BlockView { attn: self.attn.dequantized(), ffn: self.ffn.dequantized(), ..self }
    }

    pub open spec fn cleared(self) -> BlockView {
        BlockView {
            ln1: self.ln1.cleared(),
            attn: self.attn.cleared(),
            ln2: self.ln2.cleared(),
            ffn: self.ffn.cleared(),
            ..self
        }
    }

    pub open spec fn marked(self, on: bool) -> BlockView {
        BlockView {
            ln1: self.ln1.marked(on),
            attn: self.attn.marked(on),
            ln2: self.ln2.marked(on),
            ffn: self.ffn.marked(on),
            ..self
        }
    }

    /// The block with its adapters as the only trainable part.
    pub open spec fn tuned(self) -> BlockView {
        BlockView {
            ln1: self.ln1.marked(false),
            attn: self.attn.tuned(),
            ln2: self.ln2.marked(false),
            ffn: self.ffn.tuned(),
            ..self
        }
    }

    /// The target layers with fresh adapters.
    pub open spec fn adapted(self, lora: LoRAConfig, tape: Seq<u32>, pos: int) -> BlockView {
        BlockView {
            attn: self.attn.adapted(lora, tape, pos),
            ffn: if lora.targets.mlp {
                self.ffn.adapted(lora, tape, self.attn.after_adapting(lora, pos))
            } else {
                self.ffn
            },
            ..self
        }
    }

    /// Where the tape stands after the target layers took their draws.
    pub open spec fn after_adapting(self, lora: LoRAConfig, pos: int) -> int {
        let p = self.attn.after_adapting(lora, pos);
        if lora.targets.mlp {
            self.ffn.after_adapting(lora, p)
        } else {
            p
        }
    }

    pub open spec fn adaptable(self, lora: LoRAConfig) -> bool {
        self.attn.adaptable(lora) && self.ffn.adaptable(lora)
    }
}

/// A fresh block from the draws at `pos`: the feed-forward layer first, then attention.
pub open spec fn drawn_block(c: GPTConfig, tape: Seq<u32>, pos: int) -> BlockView {
    BlockView {
        ln1: norms::fresh_norm(c.n_embd, LN_EPS, c.use_rmsnorm),
        attn: attention::drawn_attention(
            c.n_embd,
            c.n_head,
            c.kv_heads(),
            c.frequencies(),
            tape,
            pos + ffn_draws(c),
        ),
        ln2: norms::fresh_norm(c.n_embd, LN_EPS, c.use_rmsnorm),
        ffn: if c.n_expert > 1 {
            FfnView::Moe(moe_layer::drawn_moe(c, tape, pos))
        } else {
            FfnView::Dense(mlp::drawn_mlp(c.n_embd, c.use_swiglu, tape, pos))
        },
        dropout: c.dropout,
    }
}

/// The draws that a fresh feed-forward layer takes.
pub open spec fn ffn_draws(c: GPTConfig) -> int {
    if c.n_expert > 1 {
        moe_layer::moe_draws(c)
    } else {
        mlp::mlp_draws(c.n_embd, c.use_swiglu)
    }
}

/// The draws that a fresh block takes.
pub open spec fn block_draws(c: GPTConfig) -> int {
    ffn_draws(c) + attention::attention_draws(c.n_embd, c.n_head, c.kv_heads())
}

/// Whether a block can be made from a configuration.
pub open spec fn buildable(c: GPTConfig) -> bool {
    &&& c.kv_heads() > 0
    &&& c.n_head > 0
    &&& c.n_head % c.kv_heads() == 0
    &&& c.n_embd % c.n_head == 0
    &&& 8 * c.n_embd + 2 <= usize::MAX
    &&& c.n_embd + c.n_expert <= usize::MAX
    &&& c.n_expert > 1 ==> config::moe_fault(c) is None
}

/// The draws of a fresh block are not negative.
pub proof fn draws_are_counted(c: GPTConfig)
    ensures
        ffn_draws(c) >= 0,
        attention::attention_draws(c.n_embd, c.n_head, c.kv_heads()) >= 0 || c.n_head == 0,
{
    mlp::draws_are_counted(c.n_embd, c.use_swiglu);
    let each = mlp::mlp_draws(c.n_embd, c.use_swiglu);
    let (e, d) = (c.n_expert as int, c.n_embd as int);
    assert(0 <= e * each && 0 <= d * e) by (nonlinear_arith)
        requires
            each >= 0,
            e >= 0,
            d >= 0,
    ;
    if c.n_head > 0 {
        let h = c.n_embd / c.n_head;
        let k = c.kv_heads();
        let w = h * k;
        assert(0 <= w) by (nonlinear_arith)
            requires
                w == h * k,
                h >= 0,
                k >= 0,
        ;
        assert(0 <= d * d && 0 <= d * w) by (nonlinear_arith)
            requires
                d >= 0,
                w >= 0,
        ;
    }
}

impl TransformerBlock {
    /// A fresh block.
    pub fn new(cfg: &GPTConfig, tape: &[u32], pos: usize) -> (b: Self)
        requires
            buildable(*cfg),
            pos + block_draws(*cfg) <= tape@.len(),
            tape@.len() <= usize::MAX,
        ensures
            b@ == drawn_block(*cfg, tape@, pos as int),
            b@.wf(cfg.n_embd),
            b.record().is_fresh(),
    {
        proof {
            draws_are_counted(*cfg);
            mlp::draws_are_counted(cfg.n_embd, cfg.use_swiglu);
        }
        let taken: usize = count_ffn_draws(cfg);
        let ffn: Ffn = if cfg.n_expert > 1 {
            Ffn::Moe(MoELayer::new(cfg, tape, pos))
        } else if cfg.use_swiglu {
            Ffn::Dense(MLPEnum::new_swiglu(cfg.n_embd, tape, pos))
        } else {
            Ffn::Dense(MLPEnum::new_gelu(cfg.n_embd, tape, pos))
        };
        let kv: usize = if cfg.n_kv_head == 0 {
            cfg.n_head
        } else {
            cfg.n_kv_head
        };
        let attn: MultiHeadAttention = MultiHeadAttention::new(
            cfg.n_embd,
            cfg.n_head,
            kv,
            cfg.rope_spec(),
            tape,
            pos + taken,
        );
        TransformerBlock {
            ln1: NormLayer::new(cfg.n_embd, LN_EPS, cfg.use_rmsnorm),
            attn,
            ln2: NormLayer::new(cfg.n_embd, LN_EPS, cfg.use_rmsnorm),
            ffn,
            dropout: cfg.dropout,
            aux: None,
        }
    }

    /// The routing statistics of a layer of experts.
    pub fn route_stats(&self) -> (r: Option<&RouteStats>)
        ensures
            match self.record().used {
                Some(s) => r matches Some(u) && *u == s,
                None => r is None,
            },
    {
        match &self.ffn {
            Ffn::Moe(m) => Some(&m.stats),
            Ffn::Dense(_) => None,
        }
    }

    /// The parameters with their names.
    pub fn named_parameters(&self, prefix: &str) -> (ps: Vec<(String, &Param)>)
        ensures
            params::listing(ps@) == self@.named(prefix@),
    {
        let mut ps: Vec<(String, &Param)> = self.ln1.named_parameters(
            text::joined(prefix, ".ln1").as_str(),
        );
        params::extend_named(
            &mut ps,
            self.attn.named_parameters(text::joined(prefix, ".attn").as_str()),
        );
        params::extend_named(
            &mut ps,
            self.ln2.named_parameters(text::joined(prefix, ".ln2").as_str()),
        );
        params::extend_named(&mut ps, self.ffn.named_parameters(prefix));
        ps
    }

    /// The layers that can be quantised, under their names.
    pub fn named_linears(&self, prefix: &str) -> (ls: Vec<(String, &Linear)>)
        ensures
            mlp::layer_listing(ls@) == self@.linears(prefix@),
    {
        let mut ls: Vec<(String, &Linear)> = self.attn.named_linears(
            text::joined(prefix, ".attn").as_str(),
        );
        mlp::extend_layers(&mut ls, self.ffn.named_linears(prefix));
        ls
    }

    /// Whether any layer has an adapter.
    pub fn has_lora(&self) -> (r: bool)
        ensures
            r == self@.has_lora(),
    {
        self.attn.has_lora() || self.ffn.has_lora()
    }

    /// Whether any layer is quantised.
    pub fn has_quant(&self) -> (r: bool)
        ensures
            r == self@.has_quant(),
    {
        self.attn.has_quant() || self.ffn.has_quant()
    }

    /// Gives the target layers fresh adapters; returns where the tape stands.
    pub fn apply_lora(&mut self, lora: &LoRAConfig, tape: &[u32], pos: usize) -> (next: usize)
        requires
            old(self)@.adaptable(*lora),
            lora.rank >= 1,
            old(self)@.after_adapting(*lora, pos as int) <= tape@.len(),
            tape@.len() <= usize::MAX,
        ensures
            final(self)@ == old(self)@.adapted(*lora, tape@, pos as int),
            next == old(self)@.after_adapting(*lora, pos as int),
            next >= pos,
            forall|d: usize| old(self)@.wf(d) ==> #[trigger] final(self)@.wf(d),
            final(self).record() == old(self).record(),
    {
        proof {
            tape_moves_on(self@, *lora, pos as int);
        }
        let p: usize = self.attn.apply_lora(lora, tape, pos);
        if lora.targets.mlp {
            self.ffn.apply_lora(lora, tape, p)
        } else {
            p
        }
    }

    /// Freezes the block but for its adapters.
    pub fn train_adapters(&mut self)
        ensures
            final(self)@ == old(self)@.tuned(),
            final(self).record() == old(self).record(),
    {
        self.ln1.set_requires_grad(false);
        self.attn.train_adapters();
        self.ln2.set_requires_grad(false);
        self.ffn.train_adapters();
    }

    /// Adds all adapters to their weights.
    pub fn merge_lora(&mut self, d: usize)
        requires
            old(self)@.wf(d),
        ensures
            final(self)@ == old(self)@.merged(),
            final(self)@.wf(d),
            final(self).record() == old(self).record(),
    {
        self.attn.merge_lora(d);
        self.ffn.merge_lora(d);
    }

    /// Writes all quantised weights out as plain numbers.
    pub fn dequantize_weights(&mut self, d: usize)
        requires
            old(self)@.wf(d),
        ensures
            final(self)@ == old(self)@.dequantized(),
            final(self)@.wf(d),
            final(self).record() == old(self).record(),
    {
        self.attn.dequantize_weights(d);
        self.ffn.dequantize_weights(d);
    }
}

/// The draws that a fresh feed-forward layer takes.
fn count_ffn_draws(c: &GPTConfig) -> (n: usize)
    requires
        8 * c.n_embd + 2 <= usize::MAX,
        ffn_draws(*c) <= usize::MAX,
    ensures
        n == ffn_draws(*c),
{
    proof {
        mlp::draws_are_counted(c.n_embd, c.use_swiglu);
    }
    if c.n_expert > 1 {
        proof {
            let each = mlp::mlp_draws(c.n_embd, c.use_swiglu);
            let (e, d) = (c.n_expert as int, c.n_embd as int);
            assert(each <= e * each && 0 <= d * e) by (nonlinear_arith)
                requires
                    each >= 0,
                    e >= 1,
                    d >= 0,
            ;
        }
        let each: usize = mlp::count_draws(c.n_embd, c.use_swiglu);
        c.n_expert * each + c.n_embd * c.n_expert
    } else {
        mlp::count_draws(c.n_embd, c.use_swiglu)
    }
}

/// The draws that a fresh block takes.
pub fn count_draws(c: &GPTConfig) -> (n: usize)
    requires
        buildable(*c),
        block_draws(*c) <= usize::MAX,
    ensures
        n == block_draws(*c),
{
    proof {
        draws_are_counted(*c);
    }
    let first: usize = count_ffn_draws(c);
    let kv: usize = if c.n_kv_head == 0 {
        c.n_head
    } else {
        c.n_kv_head
    };
    let d: usize = c.n_embd;
    let hd: usize = d / c.n_head;
    let heads: usize = c.n_head;
    proof {
        vstd::arithmetic::div_mod::lemma_fundamental_div_mod(d as int, heads as int);
        vstd::arithmetic::div_mod::lemma_fundamental_div_mod(heads as int, kv as int);
        assert(kv <= heads) by (nonlinear_arith)
            requires
                heads as int == kv as int * (heads as int / kv as int),
                heads > 0,
                kv > 0,
        ;
        assert(0 <= hd * kv <= d) by (nonlinear_arith)
            requires
                d as int == heads as int * (d as int / heads as int),
                hd == d as int / heads as int,
                0 < kv <= heads,
                hd >= 0,
        ;
    }
    let w: usize = hd * kv;
    proof {
        assert(0 <= d * d && 0 <= d * w) by (nonlinear_arith)
            requires
                d >= 0,
                w >= 0,
        ;
    }
    first + (d * d + d * w + d * w + d * d)
}

/// Taking draws never moves the tape back.
pub proof fn tape_moves_on(b: BlockView, lora: LoRAConfig, pos: int)
    ensures
        b.attn.after_adapting(lora, pos) >= pos,
        b.after_adapting(lora, pos) >= b.attn.after_adapting(lora, pos),
{
    let t = lora.targets;
    let p1 = mlp::after_adapting(b.attn.q, t.q, lora, pos);
    let p2 = mlp::after_adapting(b.attn.k, t.k, lora, p1);
    let p3 = mlp::after_adapting(b.attn.v, t.v, lora, p2);
    let p4 = mlp::after_adapting(b.attn.proj, t.o, lora, p3);
    mlp::tape_moves_on(b.attn.q, t.q, lora, pos);
    mlp::tape_moves_on(b.attn.k, t.k, lora, p1);
    mlp::tape_moves_on(b.attn.v, t.v, lora, p2);
    mlp::tape_moves_on(b.attn.proj, t.o, lora, p3);
    match b.ffn {
        FfnView::Dense(MlpView::Plain { first, second }) => {
            let p5 = mlp::after_adapting(first, true, lora, p4);
            mlp::tape_moves_on(first, true, lora, p4);
            mlp::tape_moves_on(second, true, lora, p5);
        },
        FfnView::Dense(MlpView::Gated { gate, up, down }) => {
            let p5 = mlp::after_adapting(gate, true, lora, p4);
            let p6 = mlp::after_adapting(up, true, lora, p5);
            mlp::tape_moves_on(gate, true, lora, p4);
            mlp::tape_moves_on(up, true, lora, p5);
            mlp::tape_moves_on(down, true, lora, p6);
        },
        FfnView::Moe(_) => {},
    }
}

impl Module for TransformerBlock {
    open spec fn param_views(&self) -> Seq<ParamView> {
        self@.params()
    }

    fn parameters(&self) -> (ps: Vec<&Param>) {
        let mut ps: Vec<&Param> = self.ln1.parameters();
        params::extend_params(&mut ps, self.attn.parameters());
        params::extend_params(&mut ps, self.ln2.parameters());
        params::extend_params(&mut ps, self.ffn.parameters());
        assert(params::views(ps@) =~= self.param_views());
        ps
    }

    fn zero_grad(&mut self)
        ensures
            final(self)@ == old(self)@.cleared(),
            final(self).record() == old(self).record(),
    {
        proof {
            let (a, b) = (self.ln1@.params(), self.attn@.params());
            let (c, e) = (self.ln2@.params(), self.ffn@.params());
            params::changes_of_concat(a, b, true);
            params::changes_of_concat(a + b, c, true);
            params::changes_of_concat(a + b + c, e, true);
        }
        self.ln1.zero_grad();
        self.attn.zero_grad();
        self.ln2.zero_grad();
        self.ffn.zero_grad();
        assert(self.param_views() =~= params::cleared(old(self).param_views()));
    }

    fn set_requires_grad(&mut self, on: bool)
        ensures
            final(self)@ == old(self)@.marked(on),
            final(self).record() == old(self).record(),
    {
        proof {
            let (a, b) = (self.ln1@.params(), self.attn@.params());
            let (c, e) = (self.ln2@.params(), self.ffn@.params());
            params::changes_of_concat(a, b, on);
            params::changes_of_concat(a + b, c, on);
            params::changes_of_concat(a + b + c, e, on);
        }
        self.ln1.set_requires_grad(on);
        self.attn.set_requires_grad(on);
        self.ln2.set_requires_grad(on);
        self.ffn.set_requires_grad(on);
        assert(self.param_views() =~= params::marked(old(self).param_views(), on));
    }
}

/// Clearing and marking a block changes its parameters one by one.
pub proof fn changes_of_block(b: BlockView, on: bool)
    ensures
        b.cleared().params() == params::cleared(b.params()),
        b.marked(on).params() == params::marked(b.params(), on),
{
    let (l1, at, l2, f) = (b.ln1.params(), b.attn.params(), b.ln2.params(), b.ffn.params());
    params::changes_of_concat(l1, at, on);
    params::changes_of_concat(l1 + at, l2, on);
    params::changes_of_concat(l1 + at + l2, f, on);
    assert(params::cleared(l1) =~= b.ln1.cleared().params());
    assert(params::marked(l1, on) =~= b.ln1.marked(on).params());
    assert(params::cleared(l2) =~= b.ln2.cleared().params());
    assert(params::marked(l2, on) =~= b.ln2.marked(on).params());
    let a = b.attn;
    let (q, k, v, o) = (a.q.params(), a.k.params(), a.v.params(), a.proj.params());
    mlp::changes_of_layer(a.q, on);
    mlp::changes_of_layer(a.k, on);
    mlp::changes_of_layer(a.v, on);
    mlp::changes_of_layer(a.proj, on);
    params::changes_of_concat(q, k, on);
    params::changes_of_concat(q + k, v, on);
    params::changes_of_concat(q + k + v, o, on);
    match b.ffn {
        FfnView::Dense(m) => mlp::changes_of_block(m, on),
        FfnView::Moe(m) => moe_layer::changes_of_moe(m, on),
    }
}

impl TransformerBlock {
    /// The parameters of all adapters.
    pub fn adapter_parameters(&self) -> (ps: Vec<&Param>)
        ensures
            params::views(ps@) == self@.adapter_params(),
    {
        let mut ps: Vec<&Param> = mlp::adapter_of(&self.attn.c_q);
        params::extend_params(&mut ps, mlp::adapter_of(&self.attn.c_k));
        params::extend_params(&mut ps, mlp::adapter_of(&self.attn.c_v));
        params::extend_params(&mut ps, mlp::adapter_of(&self.attn.c_proj));
        match &self.ffn {
            Ffn::Dense(m) => {
                params::extend_params(&mut ps, m.adapter_parameters());
            },
            Ffn::Moe(_) => {},
        }
        assert(params::views(ps@) =~= self@.adapter_params());
        ps
    }
}

} // verus!
