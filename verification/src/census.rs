//! Counting parameters: what models hold, and what experts add.

use crate::attention::AttnView;
use crate::block;
use crate::block::{BlockView, FfnView};
use crate::config::GPTConfig;
use crate::layers;
use crate::layers::LinearView;
use crate::mlp;
use crate::mlp::MlpView;
use crate::model;
use crate::model::ModelView;
use crate::moe_layer;
use crate::moe_layer::MoeView;
use crate::norms::NormView;
use crate::params;
use crate::params::{Param, ParamView};
use crate::sparse;
use vstd::prelude::*;

verus! {

/// The numbers in the first `n` parameters.
pub open spec fn numbers(ps: Seq<ParamView>, n: nat) -> int
    decreases n,
{
    if n == 0 {
        0
    } else {
        numbers(ps, (n - 1) as nat) + ps[n - 1].data.len()
    }
}

/// The numbers in a router: a weight and a bias per expert.
pub open spec fn router_size(d: int, n_expert: int) -> int {
    d * n_expert + n_expert
}

/// The numbers in all parameters of a list.
pub open spec fn size_of(ps: Seq<ParamView>) -> int {
    numbers(ps, ps.len())
}

/// Counts the numbers in a list of parameters.
pub fn param_count(ps: &Vec<&Param>) -> (r: u128)
    ensures
        r == size_of(params::views(ps@)),
{
    let mut total: u128 = 0;
    let ghost vs = params::views(ps@);
    assert(0 * usize::MAX == 0);
    for i in 0..ps.len()
        invariant
            vs == params::views(ps@),
            vs.len() == ps@.len(),
            total == numbers(vs, i as nat),
            total <= i * usize::MAX,
    {
        proof {
            assert((i + 1) * usize::MAX == i * usize::MAX + usize::MAX) by (nonlinear_arith);
            assert((i + 1) * usize::MAX <= u128::MAX) by (nonlinear_arith)
                requires
                    i + 1 <= usize::MAX,
                    usize::MAX <= u64::MAX,
            ;
            assert(vs[i as int] == ps@[i as int]@);
        }
        total = total + ps[i].data.len() as u128;
    }
    total
}

proof fn lemma_numbers_are_local(a: Seq<ParamView>, b: Seq<ParamView>, n: nat)
    requires
        n <= a.len(),
    ensures
        numbers(a + b, n) == numbers(a, n),
    decreases n,
{
    if n > 0 {
        lemma_numbers_are_local(a, b, (n - 1) as nat);
    }
}

proof fn lemma_numbers_of_rest(a: Seq<ParamView>, b: Seq<ParamView>, n: nat)
    requires
        n <= b.len(),
    ensures
        numbers(a + b, a.len() + n) == size_of(a) + numbers(b, n),
    decreases n,
{
    if n == 0 {
        lemma_numbers_are_local(a, b, a.len());
    } else {
        lemma_numbers_of_rest(a, b, (n - 1) as nat);
    }
}

/// Two lists together hold what each of them holds.
pub proof fn sizes_of_concat(a: Seq<ParamView>, b: Seq<ParamView>)
    ensures
        size_of(a + b) == size_of(a) + size_of(b),
{
    lemma_numbers_of_rest(a, b, b.len());
}

/// The numbers in a linear layer without adapter and codes: its weight and its bias.
proof fn lemma_linear_size(l: LinearView, i: usize, o: usize)
    requires
        l.wf(),
        l.quant is None,
        l.lora is None,
        l.inputs() == i,
        l.outputs() == o,
    ensures
        size_of(l.params()) == i * o + o,
{
    let ps = l.params();
    assert(ps =~= seq![l.weight, l.bias]);
    reveal_with_fuel(numbers, 3);
}

proof fn lemma_mlp_size(m: MlpView, d: usize, gated: bool, tape: Seq<u32>, pos: int)
    requires
        m == mlp::drawn_mlp(d, gated, tape, pos),
        m.wf(d),
        8 * d + 2 <= usize::MAX,
    ensures
        size_of(m.params()) == sparse::expert_size(d as int, gated),
{
    match m {
        MlpView::Plain { first, second } => {
            let h = (layers::MLP_RATIO * d) as usize;
            lemma_linear_size(first, d, h);
            lemma_linear_size(second, h, d);
            sizes_of_concat(first.params(), second.params());
        },
        MlpView::Gated { gate, up, down } => {
            layers::gated_width_is_tight(d as int);
            let h = layers::gated_width(d as int) as usize;
            lemma_linear_size(gate, d, h);
            lemma_linear_size(up, d, h);
            lemma_linear_size(down, h, d);
            sizes_of_concat(gate.params(), up.params());
            sizes_of_concat(gate.params() + up.params(), down.params());
        },
    }
}

proof fn lemma_experts_size(m: MoeView, c: GPTConfig, tape: Seq<u32>, pos: int, n: nat)
    requires
        m == moe_layer::drawn_moe(c, tape, pos),
        m.wf(c.n_embd),
        8 * c.n_embd + 2 <= usize::MAX,
        n <= m.experts.len(),
    ensures
        size_of(moe_layer::expert_params(m.experts, n)) == n * sparse::expert_size(
            c.n_embd as int,
            c.use_swiglu,
        ),
    decreases n,
{
    let each = sparse::expert_size(c.n_embd as int, c.use_swiglu);
    if n > 0 {
        lemma_experts_size(m, c, tape, pos, (n - 1) as nat);
        let last = m.experts[n - 1];
        let step = mlp::mlp_draws(c.n_embd, c.use_swiglu);
        assert(last == mlp::drawn_mlp(c.n_embd, c.use_swiglu, tape, pos + (n - 1) * step));
        lemma_mlp_size(last, c.n_embd, c.use_swiglu, tape, pos + (n - 1) * step);
        sizes_of_concat(moe_layer::expert_params(m.experts, (n - 1) as nat), last.params());
        assert(n * each == (n - 1) * each + each) by (nonlinear_arith);
    } else {
        assert(0 * each == 0);
    }
}

/// A fresh layer of experts holds what its account says: every expert and the router.
pub proof fn experts_match_their_account(m: MoeView, c: GPTConfig, tape: Seq<u32>, pos: int)
    requires
        m == moe_layer::drawn_moe(c, tape, pos),
        m.wf(c.n_embd),
        8 * c.n_embd + 2 <= usize::MAX,
    ensures
        size_of(m.params()) == c.n_expert * sparse::expert_size(c.n_embd as int, c.use_swiglu)
            + router_size(c.n_embd as int, c.n_expert as int),
{
    lemma_experts_size(m, c, tape, pos, m.experts.len());
    lemma_linear_size(m.router, c.n_embd, c.n_expert);
    sizes_of_concat(
        m.router.params(),
        moe_layer::expert_params(m.experts, m.experts.len()),
    );
}

/// The numbers in a fresh block beside its feed-forward layer.
pub open spec fn shared_size(b: BlockView) -> int {
    size_of(b.ln1.params()) + size_of(b.attn.params()) + size_of(b.ln2.params())
}

proof fn lemma_block_size(b: BlockView)
    ensures
        size_of(b.params()) == shared_size(b) + size_of(b.ffn.params()),
{
    sizes_of_concat(b.ln1.params(), b.attn.params());
    sizes_of_concat(b.ln1.params() + b.attn.params(), b.ln2.params());
    sizes_of_concat(b.ln1.params() + b.attn.params() + b.ln2.params(), b.ffn.params());
}

/// The numbers in the feed-forward layers of a configuration.
pub open spec fn ffn_size(c: GPTConfig) -> int {
    let each = sparse::expert_size(c.n_embd as int, c.use_swiglu);
    if c.n_expert > 1 {
        c.n_expert * each + router_size(c.n_embd as int, c.n_expert as int)
    } else {
        each
    }
}

proof fn lemma_norm_size(n: NormView, d: usize)
    requires
        n.wf(d),
    ensures
        size_of(n.params()) == if n.beta is Some {
            2 * d
        } else {
            d as int
        },
{
    reveal_with_fuel(numbers, 3);
}

proof fn lemma_attention_size(a: AttnView, d: usize, w: usize)
    requires
        a.wf(d),
        a.q.quant is None && a.k.quant is None && a.v.quant is None && a.proj.quant is None,
        a.q.lora is None && a.k.lora is None && a.v.lora is None && a.proj.lora is None,
        a.k.outputs() == w,
        a.v.outputs() == w,
    ensures
        size_of(a.params()) == (d * d + d) + (d * w + w) + (d * w + w) + (d * d + d),
{
    lemma_linear_size(a.q, d, d);
    lemma_linear_size(a.k, d, w);
    lemma_linear_size(a.v, d, w);
    lemma_linear_size(a.proj, d, d);
    sizes_of_concat(a.q.params(), a.k.params());
    sizes_of_concat(a.q.params() + a.k.params(), a.v.params());
    sizes_of_concat(a.q.params() + a.k.params() + a.v.params(), a.proj.params());
}

/// The numbers in a block of a configuration beside its feed-forward layer.
pub open spec fn backbone_size(c: GPTConfig) -> int {
    let d = c.n_embd as int;
    let w = c.n_embd / c.n_head * c.kv_heads();
    let norm = if c.use_rmsnorm {
        d
    } else {
        2 * d
    };
    norm + ((d * d + d) + (d * w + w) + (d * w + w) + (d * d + d)) + norm
}

/// The numbers in a fresh model of a configuration.
pub open spec fn model_size(c: GPTConfig) -> int {
    c.vocab_size * c.n_embd + c.n_layer * (backbone_size(c) + ffn_size(c)) + if c.use_rmsnorm {
        c.n_embd as int
    } else {
        2 * c.n_embd
    }
}

proof fn lemma_drawn_block_size(c: GPTConfig, b: BlockView, tape: Seq<u32>, pos: int)
    requires
        block::buildable(c),
        b == block::drawn_block(c, tape, pos),
        b.wf(c.n_embd),
    ensures
        size_of(b.params()) == backbone_size(c) + ffn_size(c),
{
    let d = c.n_embd;
    lemma_block_size(b);
    lemma_norm_size(b.ln1, d);
    lemma_norm_size(b.ln2, d);
    let w = (c.n_embd / c.n_head * c.kv_heads()) as usize;
    assert(c.n_embd / c.n_head * c.kv_heads() <= c.n_embd) by {
        lemma_kv_width(c.n_embd as int, c.n_head as int, c.kv_heads() as int);
    }
    lemma_attention_size(b.attn, d, w);
    match b.ffn {
        FfnView::Moe(m) => {
            experts_match_their_account(m, c, tape, pos);
        },
        FfnView::Dense(m) => {
            lemma_mlp_size(m, d, c.use_swiglu, tape, pos);
        },
    }
}

proof fn lemma_kv_width(d: int, heads: int, kv: int)
    requires
        d >= 0,
        heads > 0,
        kv > 0,
        heads % kv == 0,
        d % heads == 0,
    ensures
        0 <= d / heads * kv <= d,
{
    vstd::arithmetic::div_mod::lemma_fundamental_div_mod(d, heads);
    vstd::arithmetic::div_mod::lemma_fundamental_div_mod(heads, kv);
    vstd::arithmetic::div_mod::lemma_div_pos_is_pos(d, heads);
    let q = heads / kv;
    assert(kv <= heads) by (nonlinear_arith)
        requires
            heads == kv * q,
            heads > 0,
            kv > 0,
    ;
    let h = d / heads;
    assert(0 <= h * kv <= heads * h) by (nonlinear_arith)
        requires
            0 <= h,
            0 < kv <= heads,
    ;
}

proof fn lemma_stack_size(c: GPTConfig, m: ModelView, tape: Seq<u32>, n: nat)
    requires
        block::buildable(c),
        m == model::drawn_model(c, tape),
        m.wf(),
        n <= m.blocks.len(),
    ensures
        size_of(model::stack_params(m.blocks, n)) == n * (backbone_size(c) + ffn_size(c)),
    decreases n,
{
    let each = backbone_size(c) + ffn_size(c);
    if n > 0 {
        lemma_stack_size(c, m, tape, (n - 1) as nat);
        let step = block::block_draws(c);
        assert(m.blocks[n - 1] == block::drawn_block(c, tape, (n - 1) * step));
        assert(m.blocks[n - 1].wf(c.n_embd));
        lemma_drawn_block_size(c, m.blocks[n - 1], tape, (n - 1) * step);
        sizes_of_concat(
            model::stack_params(m.blocks, (n - 1) as nat),
            m.blocks[n - 1].params(),
        );
        assert(n * each == (n - 1) * each + each) by (nonlinear_arith);
    } else {
        assert(0 * each == 0);
    }
}

/// A fresh model holds as many numbers as its configuration says.
pub proof fn models_match_their_account(c: GPTConfig, m: ModelView, tape: Seq<u32>)
    requires
        block::buildable(c),
        m == model::drawn_model(c, tape),
        m.wf(),
    ensures
        size_of(m.params()) == model_size(c),
{
    lemma_stack_size(c, m, tape, m.blocks.len());
    lemma_norm_size(m.ln_f, c.n_embd);
    let table = seq![m.table];
    let stack = model::stack_params(m.blocks, m.blocks.len());
    sizes_of_concat(table, stack);
    sizes_of_concat(table + stack, m.ln_f.params());
    reveal_with_fuel(numbers, 2);
    assert(size_of(table) == m.table.data.len());
}

/// Experts in place of dense layers add the whole account of a sparse layer, less one dense
/// layer, once per block.
pub proof fn experts_add_their_account(c: GPTConfig, n_expert: usize, top_k: usize)
    requires
        c.n_expert == 1,
        n_expert >= 2,
    ensures
        ({
            let s = GPTConfig { n_expert, moe_top_k: top_k, ..c };
            let each = sparse::expert_size(c.n_embd as int, c.use_swiglu);
            model_size(s) == model_size(c) + c.n_layer * ((n_expert * each + router_size(
                c.n_embd as int,
                n_expert as int,
            )) - each)
        }),
{
    let s = GPTConfig { n_expert, moe_top_k: top_k, ..c };
    let each = sparse::expert_size(c.n_embd as int, c.use_swiglu);
    let a = backbone_size(c);
    let total = n_expert * each + router_size(c.n_embd as int, n_expert as int);
    assert(ffn_size(s) == total);
    assert(backbone_size(s) == a);
    assert(c.n_layer * (a + total) == c.n_layer * (a + each) + c.n_layer * (total - each))
        by (nonlinear_arith);
}

} // verus!
