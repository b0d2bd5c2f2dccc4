//! Adapters on a whole model, and what training changes.

use crate::block;
use crate::block::{BlockView, FfnView};
use crate::config::LoRAConfig;
use crate::layers::LinearView;
use crate::mlp;
use crate::mlp::MlpView;
use crate::model;
use crate::model::{GPT, ModelView};
use crate::model_ops;
use crate::moe_layer;
use crate::moe_layer::MoeView;
use crate::norms::NormView;
use crate::params;
use crate::params::{Module, ParamView};
use vstd::prelude::*;

verus! {

/// Whether every block is small enough for adapters of this rank.
pub open spec fn adaptable(m: ModelView, lora: LoRAConfig) -> bool {
    forall|i: int|
        0 <= i < m.blocks.len() ==> (#[trigger] m.marked(false).blocks[i]).adaptable(lora)
}

/// The draws that fresh adapters take.
pub open spec fn adapter_draws(m: ModelView, lora: LoRAConfig) -> int {
    model::tape_at(m.marked(false).blocks, lora, 0, m.blocks.len())
}

proof fn lemma_tape_rises(bs: Seq<BlockView>, lora: LoRAConfig, i: nat, n: nat)
    requires
        i <= n <= bs.len(),
    ensures
        0 <= model::tape_at(bs, lora, 0, i) <= model::tape_at(bs, lora, 0, n),
    decreases n,
{
    if i < n {
        lemma_tape_rises(bs, lora, i, (n - 1) as nat);
        block::tape_moves_on(bs[n - 1], lora, model::tape_at(bs, lora, 0, (n - 1) as nat));
    } else if n > 0 {
        lemma_tape_rises(bs, lora, (n - 1) as nat, (n - 1) as nat);
        block::tape_moves_on(bs[n - 1], lora, model::tape_at(bs, lora, 0, (n - 1) as nat));
    }
}

impl GPT {
    /// Freezes everything and gives the target layers fresh adapters. Adapters that were there are
    /// replaced.
    #[verifier::rlimit(50)]
    pub fn apply_lora(&mut self, lora: &LoRAConfig, tape: &[u32])
        requires
            old(self)@.wf(),
            lora.rank >= 1,
            adaptable(old(self)@, *lora),
            tape@.len() == adapter_draws(old(self)@, *lora),
            tape@.len() <= usize::MAX,
        ensures
            final(self)@.wf(),
            final(self)@ == old(self)@.adapted(*lora, tape@),
            block::records(final(self).blocks@) == block::records(old(self).blocks@),
    {
        let ghost before = self@;
        let ghost kept = block::records(self.blocks@);
        let ghost frozen = self@.marked(false).blocks;
        let total: usize = tape.len();
        let d: usize = self.cfg.n_embd;
        let n: usize = self.blocks.len();
        self.tok_emb.set_requires_grad(false);
        self.ln_f.set_requires_grad(false);
        let mut at: usize = 0;
        for i in 0..n
            invariant
                n == self.blocks@.len(),
                kept == block::records(self.blocks@),
                n == before.blocks.len(),
                n == frozen.len(),
                d == before.cfg.n_embd,
                before.wf(),
                frozen == before.marked(false).blocks,
                lora.rank >= 1,
                adaptable(before, *lora),
                total == tape@.len(),
                total == model::tape_at(frozen, *lora, 0, n as nat),
                self.cfg == before.cfg,
                self.tok_emb.table@ == before.table.marked(false),
                self.ln_f@ == before.ln_f.marked(false),
                self.lora == before.lora,
                self.quant == before.quant,
                self.dropout == before.dropout,
                at == model::tape_at(frozen, *lora, 0, i as nat),
                forall|j: int| i <= j < n ==> (#[trigger] self.blocks@[j])@ == before.blocks[j],
                forall|j: int|
                    0 <= j < i ==> (#[trigger] self.blocks@[j])@ == frozen[j].adapted(
                        *lora,
                        tape@,
                        model::tape_at(frozen, *lora, 0, j as nat),
                    ),
                forall|j: int| 0 <= j < i ==> (#[trigger] self.blocks@[j])@.wf(d),
        {
            proof {
                assert(self.blocks@[i as int]@ == before.blocks[i as int]);
                assert(before.blocks[i as int].wf(d));
                model_ops::marks_keep_blocks_valid(before.blocks[i as int], d);
                lemma_tape_rises(frozen, *lora, (i + 1) as nat, n as nat);
                assert(before.marked(false).blocks[i as int].adaptable(*lora));
            }
            self.blocks[i].set_requires_grad(false);
            assert(self.blocks@[i as int]@ == frozen[i as int]);
            at = self.blocks[i].apply_lora(lora, tape, at);
            assert(kept =~= block::records(self.blocks@));
        }
        self.lora = Some(*lora);
        proof {
            assert(self@.blocks =~= before.adapted(*lora, tape@).blocks);
            assert forall|j: int| 0 <= j < n implies (#[trigger] self@.blocks[j]).wf(d) by {
                assert(self.blocks@[j]@.wf(d));
            }
        }
    }
}

/// Two parameters with one mark.
proof fn lemma_two(a: ParamView, b: ParamView)
    requires
        a.requires_grad == b.requires_grad,
    ensures
        params::trainable(seq![a, b]) == if a.requires_grad {
            seq![a, b]
        } else {
            Seq::<ParamView>::empty()
        },
{
    let s = seq![a, b];
    if a.requires_grad {
        params::marking_decides_what_trains(s);
        assert(params::marked(s, true) =~= s);
    } else {
        params::marking_decides_what_trains(s);
        assert(params::marked(s, false) =~= s);
    }
}

/// In a tuned layer only the adapter trains.
pub proof fn tuned_layers_train_adapters(l: LinearView)
    ensures
        params::trainable(l.tuned().params()) == l.tuned().adapter_params(),
{
    let t = l.tuned();
    let base = seq![t.weight, t.bias];
    lemma_two(t.weight, t.bias);
    params::trainable_of_concat(base, t.adapter_params());
    match t.lora {
        Some(a) => lemma_two(a.a, a.b),
        None => lemma_nothing_trains(),
    }
    assert(Seq::<ParamView>::empty() + t.adapter_params() =~= t.adapter_params());
}

proof fn lemma_nothing_trains()
    ensures
        params::trainable(Seq::<ParamView>::empty()) == Seq::<ParamView>::empty(),
{
    reveal(Seq::filter);
}

/// In a frozen layer that is given an adapter only the adapter trains.
proof fn lemma_adapted_layer(
    l: LinearView,
    target: bool,
    lora: LoRAConfig,
    tape: Seq<u32>,
    pos: int,
)
    requires
        l.lora is None,
    ensures
        ({
            let t = mlp::adapted(l.marked(false), target, lora, tape, pos);
            params::trainable(t.params()) == t.adapter_params()
        }),
{
    let t = mlp::adapted(l.marked(false), target, lora, tape, pos);
    let base = seq![t.weight, t.bias];
    lemma_two(t.weight, t.bias);
    params::trainable_of_concat(base, t.adapter_params());
    match t.lora {
        Some(a) => lemma_two(a.a, a.b),
        None => lemma_nothing_trains(),
    }
    assert(Seq::<ParamView>::empty() + t.adapter_params() =~= t.adapter_params());
}

/// Nothing of a frozen list trains.
proof fn lemma_frozen(ps: Seq<ParamView>)
    requires
        forall|i: int| 0 <= i < ps.len() ==> !(#[trigger] ps[i]).requires_grad,
    ensures
        params::trainable(ps) == Seq::<ParamView>::empty(),
{
    params::marking_decides_what_trains(ps);
    assert(params::marked(ps, false) =~= ps);
}

/// A block in which attention and the feed-forward layer train their adapters only.
proof fn lemma_block_trains(b: BlockView)
    requires
        params::trainable(b.attn.q.params()) == b.attn.q.adapter_params(),
        params::trainable(b.attn.k.params()) == b.attn.k.adapter_params(),
        params::trainable(b.attn.v.params()) == b.attn.v.adapter_params(),
        params::trainable(b.attn.proj.params()) == b.attn.proj.adapter_params(),
        params::trainable(b.ffn.params()) == b.ffn.adapter_params(),
        params::trainable(b.ln1.params()) == Seq::<ParamView>::empty(),
        params::trainable(b.ln2.params()) == Seq::<ParamView>::empty(),
    ensures
        params::trainable(b.params()) == b.adapter_params(),
{
    let (q, k, v, o) = (
        b.attn.q.params(),
        b.attn.k.params(),
        b.attn.v.params(),
        b.attn.proj.params(),
    );
    params::trainable_of_concat(q, k);
    params::trainable_of_concat(q + k, v);
    params::trainable_of_concat(q + k + v, o);
    let (l1, at, l2, f) = (b.ln1.params(), b.attn.params(), b.ln2.params(), b.ffn.params());
    params::trainable_of_concat(l1, at);
    params::trainable_of_concat(l1 + at, l2);
    params::trainable_of_concat(l1 + at + l2, f);
    let none = Seq::<ParamView>::empty();
    assert(none + b.attn.adapter_params() + none + b.ffn.adapter_params()
        =~= b.adapter_params());
}

proof fn lemma_mlp_trains(m: MlpView)
    requires
        match m {
            MlpView::Plain { first, second } => params::trainable(first.params())
                == first.adapter_params() && params::trainable(second.params())
                == second.adapter_params(),
            MlpView::Gated { gate, up, down } => params::trainable(gate.params())
                == gate.adapter_params() && params::trainable(up.params()) == up.adapter_params()
                && params::trainable(down.params()) == down.adapter_params(),
        },
    ensures
        params::trainable(m.params()) == m.adapter_params(),
{
    match m {
        MlpView::Plain { first, second } => {
            params::trainable_of_concat(first.params(), second.params());
        },
        MlpView::Gated { gate, up, down } => {
            params::trainable_of_concat(gate.params(), up.params());
            params::trainable_of_concat(gate.params() + up.params(), down.params());
        },
    }
}

proof fn lemma_frozen_norm(n: NormView)
    ensures
        params::trainable(n.marked(false).params()) == Seq::<ParamView>::empty(),
{
    lemma_frozen(n.marked(false).params());
}

proof fn lemma_frozen_linear(l: LinearView)
    requires
        l.lora is None,
    ensures
        params::trainable(l.marked(false).params()) == Seq::<ParamView>::empty(),
{
    lemma_frozen(l.marked(false).params());
}

proof fn lemma_frozen_experts(es: Seq<MlpView>, n: nat)
    requires
        n <= es.len(),
        forall|e: int| 0 <= e < es.len() ==> !(#[trigger] es[e]).has_lora(),
    ensures
        params::trainable(
            moe_layer::expert_params(Seq::new(es.len(), |e: int| es[e].marked(false)), n),
        ) == Seq::<ParamView>::empty(),
    decreases n,
{
    let fs = Seq::new(es.len(), |e: int| es[e].marked(false));
    if n > 0 {
        lemma_frozen_experts(es, (n - 1) as nat);
        let m = es[n - 1];
        assert(!m.has_lora());
        assert(params::trainable(m.marked(false).params()) == Seq::<ParamView>::empty()) by {
            mlp::changes_of_block(m, false);
            params::marking_decides_what_trains(m.params());
        }
        params::trainable_of_concat(
            moe_layer::expert_params(fs, (n - 1) as nat),
            fs[n - 1].params(),
        );
        assert(Seq::<ParamView>::empty() + Seq::<ParamView>::empty() =~= Seq::<
            ParamView,
        >::empty());
    } else {
        lemma_nothing_trains();
    }
}

proof fn lemma_frozen_moe(m: MoeView)
    requires
        m.router.lora is None,
        forall|e: int| 0 <= e < m.experts.len() ==> !(#[trigger] m.experts[e]).has_lora(),
    ensures
        params::trainable(m.marked(false).params()) == Seq::<ParamView>::empty(),
{
    lemma_frozen_linear(m.router);
    lemma_frozen_experts(m.experts, m.experts.len());
    params::trainable_of_concat(
        m.marked(false).router.params(),
        moe_layer::expert_params(m.marked(false).experts, m.experts.len()),
    );
    assert(Seq::<ParamView>::empty() + Seq::<ParamView>::empty() =~= Seq::<ParamView>::empty());
}

/// Whether the experts of a layer, if there are any, have no adapters.
spec fn plain_experts(f: FfnView) -> bool {
    match f {
        FfnView::Dense(m) => true,
        FfnView::Moe(m) => m.router.lora is None && forall|e: int|
            0 <= e < m.experts.len() ==> !(#[trigger] m.experts[e]).has_lora(),
    }
}

proof fn lemma_valid_experts_are_plain(b: BlockView, d: usize)
    requires
        b.wf(d),
    ensures
        plain_experts(b.ffn),
{
    match b.ffn {
        FfnView::Dense(m) => {},
        FfnView::Moe(m) => {
            assert(m.wf(d));
        },
    }
}

proof fn lemma_tuned_ffn(f: FfnView)
    requires
        plain_experts(f),
    ensures
        params::trainable(f.tuned().params()) == f.tuned().adapter_params(),
{
    match f {
        FfnView::Dense(m) => {
            match m {
                MlpView::Plain { first, second } => {
                    tuned_layers_train_adapters(first);
                    tuned_layers_train_adapters(second);
                },
                MlpView::Gated { gate, up, down } => {
                    tuned_layers_train_adapters(gate);
                    tuned_layers_train_adapters(up);
                    tuned_layers_train_adapters(down);
                },
            }
            lemma_mlp_trains(m.tuned());
        },
        FfnView::Moe(m) => lemma_frozen_moe(m),
    }
}

proof fn lemma_tuned_block(b: BlockView)
    requires
        plain_experts(b.ffn),
    ensures
        params::trainable(b.tuned().params()) == b.tuned().adapter_params(),
{
    tuned_layers_train_adapters(b.attn.q);
    tuned_layers_train_adapters(b.attn.k);
    tuned_layers_train_adapters(b.attn.v);
    tuned_layers_train_adapters(b.attn.proj);
    lemma_frozen_norm(b.ln1);
    lemma_frozen_norm(b.ln2);
    lemma_tuned_ffn(b.ffn);
    lemma_block_trains(b.tuned());
}

proof fn lemma_adapted_ffn(f: FfnView, lora: LoRAConfig, tape: Seq<u32>, pos: int)
    requires
        plain_experts(f),
        !f.has_lora(),
    ensures
        params::trainable(f.marked(false).adapted(lora, tape, pos).params()) == f.marked(
            false,
        ).adapted(lora, tape, pos).adapter_params(),
        params::trainable(f.marked(false).params()) == f.marked(false).adapter_params(),
{
    match f {
        FfnView::Dense(m) => {
            match m {
                MlpView::Plain { first, second } => {
                    let p = mlp::after_adapting(first.marked(false), true, lora, pos);
                    lemma_adapted_layer(first, true, lora, tape, pos);
                    lemma_adapted_layer(second, true, lora, tape, p);
                    lemma_adapted_layer(first, false, lora, tape, pos);
                    lemma_adapted_layer(second, false, lora, tape, pos);
                },
                MlpView::Gated { gate, up, down } => {
                    let p = mlp::after_adapting(gate.marked(false), true, lora, pos);
                    let q = mlp::after_adapting(up.marked(false), true, lora, p);
                    lemma_adapted_layer(gate, true, lora, tape, pos);
                    lemma_adapted_layer(up, true, lora, tape, p);
                    lemma_adapted_layer(down, true, lora, tape, q);
                    lemma_adapted_layer(gate, false, lora, tape, pos);
                    lemma_adapted_layer(up, false, lora, tape, pos);
                    lemma_adapted_layer(down, false, lora, tape, pos);
                },
            }
            lemma_mlp_trains(m.marked(false).adapted(lora, tape, pos));
            lemma_mlp_trains(m.marked(false));
        },
        FfnView::Moe(m) => lemma_frozen_moe(m),
    }
}

proof fn lemma_adapted_block(b: BlockView, lora: LoRAConfig, tape: Seq<u32>, pos: int)
    requires
        plain_experts(b.ffn),
        !b.has_lora(),
    ensures
        params::trainable(b.marked(false).adapted(lora, tape, pos).params()) == b.marked(
            false,
        ).adapted(lora, tape, pos).adapter_params(),
{
    let f = b.marked(false);
    let t = lora.targets;
    let p1 = mlp::after_adapting(f.attn.q, t.q, lora, pos);
    let p2 = mlp::after_adapting(f.attn.k, t.k, lora, p1);
    let p3 = mlp::after_adapting(f.attn.v, t.v, lora, p2);
    lemma_adapted_layer(b.attn.q, t.q, lora, tape, pos);
    lemma_adapted_layer(b.attn.k, t.k, lora, tape, p1);
    lemma_adapted_layer(b.attn.v, t.v, lora, tape, p2);
    lemma_adapted_layer(b.attn.proj, t.o, lora, tape, p3);
    lemma_frozen_norm(b.ln1);
    lemma_frozen_norm(b.ln2);
    lemma_adapted_ffn(b.ffn, lora, tape, f.attn.after_adapting(lora, pos));
    lemma_block_trains(f.adapted(lora, tape, pos));
}

proof fn lemma_stack_trains(bs: Seq<BlockView>, n: nat)
    requires
        n <= bs.len(),
        forall|i: int|
            0 <= i < bs.len() ==> params::trainable((#[trigger] bs[i]).params())
                == bs[i].adapter_params(),
    ensures
        params::trainable(model::stack_params(bs, n)) == model::stack_adapters(bs, n),
    decreases n,
{
    if n > 0 {
        lemma_stack_trains(bs, (n - 1) as nat);
        assert(params::trainable(bs[n - 1].params()) == bs[n - 1].adapter_params());
        params::trainable_of_concat(model::stack_params(bs, (n - 1) as nat), bs[n - 1].params());
    } else {
        lemma_nothing_trains();
    }
}

proof fn lemma_model_trains(m: ModelView)
    requires
        !m.table.requires_grad,
        params::trainable(m.ln_f.params()) == Seq::<ParamView>::empty(),
        forall|i: int|
            0 <= i < m.blocks.len() ==> params::trainable((#[trigger] m.blocks[i]).params())
                == m.blocks[i].adapter_params(),
    ensures
        params::trainable(m.params()) == m.adapters(),
{
    let head = seq![m.table];
    let mid = model::stack_params(m.blocks, m.blocks.len());
    lemma_frozen(head);
    lemma_stack_trains(m.blocks, m.blocks.len());
    params::trainable_of_concat(head, mid);
    params::trainable_of_concat(head + mid, m.ln_f.params());
    assert(Seq::<ParamView>::empty() + m.adapters() + Seq::<ParamView>::empty() =~= m.adapters());
}

/// After fresh adapters were attached, training changes exactly the adapters.
pub proof fn fresh_adapters_are_all_that_trains(m: ModelView, lora: LoRAConfig, tape: Seq<u32>)
    requires
        m.wf(),
        !m.has_lora(),
    ensures
        params::trainable(m.adapted(lora, tape).params()) == m.adapted(lora, tape).adapters(),
{
    let t = m.adapted(lora, tape);
    lemma_frozen_norm(m.ln_f);
    assert forall|i: int| 0 <= i < t.blocks.len() implies params::trainable(
        (#[trigger] t.blocks[i]).params(),
    ) == t.blocks[i].adapter_params() by {
        assert(m.blocks[i].wf(m.cfg.n_embd));
        assert(!m.blocks[i].has_lora());
        lemma_valid_experts_are_plain(m.blocks[i], m.cfg.n_embd);
        lemma_adapted_block(
            m.blocks[i],
            lora,
            tape,
            model::tape_at(m.marked(false).blocks, lora, 0, i as nat),
        );
    }
    lemma_model_trains(t);
}

/// After training on adapters is resumed, training changes exactly the adapters, and these have
/// kept their values.
pub proof fn resumed_adapters_are_all_that_trains(m: ModelView)
    requires
        m.wf(),
    ensures
        params::trainable(m.tuned().params()) == m.tuned().adapters(),
        m.tuned().adapters() == params::marked(m.adapters(), true),
{
    let t = m.tuned();
    lemma_frozen_norm(m.ln_f);
    assert forall|i: int| 0 <= i < t.blocks.len() implies params::trainable(
        (#[trigger] t.blocks[i]).params(),
    ) == t.blocks[i].adapter_params() by {
        assert(m.blocks[i].wf(m.cfg.n_embd));
        lemma_valid_experts_are_plain(m.blocks[i], m.cfg.n_embd);
        lemma_tuned_block(m.blocks[i]);
    }
    lemma_model_trains(t);
    lemma_tuned_adapters(m, m.blocks.len());
}

proof fn lemma_tuned_layer_adapters(l: LinearView)
    ensures
        l.tuned().adapter_params() == params::marked(l.adapter_params(), true),
{
    assert(l.tuned().adapter_params() =~= params::marked(l.adapter_params(), true));
}

proof fn lemma_tuned_block_adapters(b: BlockView)
    ensures
        b.tuned().adapter_params() == params::marked(b.adapter_params(), true),
{
    let a = b.attn;
    lemma_tuned_layer_adapters(a.q);
    lemma_tuned_layer_adapters(a.k);
    lemma_tuned_layer_adapters(a.v);
    lemma_tuned_layer_adapters(a.proj);
    let (q, k, v, o) = (
        a.q.adapter_params(),
        a.k.adapter_params(),
        a.v.adapter_params(),
        a.proj.adapter_params(),
    );
    params::changes_of_concat(q, k, true);
    params::changes_of_concat(q + k, v, true);
    params::changes_of_concat(q + k + v, o, true);
    match b.ffn {
        FfnView::Dense(MlpView::Plain { first, second }) => {
            lemma_tuned_layer_adapters(first);
            lemma_tuned_layer_adapters(second);
            params::changes_of_concat(first.adapter_params(), second.adapter_params(), true);
        },
        FfnView::Dense(MlpView::Gated { gate, up, down }) => {
            lemma_tuned_layer_adapters(gate);
            lemma_tuned_layer_adapters(up);
            lemma_tuned_layer_adapters(down);
            params::changes_of_concat(gate.adapter_params(), up.adapter_params(), true);
            params::changes_of_concat(
                gate.adapter_params() + up.adapter_params(),
                down.adapter_params(),
                true,
            );
        },
        FfnView::Moe(_) => {
            assert(params::marked(Seq::<ParamView>::empty(), true) =~= Seq::<ParamView>::empty());
        },
    }
    params::changes_of_concat(a.adapter_params(), b.ffn.adapter_params(), true);
}

proof fn lemma_tuned_adapters(m: ModelView, n: nat)
    requires
        n <= m.blocks.len(),
    ensures
        model::stack_adapters(m.tuned().blocks, n) == params::marked(
            model::stack_adapters(m.blocks, n),
            true,
        ),
    decreases n,
{
    if n > 0 {
        lemma_tuned_adapters(m, (n - 1) as nat);
        lemma_tuned_block_adapters(m.blocks[n - 1]);
        params::changes_of_concat(
            model::stack_adapters(m.blocks, (n - 1) as nat),
            m.blocks[n - 1].adapter_params(),
            true,
        );
    } else {
        assert(params::marked(Seq::<ParamView>::empty(), true) =~= Seq::<ParamView>::empty());
    }
}

/// After merging no adapter is left, and merging again changes nothing.
pub proof fn merging_leaves_no_adapter(m: ModelView)
    ensures
        !m.merged().has_lora(),
        m.merged().adapters().len() == 0,
        m.merged().merged() == m.merged(),
{
    let t = m.merged();
    assert forall|i: int| 0 <= i < t.blocks.len() implies !(#[trigger] t.blocks[i]).has_lora() by {
        if m.has_lora() {
            lemma_merged_block(m.blocks[i]);
        }
    }
    lemma_no_adapters(t.blocks, t.blocks.len());
}

proof fn lemma_merged_block(b: BlockView)
    ensures
        !b.merged().has_lora(),
{
    match b.ffn {
        FfnView::Dense(MlpView::Plain { first, second }) => {},
        FfnView::Dense(MlpView::Gated { gate, up, down }) => {},
        FfnView::Moe(_) => {},
    }
}

proof fn lemma_no_adapters(bs: Seq<BlockView>, n: nat)
    requires
        n <= bs.len(),
        forall|i: int| 0 <= i < bs.len() ==> !(#[trigger] bs[i]).has_lora(),
    ensures
        model::stack_adapters(bs, n).len() == 0,
    decreases n,
{
    if n > 0 {
        lemma_no_adapters(bs, (n - 1) as nat);
        assert(!bs[n - 1].has_lora());
        match bs[n - 1].ffn {
            FfnView::Dense(MlpView::Plain { first, second }) => {},
            FfnView::Dense(MlpView::Gated { gate, up, down }) => {},
            FfnView::Moe(_) => {},
        }
    }
}

} // verus!
