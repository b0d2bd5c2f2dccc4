//! Operations on a whole model: adapters, quantisation, windows.

use crate::attention::AttnView;
use crate::block;
use crate::block::{BlockView, FfnView};
use crate::block_quant;
use crate::codes::QBits;
use crate::layer_quant;
use crate::layer_quant::QuantPlan;
use crate::layers::LinearView;
use crate::mlp::MlpView;
use crate::model;
use crate::model::{GPT, ModelView};
use crate::params::Module;
use crate::report::{CalibStats, QuantMeta, QuantMethod, QuantOpts, QuantReport, QuantSummary};
use crate::text;
use vstd::prelude::*;

verus! {

/// Nine bytes for every weight of the first `n` layers: more than any form takes.
pub open spec fn room(ls: Seq<(Seq<char>, LinearView)>, n: nat) -> int
    decreases n,
{
    if n == 0 {
        0
    } else {
        room(ls, (n - 1) as nat) + 9 * (ls[n - 1].1.inputs() * ls[n - 1].1.outputs())
    }
}

/// Both sizes of valid layers stay below nine bytes per weight.
proof fn lemma_room_is_enough(ls: Seq<(Seq<char>, LinearView)>, n: nat)
    requires
        n <= ls.len(),
        forall|j: int| 0 <= j < ls.len() ==> (#[trigger] ls[j]).1.wf(),
    ensures
        0 <= model::plain_bytes(ls, n) <= room(ls, n),
        0 <= model::present_bytes(ls, n) <= room(ls, n),
    decreases n,
{
    if n > 0 {
        lemma_room_is_enough(ls, (n - 1) as nat);
        model::valid_layers_have_bytes(ls);
        let l = ls[n - 1].1;
        let (a, b) = (l.inputs() as int, l.outputs() as int);
        assert(0 <= a * b) by (nonlinear_arith)
            requires
                a >= 0,
                b >= 0,
        ;
        match l.quant {
            Some(q) => layer_quant::size_is_bounded(q, a, b),
            None => {},
        }
    }
}

proof fn lemma_same_room(
    a: Seq<(Seq<char>, LinearView)>,
    b: Seq<(Seq<char>, LinearView)>,
    n: nat,
)
    requires
        n <= a.len(),
        a.len() == b.len(),
        forall|i: int|
            0 <= i < a.len() ==> (#[trigger] b[i]).1.inputs() == a[i].1.inputs()
                && b[i].1.outputs() == a[i].1.outputs(),
    ensures
        room(a, n) == room(b, n),
    decreases n,
{
    if n > 0 {
        lemma_same_room(a, b, (n - 1) as nat);
        assert(b[n - 1].1.inputs() == a[n - 1].1.inputs());
    }
}

/// Whether two models differ in nothing but their linear layers and the record of quantisation.
pub open spec fn same_frame(a: ModelView, b: ModelView) -> bool {
    &&& b.cfg == a.cfg
    &&& b.table == a.table
    &&& b.ln_f == a.ln_f
    &&& b.lora == a.lora
    &&& b.dropout == a.dropout
    &&& b.blocks.len() == a.blocks.len()
    &&& forall|i: int| 0 <= i < a.blocks.len() ==> same_block_frame(a.blocks[i], #[trigger] b.blocks[i])
}

/// Whether two blocks differ in nothing but their linear layers.
pub open spec fn same_block_frame(a: BlockView, b: BlockView) -> bool {
    &&& b.ln1 == a.ln1
    &&& b.ln2 == a.ln2
    &&& b.attn == (AttnView {
        q: b.attn.q,
        k: b.attn.k,
        v: b.attn.v,
        proj: b.attn.proj,
        ..a.attn
    })
    &&& block_quant::same_kind(a.ffn, b.ffn)
    &&& b.dropout == a.dropout
}

/// Block lists that agree on the first `n` blocks have the same layers there.
proof fn lemma_same_layers(a: Seq<BlockView>, b: Seq<BlockView>, n: nat)
    requires
        n <= a.len(),
        n <= b.len(),
        forall|i: int| 0 <= i < n ==> #[trigger] a[i] == b[i],
    ensures
        model::stack_linears(a, n) == model::stack_linears(b, n),
    decreases n,
{
    if n > 0 {
        lemma_same_layers(a, b, (n - 1) as nat);
        assert(a[n - 1] == b[n - 1]);
    }
}

/// The layers of block `i` lie one after the other in the list of all layers.
proof fn lemma_layers_of_block<L: Fn(u32) -> u32, E: Fn(u32) -> u32>(
    bs: Seq<BlockView>,
    p: QuantPlan<L, E>,
    i: nat,
    n: nat,
)
    requires
        i < n <= bs.len(),
        block_quant::accepts_all(p, model::stack_linears(bs, n)),
    ensures
        block_quant::accepts_all(p, bs[i as int].linears(model::block_name(i))),
    decreases n,
{
    let head = model::stack_linears(bs, (n - 1) as nat);
    let tail = bs[n - 1].linears(model::block_name((n - 1) as nat));
    let whole = model::stack_linears(bs, n);
    if i == n - 1 {
        assert forall|j: int| 0 <= j < tail.len() implies p.accepts(
            (#[trigger] tail[j]).0,
            tail[j].1,
        ) by {
            assert(whole[head.len() + j] == tail[j]);
        }
    } else {
        assert forall|j: int| 0 <= j < head.len() implies p.accepts(
            (#[trigger] head[j]).0,
            head[j].1,
        ) by {
            assert(whole[j] == head[j]);
        }
        lemma_layers_of_block(bs, p, i, (n - 1) as nat);
    }
}

impl GPT {
    /// Quantises all layers but experts and the table, with one report for every layer that was
    /// quantised, and records the run.
    pub fn quantize_weights<L: Fn(u32) -> u32, E: Fn(u32) -> u32>(
        &mut self,
        bits: QBits,
        method: QuantMethod,
        calib: Option<&CalibStats>,
        opts: &QuantOpts,
        ln: &L,
        exp: &E,
    ) -> (reports: Vec<QuantReport>)
        requires
            old(self)@.wf(),
            block_quant::accepts_all(
                layer_quant::plan_of(bits, method, calib, *opts, ln, exp),
                old(self)@.linears(),
            ),
            forall|v: u32| call_requires(ln, (v,)),
            forall|v: u32| call_requires(exp, (v,)),
            4 * old(self)@.table.data.len() + room(
                old(self)@.linears(),
                old(self)@.linears().len(),
            ) <= usize::MAX,
        ensures
            final(self)@.wf(),
            same_frame(old(self)@, final(self)@),
            layer_quant::plan_of(bits, method, calib, *opts, ln, exp).run(
                old(self)@.linears(),
                final(self)@.linears(),
                reports@,
            ),
            final(self)@.quant == Some(
                QuantMeta {
                    bits,
                    method,
                    orig_bytes: final(self)@.plain_size() as usize,
                    quant_bytes: final(self)@.present_size() as usize,
                },
            ),
            final(self)@.plain_size() <= usize::MAX,
            final(self)@.present_size() <= usize::MAX,
            block::records(final(self).blocks@) == block::records(old(self).blocks@),
    {
        let ghost p = layer_quant::plan_of(bits, method, calib, *opts, ln, exp);
        let ghost before = self@;
        let ghost kept = block::records(self.blocks@);
        let d: usize = self.cfg.n_embd;
        let n: usize = self.blocks.len();
        let mut reports: Vec<QuantReport> = Vec::new();
        proof {
            layer_quant::empty_run(p);
            assert forall|j: int| 0 <= j < n implies (#[trigger] self.blocks@[j])@.wf(d) by {
                assert(before.blocks[j].wf(d));
            }
        }
        for i in 0..n
            invariant
                n == self.blocks@.len(),
                kept == block::records(self.blocks@),
                n == before.blocks.len(),
                d == before.cfg.n_embd,
                before.wf(),
                p == layer_quant::plan_of(bits, method, calib, *opts, ln, exp),
                block_quant::accepts_all(p, before.linears()),
                forall|v: u32| call_requires(ln, (v,)),
                forall|v: u32| call_requires(exp, (v,)),
                self.cfg == before.cfg,
                self.tok_emb.table@ == before.table,
                self.ln_f@ == before.ln_f,
                self.lora == before.lora,
                self.dropout == before.dropout,
                forall|j: int| i <= j < n ==> (#[trigger] self.blocks@[j])@ == before.blocks[j],
                forall|j: int| 0 <= j < n ==> (#[trigger] self.blocks@[j])@.wf(d),
                forall|j: int|
                    0 <= j < i ==> same_block_frame(
                        before.blocks[j],
                        (#[trigger] self.blocks@[j])@,
                    ),
                p.run(
                    model::stack_linears(before.blocks, i as nat),
                    model::stack_linears(self@.blocks, i as nat),
                    reports@,
                ),
        {
            let name: String = text::joined("blocks.", text::decimal(i).as_str());
            let ghost mid = self@.blocks;
            proof {
                assert(self.blocks@[i as int]@ == before.blocks[i as int]);
                lemma_layers_of_block(before.blocks, p, i as nat, n as nat);
            }
            let more: Vec<QuantReport> = self.blocks[i].quantize_weights(
                d,
                name.as_str(),
                bits,
                method,
                calib,
                opts,
                ln,
                exp,
            );
            proof {
                assert forall|j: int| 0 <= j < i implies #[trigger] mid[j] == self@.blocks[j] by {}
                lemma_same_layers(mid, self@.blocks, i as nat);
                layer_quant::runs_compose(
                    p,
                    model::stack_linears(before.blocks, i as nat),
                    model::stack_linears(self@.blocks, i as nat),
                    reports@,
                    before.blocks[i as int].linears(name@),
                    self@.blocks[i as int].linears(name@),
                    more@,
                );
            }
            block_quant::extend_reports(&mut reports, more);
            assert(kept =~= block::records(self.blocks@));
        }
        proof {
            assert forall|j: int| 0 <= j < n implies (#[trigger] self@.blocks[j]).wf(d) by {
                assert(self.blocks@[j]@.wf(d));
            }
            assert forall|j: int| 0 <= j < n implies same_block_frame(
                before.blocks[j],
                #[trigger] self@.blocks[j],
            ) by {
                assert(self.blocks@[j]@ == self@.blocks[j]);
            }
            let (a, b) = (before.linears(), self@.linears());
            layer_quant::runs_keep_layers(p, a, b, reports@);
            lemma_same_room(a, b, a.len());
            model::linears_are_valid(self@);
            lemma_room_is_enough(b, b.len());
        }
        let sizes: (usize, usize) = self.weight_bytes();
        self.quant = Some(
            QuantMeta { bits, method, orig_bytes: sizes.0, quant_bytes: sizes.1 },
        );
        reports
    }

    /// Sums up the reports of a run over the whole model.
    pub fn quant_summary(&self, reports: Vec<QuantReport>) -> (s: QuantSummary)
        requires
            self@.wf(),
            self@.quant is Some,
            self@.plain_size() <= usize::MAX,
            self@.present_size() <= usize::MAX,
        ensures
            s.method == self@.quant->0.method,
            s.bits == self@.quant->0.bits,
            s.f32_bytes == self@.plain_size(),
            s.quant_bytes == self@.present_size(),
            s.layers == reports,
            s.skipped == if self@.linears().len() >= reports@.len() {
                self@.linears().len() - reports@.len()
            } else {
                0
            },
    {
        let sizes: (usize, usize) = self.weight_bytes();
        let all: usize = self.named_linears().len();
        let done: usize = reports.len();
        let skipped: usize = if all >= done {
            all - done
        } else {
            0
        };
        let meta: QuantMeta = match self.quant {
            Some(m) => m,
            None => QuantMeta {
                bits: QBits::Int8,
                method: QuantMethod::Rtn,
                orig_bytes: 0,
                quant_bytes: 0,
            },
        };
        QuantSummary {
            method: meta.method,
            bits: meta.bits,
            f32_bytes: sizes.0,
            quant_bytes: sizes.1,
            layers: reports,
            skipped,
        }
    }

    /// Bytes of the weights as plain numbers.
    pub fn f32_bytes(&self) -> (n: usize)
        requires
            self@.wf(),
            self@.plain_size() <= usize::MAX,
            self@.present_size() <= usize::MAX,
        ensures
            n == self@.plain_size(),
    {
        self.weight_bytes().0
    }

    /// Bytes of the weights as they are.
    pub fn quant_bytes(&self) -> (n: usize)
        requires
            self@.wf(),
            self@.plain_size() <= usize::MAX,
            self@.present_size() <= usize::MAX,
        ensures
            n == self@.present_size(),
    {
        self.weight_bytes().1
    }

    /// Writes all quantised weights out as plain numbers. The record of the run stays.
    pub fn dequantize_weights(&mut self)
        requires
            old(self)@.wf(),
        ensures
            final(self)@.wf(),
            final(self)@ == old(self)@.dequantized(),
            block::records(final(self).blocks@) == block::records(old(self).blocks@),
    {
        let ghost before = self@;
        let ghost kept = block::records(self.blocks@);
        let d: usize = self.cfg.n_embd;
        let n: usize = self.blocks.len();
        for i in 0..n
            invariant
                n == self.blocks@.len(),
                kept == block::records(self.blocks@),
                n == before.blocks.len(),
                d == before.cfg.n_embd,
                before.wf(),
                self.cfg == before.cfg,
                self.tok_emb.table@ == before.table,
                self.ln_f@ == before.ln_f,
                self.lora == before.lora,
                self.quant == before.quant,
                self.dropout == before.dropout,
                forall|j: int| i <= j < n ==> (#[trigger] self.blocks@[j])@ == before.blocks[j],
                forall|j: int|
                    0 <= j < i ==> (#[trigger] self.blocks@[j])@ == before.blocks[j].dequantized(),
                forall|j: int| 0 <= j < i ==> (#[trigger] self.blocks@[j])@.wf(d),
        {
            assert(self.blocks@[i as int]@ == before.blocks[i as int]);
            assert(before.blocks[i as int].wf(d));
            self.blocks[i].dequantize_weights(d);
            assert(kept =~= block::records(self.blocks@));
        }
        proof {
            assert(self@.blocks =~= before.dequantized().blocks);
            assert forall|j: int| 0 <= j < n implies (#[trigger] self@.blocks[j]).wf(d) by {
                assert(self.blocks@[j]@.wf(d));
            }
        }
    }

    /// Adds all adapters to their weights and drops them.
    #[verifier::rlimit(50)]
    pub fn merge_lora(&mut self)
        requires
            old(self)@.wf(),
        ensures
            final(self)@.wf(),
            final(self)@ == old(self)@.merged(),
            block::records(final(self).blocks@) == block::records(old(self).blocks@),
    {
        if !self.has_lora() {
            return;
        }
        let ghost before = self@;
        let ghost kept = block::records(self.blocks@);
        let d: usize = self.cfg.n_embd;
        let n: usize = self.blocks.len();
        for i in 0..n
            invariant
                n == self.blocks@.len(),
                kept == block::records(self.blocks@),
                n == before.blocks.len(),
                d == before.cfg.n_embd,
                before.wf(),
                self.cfg == before.cfg,
                self.tok_emb.table@ == before.table,
                self.ln_f@ == before.ln_f,
                self.quant == before.quant,
                self.dropout == before.dropout,
                forall|j: int| i <= j < n ==> (#[trigger] self.blocks@[j])@ == before.blocks[j],
                forall|j: int|
                    0 <= j < i ==> (#[trigger] self.blocks@[j])@ == before.blocks[j].merged(),
                forall|j: int| 0 <= j < i ==> (#[trigger] self.blocks@[j])@.wf(d),
        {
            assert(self.blocks@[i as int]@ == before.blocks[i as int]);
            assert(before.blocks[i as int].wf(d));
            self.blocks[i].merge_lora(d);
            assert(kept =~= block::records(self.blocks@));
        }
        self.lora = None;
        proof {
            assert(self@.blocks =~= before.merged().blocks);
            assert forall|j: int| 0 <= j < n implies (#[trigger] self@.blocks[j]).wf(d) by {
                assert(self.blocks@[j]@.wf(d));
            }
        }
    }

    /// Freezes everything but the adapters, whose values stay.
    pub fn resume_lora(&mut self)
        requires
            old(self)@.wf(),
            old(self)@.has_lora(),
        ensures
            final(self)@.wf(),
            final(self)@ == old(self)@.tuned(),
            block::records(final(self).blocks@) == block::records(old(self).blocks@),
    {
        let ghost before = self@;
        let ghost kept = block::records(self.blocks@);
        let d: usize = self.cfg.n_embd;
        let n: usize = self.blocks.len();
        self.tok_emb.set_requires_grad(false);
        self.ln_f.set_requires_grad(false);
        for i in 0..n
            invariant
                n == self.blocks@.len(),
                kept == block::records(self.blocks@),
                n == before.blocks.len(),
                self.cfg == before.cfg,
                self.tok_emb.table@ == before.table.marked(false),
                self.ln_f@ == before.ln_f.marked(false),
                self.lora == before.lora,
                self.quant == before.quant,
                self.dropout == before.dropout,
                forall|j: int| i <= j < n ==> (#[trigger] self.blocks@[j])@ == before.blocks[j],
                forall|j: int|
                    0 <= j < i ==> (#[trigger] self.blocks@[j])@ == before.blocks[j].tuned(),
        {
            self.blocks[i].train_adapters();
            assert(kept =~= block::records(self.blocks@));
        }
        proof {
            assert(self@.blocks =~= before.tuned().blocks);
            assert forall|j: int| 0 <= j < n implies (#[trigger] self@.blocks[j]).wf(d) by {
                assert(before.blocks[j].wf(d));
                marks_keep_blocks_valid(before.blocks[j], d);
            }
        }
    }
}

/// Marks do not touch what makes a layer valid.
proof fn lemma_marks_keep_layers(l: LinearView)
    requires
        l.wf(),
    ensures
        l.tuned().wf(),
        l.tuned().inputs() == l.inputs(),
        l.tuned().outputs() == l.outputs(),
        l.marked(false).wf(),
        l.marked(false).inputs() == l.inputs(),
        l.marked(false).outputs() == l.outputs(),
{
}

proof fn lemma_marks_keep_mlp(m: MlpView, d: usize)
    requires
        m.wf(d),
    ensures
        m.tuned().wf(d),
        m.marked(false).wf(d),
        m.marked(false).has_lora() == m.has_lora(),
        m.marked(false).has_quant() == m.has_quant(),
{
    match m {
        MlpView::Plain { first, second } => {
            lemma_marks_keep_layers(first);
            lemma_marks_keep_layers(second);
        },
        MlpView::Gated { gate, up, down } => {
            lemma_marks_keep_layers(gate);
            lemma_marks_keep_layers(up);
            lemma_marks_keep_layers(down);
        },
    }
}

/// Marks do not touch what makes a block valid.
pub proof fn marks_keep_blocks_valid(b: BlockView, d: usize)
    requires
        b.wf(d),
    ensures
        b.tuned().wf(d),
        b.marked(false).wf(d),
{
    assert(b.tuned().attn.wf(d) && b.marked(false).attn.wf(d)) by {
        lemma_marks_keep_layers(b.attn.q);
        lemma_marks_keep_layers(b.attn.k);
        lemma_marks_keep_layers(b.attn.v);
        lemma_marks_keep_layers(b.attn.proj);
    }
    assert(b.tuned().ffn.wf(d) && b.marked(false).ffn.wf(d)) by {
        match b.ffn {
            FfnView::Dense(m) => lemma_marks_keep_mlp(m, d),
            FfnView::Moe(m) => {
                lemma_marks_keep_layers(m.router);
                let t = m.marked(false);
                assert forall|e: int| 0 <= e < t.experts.len() implies (#[trigger] t.experts[e]).wf(
                    d,
                ) && !t.experts[e].has_lora() && !t.experts[e].has_quant() by {
                    assert(m.experts[e].wf(d));
                    assert(!m.experts[e].has_lora());
                    lemma_marks_keep_mlp(m.experts[e], d);
                }
            },
        }
    }
}

} // verus!
