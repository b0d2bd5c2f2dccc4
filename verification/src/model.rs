//! The model: an embedding table, a stack of blocks and a last normalisation.

use crate::block;
use crate::block::{BlockView, TransformerBlock};
use crate::codes::QBits;
use crate::config::{GPTConfig, LoRAConfig};
use crate::embedding;
use crate::embedding::Embedding;
use crate::layers::{Linear, LinearView};
use crate::mlp;
use crate::norms;
use crate::norms::{NormLayer, NormView};
use crate::params;
use crate::params::{Param, ParamView};
use crate::report::QuantMeta;
use crate::text;
use vstd::prelude::*;

verus! {

/// The model. The output head shares the embedding table.
#[derive(Debug)]
pub struct GPT {
    pub cfg: GPTConfig,
    pub tok_emb: Embedding,
    pub blocks: Vec<TransformerBlock>,
    pub ln_f: NormLayer,
    /// The dropout rate of the embedding and of the whole stack, as it was when the model was made.
    pub dropout: u32,
    /// The adapters that the model was given.
    pub lora: Option<LoRAConfig>,
    /// The last quantisation.
    pub quant: Option<QuantMeta>,
}

/// What a model holds.
#[verifier::ext_equal]
pub struct ModelView {
    pub cfg: GPTConfig,
    pub table: ParamView,
    pub blocks: Seq<BlockView>,
    pub ln_f: NormView,
    pub dropout: u32,
    pub lora: Option<LoRAConfig>,
    pub quant: Option<QuantMeta>,
}

/// The contents of a list of blocks.
pub open spec fn stack_of(bs: Seq<TransformerBlock>) -> Seq<BlockView> {
    Seq::new(bs.len(), |i: int| bs[i]@)
}

impl View for GPT {
    type V = ModelView;

    open spec fn view(&self) -> ModelView {
        ModelView {
            cfg: self.cfg,
            table: self.tok_emb.table@,
            blocks: stack_of(self.blocks@),
            ln_f: self.ln_f@,
            dropout: self.dropout,
            lora: self.lora,
            quant: self.quant,
        }
    }
}

/// The name of block `i`.
pub open spec fn block_name(i: nat) -> Seq<char> {
    "blocks."@ + text::digits(i)
}

/// The parameters of the first `n` blocks.
pub open spec fn stack_params(bs: Seq<BlockView>, n: nat) -> Seq<ParamView>
    decreases n,
{
    if n == 0 {
        Seq::empty()
    } else {
        stack_params(bs, (n - 1) as nat) + bs[n - 1].params()
    }
}

/// The named parameters of the first `n` blocks.
pub open spec fn stack_named(bs: Seq<BlockView>, n: nat) -> Seq<(Seq<char>, ParamView)>
    decreases n,
{
    if n == 0 {
        Seq::empty()
    } else {
        stack_named(bs, (n - 1) as nat) + bs[n - 1].named(block_name((n - 1) as nat))
    }
}

/// The layers of the first `n` blocks that can be quantised.
pub open spec fn stack_linears(bs: Seq<BlockView>, n: nat) -> Seq<(Seq<char>, LinearView)>
    decreases n,
{
    if n == 0 {
        Seq::empty()
    } else {
        stack_linears(bs, (n - 1) as nat) + bs[n - 1].linears(block_name((n - 1) as nat))
    }
}

/// The adapters of the first `n` blocks.
pub open spec fn stack_adapters(bs: Seq<BlockView>, n: nat) -> Seq<ParamView>
    decreases n,
{
    if n == 0 {
        Seq::empty()
    } else {
        stack_adapters(bs, (n - 1) as nat) + bs[n - 1].adapter_params()
    }
}

/// Bytes of the first `n` layers: as plain numbers, and as they are.
pub open spec fn plain_bytes(ls: Seq<(Seq<char>, LinearView)>, n: nat) -> int
    decreases n,
{
    if n == 0 {
        0
    } else {
        plain_bytes(ls, (n - 1) as nat) + ls[n - 1].1.bytes().0
    }
}

pub open spec fn present_bytes(ls: Seq<(Seq<char>, LinearView)>, n: nat) -> int
    decreases n,
{
    if n == 0 {
        0
    } else {
        present_bytes(ls, (n - 1) as nat) + ls[n - 1].1.bytes().1
    }
}

/// Where the tape stands before block `i` takes its draws for adapters.
pub open spec fn tape_at(bs: Seq<BlockView>, lora: LoRAConfig, pos: int, i: nat) -> int
    decreases i,
{
    if i == 0 {
        pos
    } else {
        bs[i - 1].after_adapting(lora, tape_at(bs, lora, pos, (i - 1) as nat))
    }
}

impl ModelView {
    pub open spec fn wf(self) -> bool {
        let d = self.cfg.n_embd;
        &&& embedding::is_table(self.table, self.cfg.vocab_size, d)
        &&& self.blocks.len() == self.cfg.n_layer
        &&& forall|i: int| 0 <= i < self.blocks.len() ==> (#[trigger] self.blocks[i]).wf(d)
        &&& self.ln_f.wf(d)
    }

    pub open spec fn params(self) -> Seq<ParamView> {
        seq![self.table] + stack_params(self.blocks, self.blocks.len()) + self.ln_f.params()
    }

    pub open spec fn named(self) -> Seq<(Seq<char>, ParamView)> {
        seq![("tok_emb"@ + ".table"@, self.table)] + stack_named(self.blocks, self.blocks.len())
            + self.ln_f.named("ln_f"@)
    }

    /// The layers that can be quantised.
    pub open spec fn linears(self) -> Seq<(Seq<char>, LinearView)> {
        stack_linears(self.blocks, self.blocks.len())
    }

    pub open spec fn adapters(self) -> Seq<ParamView> {
        stack_adapters(self.blocks, self.blocks.len())
    }

    pub open spec fn has_lora(self) -> bool {
        exists|i: int| 0 <= i < self.blocks.len() && (#[trigger] self.blocks[i]).has_lora()
    }

    pub open spec fn has_quant(self) -> bool {
        exists|i: int| 0 <= i < self.blocks.len() && (#[trigger] self.blocks[i]).has_quant()
    }

    /// Bytes of the weights as plain numbers: all layers and the table.
    pub open spec fn plain_size(self) -> int {
        4 * self.table.data.len() + plain_bytes(self.linears(), self.linears().len())
    }

    /// Bytes of the weights as they are.
    pub open spec fn present_size(self) -> int {
        4 * self.table.data.len() + present_bytes(self.linears(), self.linears().len())
    }

    pub open spec fn cleared(self) -> ModelView {
        ModelView {
            table: self.table.cleared(),
            blocks: Seq::new(self.blocks.len(), |i: int| self.blocks[i].cleared()),
            ln_f: self.ln_f.cleared(),
            ..self
        }
    }

    pub open spec fn marked(self, on: bool) -> ModelView {
        ModelView {
            table: self.table.marked(on),
            blocks: Seq::new(self.blocks.len(), |i: int| self.blocks[i].marked(on)),
            ln_f: self.ln_f.marked(on),
            ..self
        }
    }

    /// Everything frozen but the adapters.
    pub open spec fn tuned(self) -> ModelView {
        ModelView {
            table: self.table.marked(false),
            blocks: Seq::new(self.blocks.len(), |i: int| self.blocks[i].tuned()),
            ln_f: self.ln_f.marked(false),
            ..self
        }
    }

    pub open spec fn merged(self) -> ModelView {
        if self.has_lora() {
            ModelView {
                blocks: Seq::new(self.blocks.len(), |i: int| self.blocks[i].merged()),
                lora: None,
                ..self
            }
        } else {
            self
        }
    }

    pub open spec fn dequantized(self) -> ModelView {
        ModelView {
            blocks: Seq::new(self.blocks.len(), |i: int| self.blocks[i].dequantized()),
            ..self
        }
    }

    /// Everything frozen, and the target layers with fresh adapters.
    pub open spec fn adapted(self, lora: LoRAConfig, tape: Seq<u32>) -> ModelView {
        let frozen = self.marked(false);
        ModelView {
            blocks: Seq::new(
                self.blocks.len(),
                |i: int|
                    frozen.blocks[i].adapted(
                        lora,
                        tape,
                        tape_at(frozen.blocks, lora, 0, i as nat),
                    ),
            ),
            lora: Some(lora),
            ..frozen
        }
    }

    /// With other rotary frequencies and another window.
    pub open spec fn rotated(self, cfg: GPTConfig) -> ModelView {
        ModelView {
            cfg,
            blocks: Seq::new(
                self.blocks.len(),
                |i: int|
                    BlockView {
                        attn: crate::attention::AttnView {
                            rope: cfg.frequencies(),
                            ..self.blocks[i].attn
                        },
                        ..self.blocks[i]
                    },
            ),
            ..self
        }
    }
}

/// A fresh model from a tape of draws: the blocks in order, then the table.
pub open spec fn drawn_model(c: GPTConfig, tape: Seq<u32>) -> ModelView {
    let each = block::block_draws(c);
    ModelView {
        cfg: c,
        table: embedding::drawn_table(c.vocab_size, c.n_embd, tape, c.n_layer * each),
        blocks: Seq::new(
            c.n_layer as nat,
            |i: int| block::drawn_block(c, tape, i * each),
        ),
        ln_f: norms::fresh_norm(c.n_embd, block::LN_EPS, c.use_rmsnorm),
        dropout: c.dropout,
        lora: None,
        quant: None,
    }
}

/// The draws that a fresh model takes.
pub open spec fn model_draws(c: GPTConfig) -> int {
    c.n_layer * block::block_draws(c) + c.vocab_size * c.n_embd
}

impl GPT {
    /// A fresh model.
    pub fn new(cfg: GPTConfig, tape: &[u32]) -> (m: Self)
        requires
            block::buildable(cfg),
            tape@.len() == model_draws(cfg),
            tape@.len() <= usize::MAX,
        ensures
            m@ == drawn_model(cfg, tape@),
            m@.wf(),
            forall|i: int|
                0 <= i < m.blocks@.len() ==> (#[trigger] m.blocks@[i]).record().is_fresh(),
    {
        let total: usize = tape.len();
        let ghost each = block::block_draws(cfg);
        let layers: usize = cfg.n_layer;
        proof {
            block::draws_are_counted(cfg);
            let (v, d) = (cfg.vocab_size, cfg.n_embd);
            assert(0 <= v * d) by (nonlinear_arith)
                requires
                    v >= 0,
                    d >= 0,
            ;
            assert(0 * each == 0);
        }
        let mut at: usize = 0;
        let mut blocks: Vec<TransformerBlock> = Vec::new();
        for i in 0..layers
            invariant
                layers == cfg.n_layer,
                total == tape@.len(),
                block::buildable(cfg),
                each == block::block_draws(cfg),
                each >= 0,
                layers * each <= total,
                at == i * each,
                blocks@.len() == i,
                forall|j: int|
                    0 <= j < i ==> (#[trigger] blocks@[j])@ == block::drawn_block(
                        cfg,
                        tape@,
                        j * each,
                    ),
                forall|j: int| 0 <= j < i ==> (#[trigger] blocks@[j])@.wf(cfg.n_embd),
                forall|j: int| 0 <= j < i ==> (#[trigger] blocks@[j]).record().is_fresh(),
        {
            proof {
                assert((i + 1) * each == i * each + each && (i + 1) * each <= layers * each)
                    by (nonlinear_arith)
                    requires
                        i + 1 <= layers,
                        each >= 0,
                ;
            }
            blocks.push(TransformerBlock::new(&cfg, tape, at));
            at = at + block::count_draws(&cfg);
        }
        let m: GPT = GPT {
            cfg,
            tok_emb: embedding::draw_table(cfg.vocab_size, cfg.n_embd, tape, at),
            blocks,
            ln_f: NormLayer::new(cfg.n_embd, block::LN_EPS, cfg.use_rmsnorm),
            dropout: cfg.dropout,
            lora: None,
            quant: None,
        };
        proof {
            assert(m@.blocks =~= drawn_model(cfg, tape@).blocks);
            assert forall|i: int| 0 <= i < m@.blocks.len() implies (#[trigger] m@.blocks[i]).wf(
                cfg.n_embd,
            ) by {
                assert(m@.blocks[i] == m.blocks@[i]@);
            }
        }
        m
    }

    /// Adds rows for new tokens. The rows there are stay as they are.
    pub fn resize_vocab(&mut self, new_vocab: usize, draws: &[u32])
        requires
            old(self)@.wf(),
            new_vocab >= old(self)@.cfg.vocab_size,
            new_vocab * old(self)@.cfg.n_embd <= usize::MAX,
            draws@.len() == (new_vocab - old(self)@.cfg.vocab_size) * old(self)@.cfg.n_embd,
        ensures
            final(self)@.wf(),
            new_vocab == old(self)@.cfg.vocab_size ==> final(self)@ == old(self)@,
            new_vocab > old(self)@.cfg.vocab_size ==> final(self)@ == (ModelView {
                cfg: GPTConfig { vocab_size: new_vocab, ..old(self)@.cfg },
                table: embedding::grown(
                    old(self)@.table,
                    new_vocab,
                    old(self)@.cfg.n_embd,
                    draws@,
                ),
                ..old(self)@
            }),
            final(self).blocks == old(self).blocks,
    {
        let old_vocab: usize = self.cfg.vocab_size;
        if new_vocab == old_vocab {
            return;
        }
        self.tok_emb.grow(old_vocab, new_vocab, self.cfg.n_embd, draws);
        self.cfg.vocab_size = new_vocab;
    }

    /// Whether any layer has an adapter.
    pub fn has_lora(&self) -> (r: bool)
        ensures
            r == self@.has_lora(),
    {
        for i in 0..self.blocks.len()
            invariant
                forall|j: int| 0 <= j < i ==> !(#[trigger] self@.blocks[j]).has_lora(),
        {
            if self.blocks[i].has_lora() {
                assert(self@.blocks[i as int].has_lora());
                return true;
            }
        }
        false
    }

    /// Whether the model cannot run while gradients are taken, because one of its layers cannot.
    pub fn refuses_gradients(&self, grad_enabled: bool) -> (r: bool)
        ensures
            r == (grad_enabled && self@.has_quant()),
    {
        grad_enabled && self.has_quant()
    }

    /// Whether any layer is quantised.
    pub fn has_quant(&self) -> (r: bool)
        ensures
            r == self@.has_quant(),
    {
        for i in 0..self.blocks.len()
            invariant
                forall|j: int| 0 <= j < i ==> !(#[trigger] self@.blocks[j]).has_quant(),
        {
            if self.blocks[i].has_quant() {
                assert(self@.blocks[i as int].has_quant());
                return true;
            }
        }
        false
    }

    /// Whether any layer is quantised.
    pub fn is_quantized(&self) -> (r: bool)
        ensures
            r == self@.has_quant(),
    {
        self.has_quant()
    }

    /// The last quantisation.
    pub fn quant_meta(&self) -> (r: Option<QuantMeta>)
        ensures
            r == self@.quant,
    {
        self.quant
    }

    /// The weight of the output head: the embedding table.
    pub fn head_weight(&self) -> (w: &Param)
        ensures
            w@ == self@.table,
    {
        &self.tok_emb.table
    }

    /// The layers that can be quantised, under their names.
    pub fn named_linears(&self) -> (ls: Vec<(String, &Linear)>)
        ensures
            mlp::layer_listing(ls@) == self@.linears(),
    {
        let mut ls: Vec<(String, &Linear)> = Vec::new();
        assert(mlp::layer_listing(ls@) =~= Seq::empty());
        for i in 0..self.blocks.len()
            invariant
                mlp::layer_listing(ls@) == stack_linears(self@.blocks, i as nat),
        {
            let name: String = text::joined("blocks.", text::decimal(i).as_str());
            mlp::extend_layers(&mut ls, self.blocks[i].named_linears(name.as_str()));
        }
        ls
    }

    /// The parameters with their names.
    pub fn named_parameters(&self) -> (ps: Vec<(String, &Param)>)
        ensures
            params::listing(ps@) == self@.named(),
    {
        let mut ps: Vec<(String, &Param)> = self.tok_emb.named_parameters("tok_emb");
        let ghost head = seq![("tok_emb"@ + ".table"@, self@.table)];
        assert(head + stack_named(self@.blocks, 0) =~= head);
        for i in 0..self.blocks.len()
            invariant
                head == seq![("tok_emb"@ + ".table"@, self@.table)],
                params::listing(ps@) == head + stack_named(self@.blocks, i as nat),
        {
            let name: String = text::joined("blocks.", text::decimal(i).as_str());
            params::extend_named(&mut ps, self.blocks[i].named_parameters(name.as_str()));
            assert(params::listing(ps@) =~= head + stack_named(self@.blocks, (i + 1) as nat));
        }
        params::extend_named(&mut ps, self.ln_f.named_parameters("ln_f"));
        ps
    }

    /// Bytes of the weights as plain numbers, and as they are: all layers, and the table on both
    /// sides.
    pub fn weight_bytes(&self) -> (b: (usize, usize))
        requires
            self@.wf(),
            self@.plain_size() <= usize::MAX,
            self@.present_size() <= usize::MAX,
        ensures
            b.0 == self@.plain_size(),
            b.1 == self@.present_size(),
    {
        let ls: Vec<(String, &Linear)> = self.named_linears();
        let ghost all = self@.linears();
        proof {
            linears_are_valid(self@);
            valid_layers_have_bytes(all);
            bytes_grow(all, 0, all.len());
        }
        let table: usize = self.tok_emb.table.numel() * 4;
        let mut plain: usize = table;
        let mut present: usize = table;
        for i in 0..ls.len()
            invariant
                mlp::layer_listing(ls@) == all,
                all.len() == ls@.len(),
                table == 4 * self@.table.data.len(),
                plain == table + plain_bytes(all, i as nat),
                present == table + present_bytes(all, i as nat),
                table + plain_bytes(all, all.len()) <= usize::MAX,
                table + present_bytes(all, all.len()) <= usize::MAX,
                forall|j: int| 0 <= j < all.len() ==> (#[trigger] all[j]).1.wf(),
                forall|j: int|
                    0 <= j < all.len() ==> (#[trigger] all[j]).1.bytes().0 >= 0
                        && all[j].1.bytes().1 >= 0,
        {
            proof {
                assert(all[i as int] == (ls@[i as int].0@, ls@[i as int].1@));
                bytes_grow(all, (i + 1) as nat, all.len());
                bytes_grow(all, 0, i as nat);
            }
            let b: (usize, usize) = ls[i].1.weight_bytes();
            plain = plain + b.0;
            present = present + b.1;
        }
        (plain, present)
    }
}

/// Sums of bytes grow.
pub proof fn bytes_grow(ls: Seq<(Seq<char>, LinearView)>, i: nat, n: nat)
    requires
        i <= n <= ls.len(),
        forall|j: int|
            0 <= j < ls.len() ==> (#[trigger] ls[j]).1.bytes().0 >= 0 && ls[j].1.bytes().1 >= 0,
    ensures
        0 <= plain_bytes(ls, i) <= plain_bytes(ls, n),
        0 <= present_bytes(ls, i) <= present_bytes(ls, n),
    decreases n,
{
    if i < n {
        bytes_grow(ls, i, (n - 1) as nat);
    } else if n > 0 {
        bytes_grow(ls, (n - 1) as nat, (n - 1) as nat);
    }
}

/// Every layer of a valid model is valid.
pub proof fn linears_are_valid(m: ModelView)
    requires
        m.wf(),
    ensures
        forall|j: int| 0 <= j < m.linears().len() ==> (#[trigger] m.linears()[j]).1.wf(),
{
    lemma_stack_is_valid(m, m.blocks.len());
}

proof fn lemma_stack_is_valid(m: ModelView, n: nat)
    requires
        m.wf(),
        n <= m.blocks.len(),
    ensures
        forall|j: int|
            0 <= j < stack_linears(m.blocks, n).len() ==> (#[trigger] stack_linears(
                m.blocks,
                n,
            )[j]).1.wf(),
    decreases n,
{
    if n > 0 {
        lemma_stack_is_valid(m, (n - 1) as nat);
        let head = stack_linears(m.blocks, (n - 1) as nat);
        let tail = m.blocks[n - 1].linears(block_name((n - 1) as nat));
        assert(m.blocks[n - 1].wf(m.cfg.n_embd));
        assert forall|j: int| 0 <= j < tail.len() implies (#[trigger] tail[j]).1.wf() by {}
        assert forall|j: int| 0 <= j < (head + tail).len() implies (#[trigger] (head
            + tail)[j]).1.wf() by {
            if j < head.len() {
                assert((head + tail)[j] == head[j]);
            } else {
                assert((head + tail)[j] == tail[j - head.len()]);
            }
        }
    }
}

/// The bytes of valid layers are not negative.
pub proof fn valid_layers_have_bytes(ls: Seq<(Seq<char>, LinearView)>)
    requires
        forall|j: int| 0 <= j < ls.len() ==> (#[trigger] ls[j]).1.wf(),
    ensures
        forall|j: int|
            0 <= j < ls.len() ==> (#[trigger] ls[j]).1.bytes().0 >= 0 && ls[j].1.bytes().1 >= 0,
{
    assert forall|j: int| 0 <= j < ls.len() implies (#[trigger] ls[j]).1.bytes().0 >= 0
        && ls[j].1.bytes().1 >= 0 by {
        let l = ls[j].1;
        let (a, b) = (l.inputs() as int, l.outputs() as int);
        assert(0 <= a * b) by (nonlinear_arith)
            requires
                a >= 0,
                b >= 0,
        ;
        match l.quant {
            Some(q) => {
                q.q.shape();
                assert(crate::codes::packed_size(a * b, q.q.width()) >= 0) by {
                    match q.q.width() {
                        QBits::Int8 => {},
                        QBits::Int4 => {},
                    }
                }
            },
            None => {},
        }
    }
}

} // verus!
