//! The parameters of a whole stack in the fixed order of a fused kernel, and the way of its
//! gradients back.

use crate::attention;
use crate::attention::AttnView;
use crate::block;
use crate::block::{BlockView, Ffn, FfnView, TransformerBlock};
use crate::layers::{Linear, LinearView};
use crate::matrix;
use crate::mlp::{MLPEnum, MlpView};
use crate::model::{GPT, ModelView};
use crate::norms::{NormLayer, NormView};
use crate::params;
use crate::params::{Param, ParamView};
use vstd::prelude::*;

verus! {

/// Parameter slots of one block.
pub const STACK_PARAMS_PER_LAYER: usize = 16;

/// Parameter slots of the attention of one block; the others are those of the feed-forward layer.
pub const ATTENTION_SLOTS: usize = 10;

/// Whether attention may run fused: training, no adapter, no quantised weight, plain rotary
/// frequencies, and an input of three dimensions.
pub open spec fn attention_fuses(a: AttnView, grad_enabled: bool, dims: int) -> bool {
    &&& grad_enabled
    &&& !a.has_lora()
    &&& !a.has_quant()
    &&& a.rope.base == crate::config::ROPE_BASE
    &&& a.rope.scaling == crate::config::RopeScaling::Plain
    &&& dims == 3
}

/// Whether a feed-forward layer may run fused: training, no adapter, no quantised weight, dense
/// and ungated, and an input of three dimensions.
pub open spec fn ffn_fuses(f: FfnView, grad_enabled: bool, dims: int) -> bool {
    &&& grad_enabled
    &&& !f.has_lora()
    &&& !f.has_quant()
    &&& dims == 3
    &&& f is Dense && f->Dense_0 is Plain
}

/// Whether the kernel computes what a block computes: the kernel knows plain rotary frequencies and
/// dense ungated feed-forward layers only.
pub open spec fn kernel_knows(b: BlockView) -> bool {
    &&& b.attn.rope.base == crate::config::ROPE_BASE
    &&& b.attn.rope.scaling == crate::config::RopeScaling::Plain
    &&& b.ffn is Dense
    &&& b.ffn->Dense_0 is Plain
}

/// Whether a whole stack may run fused: training, no adapter, no quantised weight, and every block
/// is known to the kernel.
pub open spec fn stack_fuses(m: ModelView, grad_enabled: bool) -> bool {
    &&& grad_enabled
    &&& m.blocks.len() > 0
    &&& !m.has_lora()
    &&& !m.has_quant()
    &&& forall|i: int| 0 <= i < m.blocks.len() ==> kernel_knows(#[trigger] m.blocks[i])
}

/// A stack runs fused only where each of its layers could run fused by itself, so that it computes
/// what they compute one by one.
pub proof fn fused_stacks_have_fused_layers(m: ModelView, grad_enabled: bool, i: int)
    requires
        stack_fuses(m, grad_enabled),
        0 <= i < m.blocks.len(),
    ensures
        attention_fuses(m.blocks[i].attn, grad_enabled, 3),
        ffn_fuses(m.blocks[i].ffn, grad_enabled, 3),
{
    assert(kernel_knows(m.blocks[i]));
    assert(!m.blocks[i].has_lora());
    assert(!m.blocks[i].has_quant());
}

/// How many query heads share a key and value head.
pub open spec fn repetitions(a: AttnView) -> int {
    a.n_head as int / a.n_kv_head as int
}

/// The width of one head.
pub open spec fn head_width(a: AttnView, d: int) -> int {
    d / a.n_head as int
}

/// A shared tensor as the kernel wants it: one copy per query head.
pub open spec fn spread_heads(w: Seq<u32>, rows: int, a: AttnView, d: int) -> Seq<u32> {
    if repetitions(a) > 1 {
        attention::expanded(w, rows, a.n_kv_head as int, head_width(a, d), repetitions(a))
    } else {
        w
    }
}

/// A gradient of the kernel brought back to the shared heads.
pub open spec fn gather_heads(g: Seq<u32>, rows: int, a: AttnView, d: int) -> Seq<u32> {
    if repetitions(a) > 1 {
        attention::folded(g, rows, a.n_kv_head as int, head_width(a, d), repetitions(a))
    } else {
        g
    }
}

/// The shift of a normalisation, or zeros where it has none.
pub open spec fn shift_of(n: NormView, d: int) -> Seq<u32> {
    match n.beta {
        Some(b) => b.data,
        None => params::zeros(d as nat),
    }
}

/// What the kernel reads for the attention of one block, slot by slot.
pub open spec fn attention_slots(b: BlockView, d: int) -> Seq<Seq<u32>> {
    let a = b.attn;
    seq![
        b.ln1.gamma.data,
        shift_of(b.ln1, d),
        a.q.weight.data,
        a.q.bias.data,
        spread_heads(a.k.weight.data, d, a, d),
        spread_heads(a.k.bias.data, 1, a, d),
        spread_heads(a.v.weight.data, d, a, d),
        spread_heads(a.v.bias.data, 1, a, d),
        a.proj.weight.data,
        a.proj.bias.data,
    ]
}

/// What the kernel reads for the feed-forward layer of one block, slot by slot.
pub open spec fn ffn_slots(b: BlockView, d: int) -> Seq<Seq<u32>> {
    let m = b.ffn->Dense_0;
    seq![
        b.ln2.gamma.data,
        shift_of(b.ln2, d),
        m->first.weight.data,
        m->first.bias.data,
        m->second.weight.data,
        m->second.bias.data,
    ]
}

/// What the kernel reads for one block, slot by slot.
pub open spec fn slots(b: BlockView, d: int) -> Seq<Seq<u32>> {
    attention_slots(b, d) + ffn_slots(b, d)
}

/// A parameter with `g` added to its gradient.
pub open spec fn accumulated(p: ParamView, g: Seq<u32>) -> ParamView {
    ParamView { grad: matrix::total(p.grad, g), ..p }
}

/// A normalisation with gradients added; one without shift has no use for its second gradient.
pub open spec fn norm_accumulated(n: NormView, g: Seq<u32>, s: Seq<u32>) -> NormView {
    NormView {
        gamma: accumulated(n.gamma, g),
        beta: match n.beta {
            Some(b) => Some(accumulated(b, s)),
            None => None,
        },
        ..n
    }
}

/// A layer with gradients added.
pub open spec fn layer_accumulated(l: LinearView, w: Seq<u32>, b: Seq<u32>) -> LinearView {
    LinearView { weight: accumulated(l.weight, w), bias: accumulated(l.bias, b), ..l }
}

/// A block with the gradients of its attention added, slot by slot.
pub open spec fn attention_accumulated(b: BlockView, g: Seq<Seq<u32>>, d: int) -> BlockView {
    let a = b.attn;
    BlockView {
        ln1: norm_accumulated(b.ln1, g[0], g[1]),
        attn: AttnView {
            q: layer_accumulated(a.q, g[2], g[3]),
            k: layer_accumulated(a.k, gather_heads(g[4], d, a, d), gather_heads(g[5], 1, a, d)),
            v: layer_accumulated(a.v, gather_heads(g[6], d, a, d), gather_heads(g[7], 1, a, d)),
            proj: layer_accumulated(a.proj, g[8], g[9]),
            ..a
        },
        ..b
    }
}

/// A block with the gradients of its feed-forward layer added, slot by slot.
pub open spec fn ffn_accumulated(b: BlockView, g: Seq<Seq<u32>>) -> BlockView {
    let m = b.ffn->Dense_0;
    BlockView {
        ln2: norm_accumulated(b.ln2, g[0], g[1]),
        ffn: FfnView::Dense(
            MlpView::Plain {
                first: layer_accumulated(m->first, g[2], g[3]),
                second: layer_accumulated(m->second, g[4], g[5]),
            },
        ),
        ..b
    }
}

/// A block with the kernel's gradients added, slot by slot.
pub open spec fn block_accumulated(b: BlockView, g: Seq<Seq<u32>>, d: int) -> BlockView {
    ffn_accumulated(
        attention_accumulated(b, g.take(ATTENTION_SLOTS as int), d),
        g.skip(ATTENTION_SLOTS as int),
    )
}

/// Whether the attention of a block can be handed to the kernel: valid, nothing quantised.
pub open spec fn attention_fits(b: BlockView, d: usize) -> bool {
    &&& b.ln1.wf(d)
    &&& b.attn.wf(d)
    &&& d > 0
    &&& d * d <= usize::MAX
    &&& !b.attn.has_quant()
}

/// Whether the feed-forward layer of a block can be handed to the kernel: valid, dense and ungated,
/// nothing quantised.
pub open spec fn ffn_fits(b: BlockView, d: usize) -> bool {
    &&& b.ln2.wf(d)
    &&& b.ffn.wf(d)
    &&& b.ffn is Dense
    &&& b.ffn->Dense_0 is Plain
    &&& !b.ffn.has_quant()
}

/// Whether a block can be handed to the kernel.
pub open spec fn block_fits(b: BlockView, d: usize) -> bool {
    attention_fits(b, d) && ffn_fits(b, d)
}

/// Whether gradients have the sizes of the slots they belong to.
pub open spec fn sizes_match(s: Seq<Seq<u32>>, g: Seq<Vec<u32>>) -> bool {
    &&& g.len() == s.len()
    &&& forall|k: int| 0 <= k < s.len() ==> (#[trigger] g[k])@.len() == s[k].len()
}

/// The contents of a list of vectors.
pub open spec fn contents(g: Seq<Vec<u32>>) -> Seq<Seq<u32>> {
    Seq::new(g.len(), |k: int| g[k]@)
}

/// Head counts and widths of a valid attention layer.
proof fn lemma_heads(a: AttnView, d: usize)
    requires
        a.wf(d),
        d > 0,
        d * d <= usize::MAX,
    ensures
        ({
            let (r, h, k) = (repetitions(a), head_width(a, d as int), a.n_kv_head as int);
            &&& r >= 1
            &&& h >= 1
            &&& k * r == a.n_head
            &&& k * r * h == d
            &&& a.kv_width(d as int) == k * h
            &&& r == 1 ==> k * h == d
            &&& k * h <= d
            &&& d * (k * r * h) <= usize::MAX
            &&& 1 * (k * r * h) <= usize::MAX
        }),
{
    let (n, k) = (a.n_head as int, a.n_kv_head as int);
    vstd::arithmetic::div_mod::lemma_fundamental_div_mod(n, k);
    vstd::arithmetic::div_mod::lemma_fundamental_div_mod(d as int, n);
    let r = n / k;
    let h = d as int / n;
    assert(r >= 1) by (nonlinear_arith)
        requires
            n == k * r,
            n > 0,
            k > 0,
    ;
    assert(h >= 1) by (nonlinear_arith)
        requires
            d as int == n * h,
            d > 0,
            n > 0,
    ;
    assert(k * r * h == d) by (nonlinear_arith)
        requires
            n == k * r,
            d as int == n * h,
    ;
    assert(h * k == k * h && k * h <= k * r * h) by (nonlinear_arith)
        requires
            k > 0,
            h >= 1,
            r >= 1,
    ;
    if r == 1 {
        assert(k * 1 * h == k * h);
    }
}

fn shift_or_zeros(n: &NormLayer, d: usize) -> (r: Vec<u32>)
    ensures
        r@ == shift_of(n@, d as int),
{
    match n.norm_params().1 {
        Some(b) => params::copied(&b.data),
        None => params::zero_vec(d),
    }
}

/// Shared heads as the kernel wants them.
fn spread_shared(w: &Vec<u32>, rows: usize, n_kv: usize, hd: usize, n_rep: usize) -> (r: Vec<u32>)
    requires
        w@.len() == rows * (n_kv * hd),
        hd > 0,
        n_rep > 0,
        n_kv * n_rep * hd <= usize::MAX,
        rows * (n_kv * n_rep * hd) <= usize::MAX,
    ensures
        r@ == if n_rep > 1 {
            attention::expanded(w@, rows as int, n_kv as int, hd as int, n_rep as int)
        } else {
            w@
        },
{
    if n_rep > 1 {
        attention::expand_kv_head(w, rows, n_kv, hd, n_rep)
    } else {
        params::copied(w)
    }
}

/// A gradient of the kernel brought back to the shared heads.
fn gather_shared(g: &Vec<u32>, rows: usize, n_kv: usize, hd: usize, n_rep: usize) -> (r: Vec<u32>)
    requires
        g@.len() == rows * (n_kv * n_rep * hd),
        hd > 0,
        n_rep > 0,
        n_kv * n_rep * hd <= usize::MAX,
    ensures
        r@ == if n_rep > 1 {
            attention::folded(g@, rows as int, n_kv as int, hd as int, n_rep as int)
        } else {
            g@
        },
{
    if n_rep > 1 {
        attention::fold_kv_head_grad(g, rows, n_kv, hd, n_rep)
    } else {
        params::copied(g)
    }
}

/// Adds `g` to the gradient of a parameter.
fn accumulate(p: &mut Param, g: &Vec<u32>)
    requires
        old(p)@.grad.len() == g@.len(),
    ensures
        final(p)@ == accumulated(old(p)@, g@),
{
    p.grad = matrix::add_matrices(&p.grad, g);
}

impl TransformerBlock {
    /// What the kernel reads for the attention of this block, slot by slot.
    #[verifier::rlimit(40)]
    pub fn attention_slots(&self, d: usize) -> (r: Vec<Vec<u32>>)
        requires
            attention_fits(self@, d),
        ensures
            contents(r@) == attention_slots(self@, d as int),
    {
        proof {
            lemma_heads(self@.attn, d);
        }
        let n_kv: usize = self.attn.n_kv_head;
        let n_rep: usize = self.attn.n_head / n_kv;
        let hd: usize = d / self.attn.n_head;
        let (k, v): (&Linear, &Linear) = (&self.attn.c_k, &self.attn.c_v);
        let mut r: Vec<Vec<u32>> = Vec::new();
        r.push(params::copied(&self.ln1.norm_params().0.data));
        r.push(shift_or_zeros(&self.ln1, d));
        r.push(params::copied(&self.attn.c_q.weight.data));
        r.push(params::copied(&self.attn.c_q.bias.data));
        proof {
            let w = n_kv * hd;
            assert(1 * w == w);
        }
        r.push(spread_shared(&k.weight.data, d, n_kv, hd, n_rep));
        r.push(spread_shared(&k.bias.data, 1, n_kv, hd, n_rep));
        r.push(spread_shared(&v.weight.data, d, n_kv, hd, n_rep));
        r.push(spread_shared(&v.bias.data, 1, n_kv, hd, n_rep));
        r.push(params::copied(&self.attn.c_proj.weight.data));
        r.push(params::copied(&self.attn.c_proj.bias.data));
        assert(contents(r@) =~= attention_slots(self@, d as int));
        r
    }

    /// What the kernel reads for the feed-forward layer of this block, slot by slot.
    pub fn ffn_slots(&self, d: usize) -> (r: Vec<Vec<u32>>)
        requires
            ffn_fits(self@, d),
        ensures
            contents(r@) == ffn_slots(self@, d as int),
    {
        let mut r: Vec<Vec<u32>> = Vec::new();
        r.push(params::copied(&self.ln2.norm_params().0.data));
        r.push(shift_or_zeros(&self.ln2, d));
        match self.ffn.gelu_weights() {
            Some(w) => {
                r.push(params::copied(&w.0.data));
                r.push(params::copied(&w.1.data));
                r.push(params::copied(&w.2.data));
                r.push(params::copied(&w.3.data));
            },
            None => {},
        }
        assert(contents(r@) =~= ffn_slots(self@, d as int));
        r
    }

    /// What the kernel reads for this block, slot by slot.
    pub fn stack_slots(&self, d: usize) -> (r: Vec<Vec<u32>>)
        requires
            block_fits(self@, d),
        ensures
            contents(r@) == slots(self@, d as int),
    {
        let mut r: Vec<Vec<u32>> = self.attention_slots(d);
        let mut more: Vec<Vec<u32>> = self.ffn_slots(d);
        assert(contents(r@ + more@) =~= contents(r@) + contents(more@));
        r.append(&mut more);
        r
    }
}

/// What a fused attention layer is called with, besides its input and mask: its slots, the shape of
/// the input, and how it normalises.
#[derive(Debug)]
pub struct AttnLayerArgs {
    pub slots: Vec<Vec<u32>>,
    pub b: usize,
    pub t: usize,
    pub d: usize,
    pub n_head: usize,
    pub eps: u32,
    pub is_rms: bool,
    pub dropout: u32,
}

/// What a fused feed-forward layer is called with, besides its input.
#[derive(Debug)]
pub struct MlpLayerArgs {
    pub slots: Vec<Vec<u32>>,
    pub rows: usize,
    pub d: usize,
    pub hidden: usize,
    pub eps: u32,
    pub is_rms: bool,
    pub dropout: u32,
}

impl TransformerBlock {
    /// What the fused attention of this block is called with for an input of a shape, or nothing
    /// where it cannot run fused.
    pub fn attn_resident(&self, grad_enabled: bool, shape: &[usize]) -> (r: Option<AttnLayerArgs>)
        requires
            shape@.len() == 3 ==> {
                let d = shape@[2];
                &&& d > 0
                &&& d * d <= usize::MAX
                &&& self@.ln1.wf(d)
                &&& self@.attn.wf(d)
            },
        ensures
            r is Some <==> attention_fuses(self@.attn, grad_enabled, shape@.len() as int),
            r matches Some(a) ==> {
                &&& contents(a.slots@) == attention_slots(self@, shape@[2] as int)
                &&& (a.b, a.t, a.d) == (shape@[0], shape@[1], shape@[2])
                &&& a.n_head == self@.attn.n_head
                &&& a.eps == self@.ln1.eps
                &&& a.is_rms == (self@.ln1.beta is None)
                &&& a.dropout == self@.dropout
            },
    {
        if !grad_enabled || self.attn.has_lora() || self.attn.has_quant() {
            return None;
        }
        if !self.attn.rope.is_plain() || shape.len() != 3 {
            return None;
        }
        let (b, t, d): (usize, usize, usize) = (shape[0], shape[1], shape[2]);
        let norm = self.ln1.norm_params();
        Some(
            AttnLayerArgs {
                slots: self.attention_slots(d),
                b,
                t,
                d,
                n_head: self.attn.n_head,
                eps: norm.2,
                is_rms: norm.3,
                dropout: self.dropout,
            },
        )
    }

    /// What the fused feed-forward layer of this block is called with for an input of a shape, or
    /// nothing where it cannot run fused.
    pub fn mlp_resident(&self, grad_enabled: bool, shape: &[usize]) -> (r: Option<MlpLayerArgs>)
        requires
            shape@.len() == 3 ==> {
                let d = shape@[2];
                &&& shape@[0] * shape@[1] <= usize::MAX
                &&& self@.ln2.wf(d)
                &&& self@.ffn.wf(d)
            },
        ensures
            r is Some <==> ffn_fuses(self@.ffn, grad_enabled, shape@.len() as int),
            r matches Some(m) ==> {
                &&& contents(m.slots@) == ffn_slots(self@, shape@[2] as int)
                &&& m.rows == shape@[0] * shape@[1]
                &&& m.d == shape@[2]
                &&& m.hidden == self@.ffn->Dense_0->first.outputs()
                &&& m.eps == self@.ln2.eps
                &&& m.is_rms == (self@.ln2.beta is None)
                &&& m.dropout == self@.dropout
            },
    {
        if !grad_enabled || self.ffn.has_lora() || self.ffn.has_quant() || shape.len() != 3 {
            return None;
        }
        let (b, t, d): (usize, usize, usize) = (shape[0], shape[1], shape[2]);
        let hidden: usize = match self.ffn.gelu_weights() {
            Some(w) => w.0.shape[1],
            None => return None,
        };
        let norm = self.ln2.norm_params();
        Some(
            MlpLayerArgs {
                slots: self.ffn_slots(d),
                rows: b * t,
                d,
                hidden,
                eps: norm.2,
                is_rms: norm.3,
                dropout: self.dropout,
            },
        )
    }
}

fn accumulate_norm(n: &mut NormLayer, g: &Vec<u32>, s: &Vec<u32>)
    requires
        old(n)@.gamma.grad.len() == g@.len(),
        old(n)@.beta matches Some(b) ==> b.grad.len() == s@.len(),
    ensures
        final(n)@ == norm_accumulated(old(n)@, g@, s@),
{
    match n {
        NormLayer::LN(l) => {
            accumulate(&mut l.gamma, g);
            accumulate(&mut l.beta, s);
        },
        NormLayer::RMS(l) => {
            accumulate(&mut l.gamma, g);
        },
    }
}

fn accumulate_layer(l: &mut Linear, w: &Vec<u32>, b: &Vec<u32>)
    requires
        old(l)@.weight.grad.len() == w@.len(),
        old(l)@.bias.grad.len() == b@.len(),
    ensures
        final(l)@ == layer_accumulated(old(l)@, w@, b@),
{
    accumulate(&mut l.weight, w);
    accumulate(&mut l.bias, b);
}

/// Sizes of folded gradients.
proof fn lemma_gathered_sizes(g: Seq<u32>, rows: int, a: AttnView, d: usize)
    requires
        a.wf(d),
        d > 0,
        d * d <= usize::MAX,
        rows >= 0,
        g.len() == rows * d,
    ensures
        gather_heads(g, rows, a, d as int).len() == rows * (a.n_kv_head * head_width(
            a,
            d as int,
        )),
{
    lemma_heads(a, d);
    let w = a.n_kv_head * head_width(a, d as int);
    assert(rows * w >= 0) by (nonlinear_arith)
        requires
            rows >= 0,
            w >= 0,
    ;
}

impl TransformerBlock {
    /// Adds the gradients of the fused attention to its parameters, slot by slot.
    #[verifier::rlimit(60)]
    pub fn accept_attention(&mut self, g: &[Vec<u32>], d: usize)
        requires
            attention_fits(old(self)@, d),
            sizes_match(attention_slots(old(self)@, d as int), g@),
        ensures
            final(self)@ == attention_accumulated(old(self)@, contents(g@), d as int),
            final(self).record() == old(self).record(),
    {
        let ghost b = self@;
        let ghost a = self@.attn;
        let n_kv: usize = self.attn.n_kv_head;
        proof {
            lemma_heads(a, d);
            assert forall|k: int| 0 <= k < 10 implies (#[trigger] g@[k])@.len() == attention_slots(
                b,
                d as int,
            )[k].len() && contents(g@)[k] == g@[k]@ by {}
        }
        let n_rep: usize = self.attn.n_head / n_kv;
        let hd: usize = d / self.attn.n_head;
        proof {
            let w = n_kv * hd;
            assert(1 * w == w);
            let x = n_kv * n_rep * hd;
            assert(1 * x == x);
            lemma_gathered_sizes(g@[4]@, d as int, a, d);
            lemma_gathered_sizes(g@[5]@, 1, a, d);
            lemma_gathered_sizes(g@[6]@, d as int, a, d);
            lemma_gathered_sizes(g@[7]@, 1, a, d);
        }
        let kw: Vec<u32> = gather_shared(&g[4], d, n_kv, hd, n_rep);
        let kb: Vec<u32> = gather_shared(&g[5], 1, n_kv, hd, n_rep);
        let vw: Vec<u32> = gather_shared(&g[6], d, n_kv, hd, n_rep);
        let vb: Vec<u32> = gather_shared(&g[7], 1, n_kv, hd, n_rep);
        accumulate_norm(&mut self.ln1, &g[0], &g[1]);
        accumulate_layer(&mut self.attn.c_q, &g[2], &g[3]);
        accumulate_layer(&mut self.attn.c_k, &kw, &kb);
        accumulate_layer(&mut self.attn.c_v, &vw, &vb);
        accumulate_layer(&mut self.attn.c_proj, &g[8], &g[9]);
    }

    /// Adds the gradients of the fused feed-forward layer to its parameters, slot by slot.
    pub fn accept_ffn(&mut self, g: &[Vec<u32>], d: usize)
        requires
            ffn_fits(old(self)@, d),
            sizes_match(ffn_slots(old(self)@, d as int), g@),
        ensures
            final(self)@ == ffn_accumulated(old(self)@, contents(g@)),
            final(self).record() == old(self).record(),
    {
        proof {
            assert forall|k: int| 0 <= k < 6 implies (#[trigger] g@[k])@.len() == ffn_slots(
                self@,
                d as int,
            )[k].len() && contents(g@)[k] == g@[k]@ by {}
        }
        accumulate_norm(&mut self.ln2, &g[0], &g[1]);
        match &mut self.ffn {
            Ffn::Dense(MLPEnum::GELU { linear1, linear2 }) => {
                accumulate_layer(linear1, &g[2], &g[3]);
                accumulate_layer(linear2, &g[4], &g[5]);
            },
            _ => {},
        }
    }

    /// Adds the kernel's gradients to the parameters of this block, slot by slot.
    pub fn accept_slots(&mut self, g: &Vec<Vec<u32>>, d: usize)
        requires
            block_fits(old(self)@, d),
            sizes_match(slots(old(self)@, d as int), g@),
        ensures
            final(self)@ == block_accumulated(old(self)@, contents(g@), d as int),
            final(self).record() == old(self).record(),
    {
        let ghost s = slots(self@, d as int);
        let first: &[Vec<u32>] = vstd::slice::slice_subrange(g.as_slice(), 0, ATTENTION_SLOTS);
        let second: &[Vec<u32>] = vstd::slice::slice_subrange(
            g.as_slice(),
            ATTENTION_SLOTS,
            STACK_PARAMS_PER_LAYER,
        );
        proof {
            assert(contents(first@) =~= contents(g@).take(10));
            assert(contents(second@) =~= contents(g@).skip(10));
            assert forall|k: int| 0 <= k < 10 implies (#[trigger] first@[k])@.len()
                == attention_slots(self@, d as int)[k].len() by {
                assert(g@[k]@.len() == s[k].len());
            }
            assert forall|k: int| 0 <= k < 6 implies (#[trigger] second@[k])@.len() == ffn_slots(
                self@,
                d as int,
            )[k].len() by {
                assert(g@[k + 10]@.len() == s[k + 10].len());
            }
        }
        self.accept_attention(first, d);
        self.accept_ffn(second, d);
    }
}

/// What the kernel reads for the first `n` blocks.
pub open spec fn stack_slots(bs: Seq<BlockView>, d: int, n: nat) -> Seq<Seq<u32>>
    decreases n,
{
    if n == 0 {
        Seq::empty()
    } else {
        stack_slots(bs, d, (n - 1) as nat) + slots(bs[n - 1], d)
    }
}

/// Slot `k` of block `i` stands at `16 i + k`.
pub proof fn slots_are_in_order(bs: Seq<BlockView>, d: int, n: nat, i: int, k: int)
    requires
        0 <= i < n <= bs.len(),
        0 <= k < 16,
    ensures
        stack_slots(bs, d, n).len() == 16 * n,
        stack_slots(bs, d, n)[16 * i + k] == slots(bs[i], d)[k],
    decreases n,
{
    lemma_stack_length(bs, d, (n - 1) as nat);
    if i < n - 1 {
        slots_are_in_order(bs, d, (n - 1) as nat, i, k);
    }
}

proof fn lemma_stack_length(bs: Seq<BlockView>, d: int, n: nat)
    ensures
        stack_slots(bs, d, n).len() == 16 * n,
    decreases n,
{
    if n > 0 {
        lemma_stack_length(bs, d, (n - 1) as nat);
    }
}

/// What a fused stack is called with, besides its input and mask.
#[derive(Debug)]
pub struct StackArgs {
    pub slots: Vec<Vec<u32>>,
    pub b: usize,
    pub t: usize,
    pub d: usize,
    pub n_head: usize,
    pub eps: u32,
    pub is_rms: bool,
    pub dropout: u32,
}

impl GPT {
    /// What the fused stack is called with for `b` sequences of `t` tokens, or nothing where the
    /// stack cannot run fused.
    pub fn blocks_resident(&self, grad_enabled: bool, b: usize, t: usize) -> (r: Option<StackArgs>)
        requires
            self@.wf(),
            self@.cfg.n_embd > 0,
            self@.cfg.n_embd * self@.cfg.n_embd <= usize::MAX,
        ensures
            r is Some <==> stack_fuses(self@, grad_enabled),
            r matches Some(s) ==> {
                &&& contents(s.slots@) == stack_slots(
                    self@.blocks,
                    self@.cfg.n_embd as int,
                    self@.blocks.len(),
                )
                &&& (s.b, s.t, s.d, s.n_head) == (b, t, self@.cfg.n_embd, self@.cfg.n_head)
                &&& s.eps == self@.blocks[0].ln1.eps
                &&& s.is_rms == (self@.blocks[0].ln1.beta is None)
                &&& s.dropout == self@.dropout
            },
    {
        if !grad_enabled || self.blocks.len() == 0 || self.has_lora() || self.has_quant() {
            return None;
        }
        let d: usize = self.cfg.n_embd;
        let n: usize = self.blocks.len();
        let mut all: Vec<Vec<u32>> = Vec::new();
        assert(contents(all@) =~= Seq::empty());
        for i in 0..n
            invariant
                n == self.blocks@.len(),
                self@.wf(),
                d == self@.cfg.n_embd,
                d > 0,
                d * d <= usize::MAX,
                !self@.has_quant(),
                contents(all@) == stack_slots(self@.blocks, d as int, i as nat),
                forall|j: int| 0 <= j < i ==> kernel_knows(#[trigger] self@.blocks[j]),
        {
            assert(self@.blocks[i as int] == self.blocks@[i as int]@);
            assert(self@.blocks[i as int].wf(d));
            assert(!self@.blocks[i as int].has_quant());
            if !self.blocks[i].attn.rope.is_plain() || self.blocks[i].ffn.gelu_weights().is_none() {
                assert(!kernel_knows(self@.blocks[i as int]));
                return None;
            }
            let mut more: Vec<Vec<u32>> = self.blocks[i].stack_slots(d);
            assert(contents(all@ + more@) =~= contents(all@) + contents(more@));
            all.append(&mut more);
        }
        let norm = self.blocks[0].ln1.norm_params();
        Some(
            StackArgs {
                slots: all,
                b,
                t,
                d,
                n_head: self.cfg.n_head,
                eps: norm.2,
                is_rms: norm.3,
                dropout: self.dropout,
            },
        )
    }

    /// Adds the kernel's gradients to the parameters of all blocks; `grads` holds the slots of
    /// every block in turn.
    pub fn accept_stack_grads(&mut self, grads: &Vec<Vec<Vec<u32>>>)
        requires
            old(self)@.wf(),
            old(self)@.cfg.n_embd > 0,
            old(self)@.cfg.n_embd * old(self)@.cfg.n_embd <= usize::MAX,
            stack_fuses(old(self)@, true),
            grads@.len() == old(self)@.blocks.len(),
            forall|i: int|
                0 <= i < grads@.len() ==> sizes_match(
                    slots(old(self)@.blocks[i], old(self)@.cfg.n_embd as int),
                    (#[trigger] grads@[i])@,
                ),
        ensures
            final(self)@ == (ModelView {
                blocks: Seq::new(
                    old(self)@.blocks.len(),
                    |i: int|
                        block_accumulated(
                            old(self)@.blocks[i],
                            contents(grads@[i]@),
                            old(self)@.cfg.n_embd as int,
                        ),
                ),
                ..old(self)@
            }),
            block::records(final(self).blocks@) == block::records(old(self).blocks@),
    {
        let ghost before = self@;
        let ghost kept = block::records(self.blocks@);
        let d: usize = self.cfg.n_embd;
        let n: usize = self.blocks.len();
        for i in 0..n
            invariant
                n == self.blocks@.len(),
                kept == block::records(self.blocks@),
                n == before.blocks.len(),
                n == grads@.len(),
                d == before.cfg.n_embd,
                d > 0,
                d * d <= usize::MAX,
                before.wf(),
                stack_fuses(before, true),
                self.cfg == before.cfg,
                self.tok_emb.table@ == before.table,
                self.ln_f@ == before.ln_f,
                self.lora == before.lora,
                self.quant == before.quant,
                self.dropout == before.dropout,
                forall|j: int|
                    0 <= j < n ==> sizes_match(
                        slots(before.blocks[j], d as int),
                        (#[trigger] grads@[j])@,
                    ),
                forall|j: int| i <= j < n ==> (#[trigger] self.blocks@[j])@ == before.blocks[j],
                forall|j: int|
                    0 <= j < i ==> (#[trigger] self.blocks@[j])@ == block_accumulated(
                        before.blocks[j],
                        contents(grads@[j]@),
                        d as int,
                    ),
        {
            proof {
                assert(self.blocks@[i as int]@ == before.blocks[i as int]);
                assert(before.blocks[i as int].wf(d));
                assert(!before.blocks[i as int].has_quant());
                assert(kernel_knows(before.blocks[i as int]));
                assert(sizes_match(slots(before.blocks[i as int], d as int), grads@[i as int]@));
            }
            self.blocks[i].accept_slots(&grads[i], d);
            assert(kept =~= block::records(self.blocks@));
        }
        assert(self@.blocks =~= Seq::new(
            before.blocks.len(),
            |i: int|
                block_accumulated(before.blocks[i], contents(grads@[i]@), before.cfg.n_embd as int),
        ));
    }
}

/// Gradients change no parameter: only the gradients differ after they were accepted.
pub proof fn gradients_change_no_value(p: ParamView, g: Seq<u32>)
    ensures
        accumulated(p, g).data == p.data,
        accumulated(p, g).shape == p.shape,
        accumulated(p, g).requires_grad == p.requires_grad,
{
}

} // verus!
