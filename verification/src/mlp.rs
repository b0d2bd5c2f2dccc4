//! Feed-forward blocks: two layers with an activation between them, or three with a gate.

use crate::config::LoRAConfig;
use crate::float_bits::ONE_BITS;
use crate::layers;
use crate::layers::{Linear, LinearView, LoraView, MLP_RATIO};
use crate::matrix;
use crate::params;
use crate::params::{Module, Param, ParamView};
use crate::roots;
use crate::rounding;
use crate::text;
use vstd::prelude::*;
use vstd::slice::slice_subrange;

verus! {

/// A layer made from the draws on the tape at `pos`.
pub open spec fn drawn_linear(i: usize, o: usize, tape: Seq<u32>, pos: int) -> LinearView {
    LinearView {
        weight: params::fresh(
            layers::xavier(tape.subrange(pos, pos + i * o), i as int, o as int),
            seq![i, o],
        ),
        bias: params::fresh(params::zeros(o as nat), seq![o]),
        lora: None,
        quant: None,
    }
}

/// Makes a layer from the draws at `pos`.
pub fn draw_linear(i: usize, o: usize, tape: &[u32], pos: usize) -> (l: Linear)
    requires
        i + o <= usize::MAX,
        pos + i * o <= tape@.len(),
        tape@.len() <= usize::MAX,
    ensures
        l@ == drawn_linear(i, o, tape@, pos as int),
        l@.wf(),
        l@.inputs() == i,
        l@.outputs() == o,
{
    assert(0 <= i * o) by (nonlinear_arith)
        requires
            i >= 0,
            o >= 0,
    ;
    let n: usize = i * o;
    Linear::new(i, o, slice_subrange(tape, pos, pos + n))
}

/// The scale of the first matrix of a fresh adapter.
pub open spec fn adapter_spread(rank: usize) -> u32 {
    rounding::quotient(ONE_BITS, roots::root(rounding::count_value(rank as int)))
}

/// A layer with a fresh adapter from the draws at `pos`, where it is a target.
pub open spec fn adapted(
    l: LinearView,
    target: bool,
    lora: LoRAConfig,
    tape: Seq<u32>,
    pos: int,
) -> LinearView {
    if target {
        LinearView {
            lora: Some(
                LoraView {
                    a: params::fresh(
                        matrix::times(
                            tape.subrange(pos, pos + lora.rank * l.inputs()),
                            adapter_spread(lora.rank),
                        ),
                        seq![lora.rank, l.inputs()],
                    ),
                    b: params::fresh(
                        params::zeros((l.outputs() * lora.rank) as nat),
                        seq![l.outputs(), lora.rank],
                    ),
                    rank: lora.rank,
                    alpha: lora.alpha,
                },
            ),
            ..l
        }
    } else {
        l
    }
}

/// Where the tape stands after a layer took its draws.
pub open spec fn after_adapting(l: LinearView, target: bool, lora: LoRAConfig, pos: int) -> int {
    if target {
        pos + lora.rank * l.inputs()
    } else {
        pos
    }
}

/// Whether a layer is small enough for an adapter of this rank.
pub open spec fn adaptable(l: LinearView, lora: LoRAConfig) -> bool {
    &&& l.wf()
    &&& l.outputs() * lora.rank <= usize::MAX
}

/// Gives a target layer a fresh adapter; returns where the tape stands.
pub fn adapt(
    l: &mut Linear,
    target: bool,
    lora: &LoRAConfig,
    tape: &[u32],
    pos: usize,
) -> (next: usize)
    requires
        adaptable(old(l)@, *lora),
        lora.rank >= 1,
        after_adapting(old(l)@, target, *lora, pos as int) <= tape@.len(),
        tape@.len() <= usize::MAX,
    ensures
        final(l)@ == adapted(old(l)@, target, *lora, tape@, pos as int),
        final(l)@.wf(),
        final(l)@.inputs() == old(l)@.inputs(),
        final(l)@.outputs() == old(l)@.outputs(),
        next == after_adapting(old(l)@, target, *lora, pos as int),
{
    if !target {
        return pos;
    }
    let d: (usize, usize) = l.dims();
    let rank: usize = lora.rank;
    assert(0 <= rank * d.0) by (nonlinear_arith)
        requires
            rank >= 0,
            d.0 >= 0,
    ;
    let n: usize = rank * d.0;
    l.attach_lora(rank, lora.alpha, slice_subrange(tape, pos, pos + n));
    pos + n
}

/// A gated block: `down(silu(gate(x)) * up(x))`.
#[derive(Debug)]
pub struct SwiGLUMLP {
    pub w_gate: Linear,
    pub w_up: Linear,
    pub w_down: Linear,
}

/// A feed-forward block of either kind.
#[derive(Debug)]
pub enum MLPEnum {
    GELU { linear1: Linear, linear2: Linear },
    SwiGLU(SwiGLUMLP),
}

/// What a feed-forward block holds.
#[verifier::ext_equal]
pub enum MlpView {
    Plain { first: LinearView, second: LinearView },
    Gated { gate: LinearView, up: LinearView, down: LinearView },
}

impl View for SwiGLUMLP {
    type V = MlpView;

    open spec fn view(&self) -> MlpView {
        MlpView::Gated { gate: self.w_gate@, up: self.w_up@, down: self.w_down@ }
    }
}

impl View for MLPEnum {
    type V = MlpView;

    open spec fn view(&self) -> MlpView {
        match self {
            MLPEnum::GELU { linear1, linear2 } => MlpView::Plain {
                first: linear1@,
                second: linear2@,
            },
            MLPEnum::SwiGLU(s) => s@,
        }
    }
}

impl MlpView {
    /// The layers fit together and map the width `d` to itself.
    pub open spec fn wf(self, d: usize) -> bool {
        match self {
            MlpView::Plain { first, second } => {
                &&& first.wf()
                &&& second.wf()
                &&& first.inputs() == d
                &&& second.inputs() == first.outputs()
                &&& second.outputs() == d
            },
            MlpView::Gated { gate, up, down } => {
                &&& gate.wf()
                &&& up.wf()
                &&& down.wf()
                &&& gate.inputs() == d
                &&& up.inputs() == d
                &&& up.outputs() == gate.outputs()
                &&& down.inputs() == gate.outputs()
                &&& down.outputs() == d
            },
        }
    }

    /// The layers under their names.
    pub open spec fn linears(self, prefix: Seq<char>) -> Seq<(Seq<char>, LinearView)> {
        match self {
            MlpView::Plain { first, second } => seq![
                (prefix + ".mlp_linear1"@, first),
                (prefix + ".mlp_linear2"@, second),
            ],
            MlpView::Gated { gate, up, down } => seq![
                (prefix + ".w_gate"@, gate),
                (prefix + ".w_up"@, up),
                (prefix + ".w_down"@, down),
            ],
        }
    }

    pub open spec fn params(self) -> Seq<ParamView> {
        match self {
            MlpView::Plain { first, second } => first.params() + second.params(),
            MlpView::Gated { gate, up, down } => gate.params() + up.params() + down.params(),
        }
    }

    pub open spec fn named(self, prefix: Seq<char>) -> Seq<(Seq<char>, ParamView)> {
        match self {
            MlpView::Plain { first, second } => first.named(prefix + ".mlp_linear1"@)
                + second.named(prefix + ".mlp_linear2"@),
            MlpView::Gated { gate, up, down } => gate.named(prefix + ".w_gate"@) + up.named(
                prefix + ".w_up"@,
            ) + down.named(prefix + ".w_down"@),
        }
    }

    /// The adapters' parameters.
    pub open spec fn adapter_params(self) -> Seq<ParamView> {
        match self {
            MlpView::Plain { first, second } => first.adapter_params() + second.adapter_params(),
            MlpView::Gated { gate, up, down } => gate.adapter_params() + up.adapter_params()
                + down.adapter_params(),
        }
    }

    pub open spec fn has_lora(self) -> bool {
        match self {
            MlpView::Plain { first, second } => first.lora is Some || second.lora is Some,
            MlpView::Gated { gate, up, down } => gate.lora is Some || up.lora is Some
                || down.lora is Some,
        }
    }

    pub open spec fn has_quant(self) -> bool {
        match self {
            MlpView::Plain { first, second } => first.quant is Some || second.quant is Some,
            MlpView::Gated { gate, up, down } => gate.quant is Some || up.quant is Some
                || down.quant is Some,
        }
    }

    pub open spec fn merged(self) -> MlpView {
        match self {
            MlpView::Plain { first, second } => MlpView::Plain {
                first: first.merged(),
                second: second.merged(),
            },
            MlpView::Gated { gate, up, down } => MlpView::Gated {
                gate: gate.merged(),
                up: up.merged(),
                down: down.merged(),
            },
        }
    }

    pub open spec fn dequantized(self) -> MlpView {
        match self {
            MlpView::Plain { first, second } => MlpView::Plain {
                first: first.dequantized(),
                second: second.dequantized(),
            },
            MlpView::Gated { gate, up, down } => MlpView::Gated {
                gate: gate.dequantized(),
                up: up.dequantized(),
                down: down.dequantized(),
            },
        }
    }

    pub open spec fn cleared(self) -> MlpView {
        match self {
            MlpView::Plain { first, second } => MlpView::Plain {
                first: first.cleared(),
                second: second.cleared(),
            },
            MlpView::Gated { gate, up, down } => MlpView::Gated {
                gate: gate.cleared(),
                up: up.cleared(),
                down: down.cleared(),
            },
        }
    }

    pub open spec fn marked(self, on: bool) -> MlpView {
        match self {
            MlpView::Plain { first, second } => MlpView::Plain {
                first: first.marked(on),
                second: second.marked(on),
            },
            MlpView::Gated { gate, up, down } => MlpView::Gated {
                gate: gate.marked(on),
                up: up.marked(on),
                down: down.marked(on),
            },
        }
    }

    /// The block with its adapters as the only trainable part.
    pub open spec fn tuned(self) -> MlpView {
        match self {
            MlpView::Plain { first, second } => MlpView::Plain {
                first: first.tuned(),
                second: second.tuned(),
            },
            MlpView::Gated { gate, up, down } => MlpView::Gated {
                gate: gate.tuned(),
                up: up.tuned(),
                down: down.tuned(),
            },
        }
    }

    /// All layers with fresh adapters.
    pub open spec fn adapted(self, lora: LoRAConfig, tape: Seq<u32>, pos: int) -> MlpView {
        match self {
            MlpView::Plain { first, second } => {
                let p1 = after_adapting(first, true, lora, pos);
                MlpView::Plain {
                    first: adapted(first, true, lora, tape, pos),
                    second: adapted(second, true, lora, tape, p1),
                }
            },
            MlpView::Gated { gate, up, down } => {
                let p1 = after_adapting(gate, true, lora, pos);
                let p2 = after_adapting(up, true, lora, p1);
                MlpView::Gated {
                    gate: adapted(gate, true, lora, tape, pos),
                    up: adapted(up, true, lora, tape, p1),
                    down: adapted(down, true, lora, tape, p2),
                }
            },
        }
    }

    /// Where the tape stands after all layers took their draws.
    pub open spec fn after_adapting(self, lora: LoRAConfig, pos: int) -> int {
        match self {
            MlpView::Plain { first, second } => after_adapting(
                second,
                true,
                lora,
                after_adapting(first, true, lora, pos),
            ),
            MlpView::Gated { gate, up, down } => after_adapting(
                down,
                true,
                lora,
                after_adapting(up, true, lora, after_adapting(gate, true, lora, pos)),
            ),
        }
    }

    /// Whether all layers are small enough for adapters of this rank.
    pub open spec fn adaptable(self, lora: LoRAConfig) -> bool {
        match self {
            MlpView::Plain { first, second } => adaptable(first, lora) && adaptable(second, lora),
            MlpView::Gated { gate, up, down } => adaptable(gate, lora) && adaptable(up, lora)
                && adaptable(down, lora),
        }
    }
}

/// A fresh block from the draws at `pos`.
pub open spec fn drawn_mlp(d: usize, gated: bool, tape: Seq<u32>, pos: int) -> MlpView {
    if gated {
        let h = layers::gated_width(d as int) as usize;
        MlpView::Gated {
            gate: drawn_linear(d, h, tape, pos),
            up: drawn_linear(d, h, tape, pos + d * h),
            down: drawn_linear(h, d, tape, pos + d * h + d * h),
        }
    } else {
        let h = (MLP_RATIO * d) as usize;
        MlpView::Plain {
            first: drawn_linear(d, h, tape, pos),
            second: drawn_linear(h, d, tape, pos + d * h),
        }
    }
}

/// The draws that a fresh block takes: one per weight.
pub open spec fn mlp_draws(d: usize, gated: bool) -> int {
    if gated {
        let h = layers::gated_width(d as int);
        d * h + d * h + h * d
    } else {
        d * (4 * d) + (4 * d) * d
    }
}

/// Names and contents of a list of named layers.
pub open spec fn layer_listing(ls: Seq<(String, &Linear)>) -> Seq<(Seq<char>, LinearView)> {
    Seq::new(ls.len(), |i: int| (ls[i].0@, ls[i].1@))
}

/// The names and views of layers that may be changed, as they are.
pub open spec fn mutable_listing(ls: Seq<(String, &mut Linear)>) -> Seq<
    (Seq<char>, LinearView),
> {
    Seq::new(ls.len(), |i: int| (ls[i].0@, (*ls[i].1)@))
}

/// Adds the named layers of `more`.
pub fn extend_layers<'a>(ls: &mut Vec<(String, &'a Linear)>, more: Vec<(String, &'a Linear)>)
    ensures
        layer_listing(final(ls)@) == layer_listing(old(ls)@) + layer_listing(more@),
{
    let mut more: Vec<(String, &'a Linear)> = more;
    assert(layer_listing(ls@ + more@) =~= layer_listing(ls@) + layer_listing(more@));
    ls.append(&mut more);
}

impl SwiGLUMLP {
    /// The three layers under their names.
    pub fn named_linears(&self, prefix: &str) -> (ls: Vec<(String, &Linear)>)
        ensures
            layer_listing(ls@) == self@.linears(prefix@),
    {
        let ls: Vec<(String, &Linear)> = vec![
            (text::joined(prefix, ".w_gate"), &self.w_gate),
            (text::joined(prefix, ".w_up"), &self.w_up),
            (text::joined(prefix, ".w_down"), &self.w_down),
        ];
        assert(layer_listing(ls@) =~= self@.linears(prefix@));
        ls
    }

    /// The three layers under their names, to be changed.
    pub fn named_linears_mut(&mut self, prefix: &str) -> (ls: Vec<(String, &mut Linear)>)
        ensures
            mutable_listing(ls@) == old(self)@.linears(prefix@),
            *final(self) == (SwiGLUMLP {
                w_gate: *final(ls@[0].1),
                w_up: *final(ls@[1].1),
                w_down: *final(ls@[2].1),
            }),
    {
        let mut ls: Vec<(String, &mut Linear)> = Vec::new();
        ls.push((text::joined(prefix, ".w_gate"), &mut self.w_gate));
        ls.push((text::joined(prefix, ".w_up"), &mut self.w_up));
        ls.push((text::joined(prefix, ".w_down"), &mut self.w_down));
        assert(mutable_listing(ls@) =~= old(self)@.linears(prefix@));
        ls
    }
}

impl Module for SwiGLUMLP {
    open spec fn param_views(&self) -> Seq<ParamView> {
        self@.params()
    }

    fn parameters(&self) -> (ps: Vec<&Param>) {
        let mut ps: Vec<&Param> = self.w_gate.parameters();
        params::extend_params(&mut ps, self.w_up.parameters());
        params::extend_params(&mut ps, self.w_down.parameters());
        assert(params::views(ps@) =~= self.param_views());
        ps
    }

    fn zero_grad(&mut self)
        ensures
            final(self)@ == old(self)@.cleared(),
    {
        proof {
            let (a, b, c) = (
                old(self).w_gate@.params(),
                old(self).w_up@.params(),
                old(self).w_down@.params(),
            );
            params::changes_of_concat(a, b, true);
            params::changes_of_concat(a + b, c, true);
        }
        self.w_gate.zero_grad();
        self.w_up.zero_grad();
        self.w_down.zero_grad();
    }

    fn set_requires_grad(&mut self, on: bool)
        ensures
            final(self)@ == old(self)@.marked(on),
    {
        proof {
            let (a, b, c) = (
                old(self).w_gate@.params(),
                old(self).w_up@.params(),
                old(self).w_down@.params(),
            );
            params::changes_of_concat(a, b, on);
            params::changes_of_concat(a + b, c, on);
        }
        self.w_gate.set_requires_grad(on);
        self.w_up.set_requires_grad(on);
        self.w_down.set_requires_grad(on);
    }
}

/// Whether `hidden` is what `act` may make of `pre`, element by element.
pub open spec fn activated<F: Fn(u32) -> u32>(act: &F, pre: Seq<u32>, hidden: Seq<u32>) -> bool {
    &&& hidden.len() == pre.len()
    &&& forall|p: int|
        0 <= p < pre.len() ==> call_ensures(act, (pre[p],), #[trigger] hidden[p])
}

/// Whether `hidden` is what `act` may make of `gate` and `up`, element by element.
pub open spec fn gated<F: Fn(u32, u32) -> u32>(
    act: &F,
    gate: Seq<u32>,
    up: Seq<u32>,
    hidden: Seq<u32>,
) -> bool {
    &&& hidden.len() == gate.len()
    &&& forall|p: int|
        0 <= p < gate.len() ==> call_ensures(act, (gate[p], up[p]), #[trigger] hidden[p])
}

/// Applies an activation to every element.
pub fn activate<F: Fn(u32) -> u32>(act: &F, pre: &Vec<u32>) -> (hidden: Vec<u32>)
    requires
        forall|v: u32| call_requires(act, (v,)),
    ensures
        activated(act, pre@, hidden@),
{
    let mut hidden: Vec<u32> = Vec::new();
    for p in 0..pre.len()
        invariant
            forall|v: u32| call_requires(act, (v,)),
            hidden@.len() == p,
            forall|q: int| 0 <= q < p ==> call_ensures(act, (pre@[q],), #[trigger] hidden@[q]),
    {
        hidden.push(act(pre[p]));
    }
    hidden
}

/// Applies a gate to every pair of elements.
pub fn gate_all<F: Fn(u32, u32) -> u32>(act: &F, gate: &Vec<u32>, up: &Vec<u32>) -> (hidden: Vec<
    u32,
>)
    requires
        gate@.len() == up@.len(),
        forall|v: u32, w: u32| call_requires(act, (v, w)),
    ensures
        gated(act, gate@, up@, hidden@),
{
    let mut hidden: Vec<u32> = Vec::new();
    for p in 0..gate.len()
        invariant
            gate@.len() == up@.len(),
            forall|v: u32, w: u32| call_requires(act, (v, w)),
            hidden@.len() == p,
            forall|q: int|
                0 <= q < p ==> call_ensures(act, (gate@[q], up@[q]), #[trigger] hidden@[q]),
    {
        hidden.push(act(gate[p], up[p]));
    }
    hidden
}

/// Whether `n` rows of input keep every intermediate size in range.
pub open spec fn rows_fit(l: LinearView, n: int) -> bool {
    &&& n * l.outputs() <= usize::MAX
    &&& l.lora matches Some(a) ==> n * a.rank <= usize::MAX
}

/// Whether a block may answer `n` rows of input `x` with `y`, given its activations.
pub open spec fn produces<G: Fn(u32) -> u32, S: Fn(u32, u32) -> u32>(
    m: MlpView,
    gelu: &G,
    swiglu: &S,
    x: Seq<u32>,
    n: int,
    y: Seq<u32>,
) -> bool {
    match m {
        MlpView::Plain { first, second } => exists|hidden: Seq<u32>|
            #![trigger second.output(hidden, n)]
            activated(gelu, first.output(x, n), hidden) && y == second.output(hidden, n),
        MlpView::Gated { gate, up, down } => exists|hidden: Seq<u32>|
            #![trigger down.output(hidden, n)]
            gated(swiglu, gate.output(x, n), up.output(x, n), hidden) && y == down.output(
                hidden,
                n,
            ),
    }
}

/// Whether `n` rows of input keep every intermediate size of a block in range.
pub open spec fn block_fits(m: MlpView, n: int) -> bool {
    match m {
        MlpView::Plain { first, second } => rows_fit(first, n) && rows_fit(second, n),
        MlpView::Gated { gate, up, down } => rows_fit(gate, n) && rows_fit(up, n) && rows_fit(
            down,
            n,
        ),
    }
}

impl SwiGLUMLP {
    /// A fresh gated block.
    pub fn new(d: usize, tape: &[u32], pos: usize) -> (m: Self)
        requires
            8 * d + 2 <= usize::MAX,
            pos + mlp_draws(d, true) <= tape@.len(),
            tape@.len() <= usize::MAX,
        ensures
            m@ == drawn_mlp(d, true, tape@, pos as int),
            m@.wf(d),
    {
        let h: usize = layers::swiglu_hidden(d);
        proof {
            layers::gated_width_is_tight(d as int);
            assert(0 <= d * h && 0 <= h * d) by (nonlinear_arith)
                requires
                    d >= 0,
                    h >= 0,
            ;
        }
        let w_gate: Linear = draw_linear(d, h, tape, pos);
        let w_up: Linear = draw_linear(d, h, tape, pos + d * h);
        let w_down: Linear = draw_linear(h, d, tape, pos + d * h + d * h);
        SwiGLUMLP { w_gate, w_up, w_down }
    }

    /// Runs the block on `n` rows.
    pub fn forward<S: Fn(u32, u32) -> u32>(
        &self,
        x: &[u32],
        n: usize,
        d: usize,
        swiglu: &S,
    ) -> (y: Vec<u32>)
        requires
            self@.wf(d),
            x@.len() == n * d,
            forall|v: u32, w: u32| call_requires(swiglu, (v, w)),
            block_fits(self@, n as int),
        ensures
            exists|hidden: Seq<u32>|
                #![trigger self.w_down@.output(hidden, n as int)]
                gated(
                    swiglu,
                    self.w_gate@.output(x@, n as int),
                    self.w_up@.output(x@, n as int),
                    hidden,
                ) && y@ == self.w_down@.output(hidden, n as int),
            y@.len() == n * d,
    {
        let gate: Vec<u32> = self.w_gate.forward(x, n);
        let up: Vec<u32> = self.w_up.forward(x, n);
        let hidden: Vec<u32> = gate_all(swiglu, &gate, &up);
        let y: Vec<u32> = self.w_down.forward(&hidden, n);
        assert(y@ == self.w_down@.output(hidden@, n as int));
        y
    }
}

impl MLPEnum {
    /// A fresh block with an activation between two layers.
    pub fn new_gelu(d: usize, tape: &[u32], pos: usize) -> (m: Self)
        requires
            5 * d <= usize::MAX,
            pos + mlp_draws(d, false) <= tape@.len(),
            tape@.len() <= usize::MAX,
        ensures
            m@ == drawn_mlp(d, false, tape@, pos as int),
            m@.wf(d),
    {
        let h: usize = MLP_RATIO * d;
        proof {
            assert(0 <= d * h && 0 <= h * d) by (nonlinear_arith)
                requires
                    d >= 0,
                    h >= 0,
            ;
            assert(d * (4 * d) == d * h && (4 * d) * d == h * d) by (nonlinear_arith)
                requires
                    h == 4 * d,
            ;
        }
        let first: Linear = draw_linear(d, h, tape, pos);
        let second: Linear = draw_linear(h, d, tape, pos + d * h);
        MLPEnum::GELU { linear1: first, linear2: second }
    }

    /// A fresh gated block.
    pub fn new_swiglu(d: usize, tape: &[u32], pos: usize) -> (m: Self)
        requires
            8 * d + 2 <= usize::MAX,
            pos + mlp_draws(d, true) <= tape@.len(),
            tape@.len() <= usize::MAX,
        ensures
            m@ == drawn_mlp(d, true, tape@, pos as int),
            m@.wf(d),
    {
        MLPEnum::SwiGLU(SwiGLUMLP::new(d, tape, pos))
    }

    /// The output for `n` rows of input. The activations are handed in.
    pub fn forward<G: Fn(u32) -> u32, S: Fn(u32, u32) -> u32>(
        &self,
        x: &[u32],
        n: usize,
        d: usize,
        gelu: &G,
        swiglu: &S,
    ) -> (y: Vec<u32>)
        requires
            self@.wf(d),
            x@.len() == n * d,
            forall|v: u32| call_requires(gelu, (v,)),
            forall|v: u32, w: u32| call_requires(swiglu, (v, w)),
            block_fits(self@, n as int),
        ensures
            produces(self@, gelu, swiglu, x@, n as int, y@),
            y@.len() == n * d,
    {
        match self {
            MLPEnum::GELU { linear1, linear2 } => {
                let pre: Vec<u32> = linear1.forward(x, n);
                let hidden: Vec<u32> = activate(gelu, &pre);
                let y: Vec<u32> = linear2.forward(&hidden, n);
                assert(y@ == linear2@.output(hidden@, n as int));
                y
            },
            MLPEnum::SwiGLU(s) => {
                s.forward(x, n, d, swiglu)
            },
        }
    }

    /// The layers under their names.
    pub fn named_linears(&self, prefix: &str) -> (ls: Vec<(String, &Linear)>)
        ensures
            layer_listing(ls@) == self@.linears(prefix@),
    {
        match self {
            MLPEnum::GELU { linear1, linear2 } => {
                let ls: Vec<(String, &Linear)> = vec![
                    (text::joined(prefix, ".mlp_linear1"), linear1),
                    (text::joined(prefix, ".mlp_linear2"), linear2),
                ];
                assert(layer_listing(ls@) =~= self@.linears(prefix@));
                ls
            },
            MLPEnum::SwiGLU(s) => s.named_linears(prefix),
        }
    }

    /// All layers under their names, to be changed.
    pub fn named_linears_mut(&mut self, prefix: &str) -> (ls: Vec<(String, &mut Linear)>)
        ensures
            mutable_listing(ls@) == old(self)@.linears(prefix@),
            *final(self) == match *old(self) {
                MLPEnum::GELU { linear1, linear2 } => MLPEnum::GELU {
                    linear1: *final(ls@[0].1),
                    linear2: *final(ls@[1].1),
                },
                MLPEnum::SwiGLU(s) => MLPEnum::SwiGLU(
                    SwiGLUMLP {
                        w_gate: *final(ls@[0].1),
                        w_up: *final(ls@[1].1),
                        w_down: *final(ls@[2].1),
                    },
                ),
            },
    {
        match self {
            MLPEnum::GELU { linear1, linear2 } => {
                let mut ls: Vec<(String, &mut Linear)> = Vec::new();
                ls.push((text::joined(prefix, ".mlp_linear1"), linear1));
                ls.push((text::joined(prefix, ".mlp_linear2"), linear2));
                assert(mutable_listing(ls@) =~= old(self)@.linears(prefix@));
                ls
            },
            MLPEnum::SwiGLU(s) => s.named_linears_mut(prefix),
        }
    }

    /// The parameters with their names.
    pub fn named_parameters(&self, prefix: &str) -> (ps: Vec<(String, &Param)>)
        ensures
            params::listing(ps@) == self@.named(prefix@),
    {
        match self {
            MLPEnum::GELU { linear1, linear2 } => {
                let mut ps: Vec<(String, &Param)> = linear1.named_parameters(
                    text::joined(prefix, ".mlp_linear1").as_str(),
                );
                params::extend_named(
                    &mut ps,
                    linear2.named_parameters(text::joined(prefix, ".mlp_linear2").as_str()),
                );
                ps
            },
            MLPEnum::SwiGLU(s) => {
                let mut ps: Vec<(String, &Param)> = s.w_gate.named_parameters(
                    text::joined(prefix, ".w_gate").as_str(),
                );
                params::extend_named(
                    &mut ps,
                    s.w_up.named_parameters(text::joined(prefix, ".w_up").as_str()),
                );
                params::extend_named(
                    &mut ps,
                    s.w_down.named_parameters(text::joined(prefix, ".w_down").as_str()),
                );
                ps
            },
        }
    }

    /// Weights and biases of the two layers around an activation; nothing for a gated block.
    pub fn gelu_weights(&self) -> (r: Option<(&Param, &Param, &Param, &Param)>)
        ensures
            match self@ {
                MlpView::Plain { first, second } => r matches Some(w) && w.0@ == first.weight
                    && w.1@ == first.bias && w.2@ == second.weight && w.3@ == second.bias,
                MlpView::Gated { gate, up, down } => r is None,
            },
    {
        match self {
            MLPEnum::GELU { linear1, linear2 } => Some(
                (&linear1.weight, &linear1.bias, &linear2.weight, &linear2.bias),
            ),
            MLPEnum::SwiGLU(_) => None,
        }
    }

    /// Gives every layer a fresh adapter; returns where the tape stands.
    pub fn apply_lora(&mut self, lora: &LoRAConfig, tape: &[u32], pos: usize) -> (next: usize)
        requires
            old(self)@.adaptable(*lora),
            lora.rank >= 1,
            old(self)@.after_adapting(*lora, pos as int) <= tape@.len(),
            tape@.len() <= usize::MAX,
        ensures
            final(self)@ == old(self)@.adapted(*lora, tape@, pos as int),
            next == old(self)@.after_adapting(*lora, pos as int),
            forall|d: usize| old(self)@.wf(d) ==> #[trigger] final(self)@.wf(d),
    {
        proof {
            match self@ {
                MlpView::Plain { first, second } => {
                    tape_moves_on(first, true, *lora, pos as int);
                    tape_moves_on(
                        second,
                        true,
                        *lora,
                        after_adapting(first, true, *lora, pos as int),
                    );
                },
                MlpView::Gated { gate, up, down } => {
                    let p1 = after_adapting(gate, true, *lora, pos as int);
                    let p2 = after_adapting(up, true, *lora, p1);
                    tape_moves_on(gate, true, *lora, pos as int);
                    tape_moves_on(up, true, *lora, p1);
                    tape_moves_on(down, true, *lora, p2);
                },
            }
        }
        match self {
            MLPEnum::GELU { linear1, linear2 } => {
                let p1: usize = adapt(linear1, true, lora, tape, pos);
                adapt(linear2, true, lora, tape, p1)
            },
            MLPEnum::SwiGLU(s) => {
                let p1: usize = adapt(&mut s.w_gate, true, lora, tape, pos);
                let p2: usize = adapt(&mut s.w_up, true, lora, tape, p1);
                adapt(&mut s.w_down, true, lora, tape, p2)
            },
        }
    }

    /// Freezes the block but for its adapters.
    pub fn train_adapters(&mut self)
        ensures
            final(self)@ == old(self)@.tuned(),
    {
        match self {
            MLPEnum::GELU { linear1, linear2 } => {
                linear1.train_adapter();
                linear2.train_adapter();
            },
            MLPEnum::SwiGLU(s) => {
                s.w_gate.train_adapter();
                s.w_up.train_adapter();
                s.w_down.train_adapter();
            },
        }
    }

    /// Adds all adapters to their weights.
    pub fn merge_lora(&mut self, d: usize)
        requires
            old(self)@.wf(d),
        ensures
            final(self)@ == old(self)@.merged(),
            final(self)@.wf(d),
    {
        match self {
            MLPEnum::GELU { linear1, linear2 } => {
                linear1.merge_lora();
                linear2.merge_lora();
            },
            MLPEnum::SwiGLU(s) => {
                s.w_gate.merge_lora();
                s.w_up.merge_lora();
                s.w_down.merge_lora();
            },
        }
    }

    /// Writes all quantised weights out as plain numbers.
    pub fn dequantize_weights(&mut self, d: usize)
        requires
            old(self)@.wf(d),
        ensures
            final(self)@ == old(self)@.dequantized(),
            final(self)@.wf(d),
    {
        match self {
            MLPEnum::GELU { linear1, linear2 } => {
                linear1.dequantize_weight();
                linear2.dequantize_weight();
            },
            MLPEnum::SwiGLU(s) => {
                s.w_gate.dequantize_weight();
                s.w_up.dequantize_weight();
                s.w_down.dequantize_weight();
            },
        }
    }

    /// Whether any layer has an adapter.
    pub fn has_lora(&self) -> (r: bool)
        ensures
            r == self@.has_lora(),
    {
        match self {
            MLPEnum::GELU { linear1, linear2 } => linear1.has_lora() || linear2.has_lora(),
            MLPEnum::SwiGLU(s) => s.w_gate.has_lora() || s.w_up.has_lora() || s.w_down.has_lora(),
        }
    }

    /// Whether any layer is quantised.
    pub fn has_quant(&self) -> (r: bool)
        ensures
            r == self@.has_quant(),
    {
        match self {
            MLPEnum::GELU { linear1, linear2 } => linear1.has_quant() || linear2.has_quant(),
            MLPEnum::SwiGLU(s) => s.w_gate.has_quant() || s.w_up.has_quant()
                || s.w_down.has_quant(),
        }
    }
}

/// Taking draws never moves the tape back.
pub proof fn tape_moves_on(l: LinearView, target: bool, lora: LoRAConfig, pos: int)
    ensures
        after_adapting(l, target, lora, pos) >= pos,
{
    assert(0 <= lora.rank * l.inputs()) by (nonlinear_arith);
}

impl Module for MLPEnum {
    open spec fn param_views(&self) -> Seq<ParamView> {
        self@.params()
    }

    fn parameters(&self) -> (ps: Vec<&Param>) {
        match self {
            MLPEnum::GELU { linear1, linear2 } => {
                let mut ps: Vec<&Param> = linear1.parameters();
                params::extend_params(&mut ps, linear2.parameters());
                assert(params::views(ps@) =~= self.param_views());
                ps
            },
            MLPEnum::SwiGLU(s) => {
                let ps: Vec<&Param> = s.parameters();
                assert(params::views(ps@) =~= self.param_views());
                ps
            },
        }
    }

    fn zero_grad(&mut self)
        ensures
            final(self)@ == old(self)@.cleared(),
    {
        match self {
            MLPEnum::GELU { linear1, linear2 } => {
                proof {
                    params::changes_of_concat(linear1@.params(), linear2@.params(), true);
                }
                linear1.zero_grad();
                linear2.zero_grad();
            },
            MLPEnum::SwiGLU(s) => s.zero_grad(),
        }
    }

    fn set_requires_grad(&mut self, on: bool)
        ensures
            final(self)@ == old(self)@.marked(on),
    {
        match self {
            MLPEnum::GELU { linear1, linear2 } => {
                proof {
                    params::changes_of_concat(linear1@.params(), linear2@.params(), on);
                }
                linear1.set_requires_grad(on);
                linear2.set_requires_grad(on);
            },
            MLPEnum::SwiGLU(s) => s.set_requires_grad(on),
        }
    }
}

/// The draws of a fresh block are not negative.
pub proof fn draws_are_counted(d: usize, gated: bool)
    ensures
        mlp_draws(d, gated) >= 0,
{
    layers::gated_width_is_tight(d as int);
    let h = layers::gated_width(d as int);
    assert(0 <= d * h && 0 <= h * d && 0 <= d * (4 * d) && 0 <= (4 * d) * d) by (nonlinear_arith)
        requires
            d >= 0,
            h >= 0,
    ;
}

/// The draws that a fresh block takes.
pub fn count_draws(d: usize, gated: bool) -> (n: usize)
    requires
        8 * d + 2 <= usize::MAX,
        mlp_draws(d, gated) <= usize::MAX,
    ensures
        n == mlp_draws(d, gated),
{
    if gated {
        let h: usize = layers::swiglu_hidden(d);
        proof {
            assert(0 <= d * h && 0 <= h * d) by (nonlinear_arith)
                requires
                    d >= 0,
                    h >= 0,
            ;
        }
        d * h + d * h + h * d
    } else {
        let h: usize = 4 * d;
        proof {
            assert(0 <= d * h && 0 <= h * d) by (nonlinear_arith)
                requires
                    d >= 0,
                    h >= 0,
            ;
        }
        d * h + h * d
    }
}

/// Clearing and marking a layer changes its parameters one by one.
pub proof fn changes_of_layer(l: LinearView, on: bool)
    ensures
        l.cleared().params() == params::cleared(l.params()),
        l.marked(on).params() == params::marked(l.params(), on),
{
    assert(l.cleared().params() =~= params::cleared(l.params()));
    assert(l.marked(on).params() =~= params::marked(l.params(), on));
}

/// Clearing and marking a block changes its parameters one by one.
pub proof fn changes_of_block(m: MlpView, on: bool)
    ensures
        m.cleared().params() == params::cleared(m.params()),
        m.marked(on).params() == params::marked(m.params(), on),
{
    match m {
        MlpView::Plain { first, second } => {
            changes_of_layer(first, on);
            changes_of_layer(second, on);
            params::changes_of_concat(first.params(), second.params(), on);
        },
        MlpView::Gated { gate, up, down } => {
            changes_of_layer(gate, on);
            changes_of_layer(up, on);
            changes_of_layer(down, on);
            params::changes_of_concat(gate.params(), up.params(), on);
            params::changes_of_concat(gate.params() + up.params(), down.params(), on);
        },
    }
}

/// The parameters of a layer's adapter.
pub fn adapter_of(l: &Linear) -> (ps: Vec<&Param>)
    ensures
        params::views(ps@) == l@.adapter_params(),
{
    let ps: Vec<&Param> = match &l.lora {
        Some(a) => a.parameters(),
        None => Vec::new(),
    };
    assert(params::views(ps@) =~= l@.adapter_params());
    ps
}

impl MLPEnum {
    /// The parameters of all adapters.
    pub fn adapter_parameters(&self) -> (ps: Vec<&Param>)
        ensures
            params::views(ps@) == self@.adapter_params(),
    {
        match self {
            MLPEnum::GELU { linear1, linear2 } => {
                let mut ps: Vec<&Param> = adapter_of(linear1);
                params::extend_params(&mut ps, adapter_of(linear2));
                ps
            },
            MLPEnum::SwiGLU(s) => {
                let mut ps: Vec<&Param> = adapter_of(&s.w_gate);
                params::extend_params(&mut ps, adapter_of(&s.w_up));
                params::extend_params(&mut ps, adapter_of(&s.w_down));
                ps
            },
        }
    }
}

} // verus!
