//! Linear layers with low-rank adapters and quantised weights, and the embedding table.

use crate::awq;
use crate::float_bits::ONE_BITS;
use crate::matrix;
use crate::params;
use crate::params::{Module, Param, ParamView};
use crate::quant;
use crate::report::QuantWeight;
use crate::roots;
use crate::rounding;
use crate::text;
use vstd::prelude::*;

verus! {

/// How much wider the hidden layer of a feed-forward block is.
pub const MLP_RATIO: usize = 4;

/// The bit pattern of `2.0`.
pub const TWO_BITS: u32 = 0x4000_0000;

/// The bit pattern of `0.02`, the spread of a fresh embedding table.
pub const EMBEDDING_STD: u32 = 0x3ca3_d70a;

/// The hidden width of a gated block: two thirds of the usual width, rounded up, then up to a
/// multiple of 256.
pub open spec fn gated_width(d: int) -> int {
    ((8 * d + 2) / 3 + 255) / 256 * 256
}

/// The hidden width of a gated feed-forward block.
pub fn swiglu_hidden(d: usize) -> (r: usize)
    requires
        8 * d + 2 <= usize::MAX,
    ensures
        r == gated_width(d as int),
{
    let h: usize = (2 * MLP_RATIO * d + 2) / 3;
    (h + 255) / 256 * 256
}

/// The gated width holds two thirds of the usual width, wastes less than 256, and is a multiple
/// of 256.
pub proof fn gated_width_is_tight(d: int)
    requires
        d >= 0,
    ensures
        gated_width(d) % 256 == 0,
        3 * gated_width(d) >= 8 * d,
        3 * (gated_width(d) - 256) < 8 * d,
{
}

/// The shape `[rows, cols]` has `rows * cols` elements.
pub proof fn matrix_elements(rows: usize, cols: usize)
    ensures
        params::elements(seq![rows, cols]) == rows * cols,
        params::elements(seq![rows]) == rows,
{
    let two = seq![rows, cols];
    assert(two.drop_last() =~= seq![rows]);
    assert(seq![rows].drop_last() =~= Seq::<usize>::empty());
    assert(params::elements(Seq::<usize>::empty()) == 1);
    assert(params::elements(seq![rows]) == rows);
}

/// A pair of low-rank matrices beside a frozen weight.
#[derive(Debug)]
pub struct LoraAdapter {
    /// `[rank, in]`.
    pub a: Param,
    /// `[out, rank]`.
    pub b: Param,
    pub rank: usize,
    pub alpha: u32,
}

/// What an adapter holds.
#[verifier::ext_equal]
pub struct LoraView {
    pub a: ParamView,
    pub b: ParamView,
    pub rank: usize,
    pub alpha: u32,
}

impl LoraView {
    /// The two matrices fit a layer from `inputs` to `outputs`.
    pub open spec fn wf(self, inputs: usize, outputs: usize) -> bool {
        &&& self.rank >= 1
        &&& self.a.wf()
        &&& self.b.wf()
        &&& self.a.shape == seq![self.rank, inputs]
        &&& self.b.shape == seq![outputs, self.rank]
        &&& self.a.data.len() == self.rank * inputs
        &&& self.b.data.len() == outputs * self.rank
    }

    /// `alpha / rank`.
    pub open spec fn factor(self) -> u32 {
        rounding::quotient(self.alpha, rounding::count_value(self.rank as int))
    }

    /// `(alpha / rank) * (x A^T) B^T` for `n` rows of input.
    pub open spec fn increment(self, x: Seq<u32>, n: int, inputs: int, outputs: int) -> Seq<u32> {
        let r = self.rank as int;
        let down = matrix::product_of(
            x,
            matrix::transposed(self.a.data, r, inputs),
            n,
            inputs,
            r,
        );
        matrix::times(
            matrix::product_of(
                down,
                matrix::transposed(self.b.data, outputs, r),
                n,
                r,
                outputs,
            ),
            self.factor(),
        )
    }

    /// `(alpha / rank) * A^T B^T`, which merging adds to the weight.
    pub open spec fn delta(self, inputs: int, outputs: int) -> Seq<u32> {
        let r = self.rank as int;
        matrix::times(
            matrix::product_of(
                matrix::transposed(self.a.data, r, inputs),
                matrix::transposed(self.b.data, outputs, r),
                inputs,
                r,
                outputs,
            ),
            self.factor(),
        )
    }

    pub open spec fn params(self) -> Seq<ParamView> {
        seq![self.a, self.b]
    }

    pub open spec fn named(self, prefix: Seq<char>) -> Seq<(Seq<char>, ParamView)> {
        seq![(prefix + ".lora_a"@, self.a), (prefix + ".lora_b"@, self.b)]
    }
}

impl View for LoraAdapter {
    type V = LoraView;

    open spec fn view(&self) -> LoraView {
        LoraView { a: self.a@, b: self.b@, rank: self.rank, alpha: self.alpha }
    }
}

impl LoraAdapter {
    /// A fresh adapter: `A` from normal draws scaled by `1 / sqrt(rank)`, `B` zero, so that the
    /// increment starts at zero.
    pub fn new(
        in_dim: usize,
        out_dim: usize,
        rank: usize,
        alpha: u32,
        draws: &[u32],
    ) -> (l: Self)
        requires
            rank >= 1,
            draws@.len() == rank * in_dim,
            out_dim * rank <= usize::MAX,
        ensures
            l@.wf(in_dim, out_dim),
            l@.rank == rank,
            l@.alpha == alpha,
            l@.a == params::fresh(
                matrix::times(
                    draws@,
                    rounding::quotient(
                        ONE_BITS,
                        roots::root(rounding::count_value(rank as int)),
                    ),
                ),
                seq![rank, in_dim],
            ),
            l@.b == params::fresh(params::zeros((out_dim * rank) as nat), seq![out_dim, rank]),
    {
        let s: u32 = rounding::divide(
            ONE_BITS,
            roots::square_root(rounding::from_count(rank as u64)),
        );
        proof {
            matrix_elements(rank, in_dim);
            matrix_elements(out_dim, rank);
        }
        let shape_a: Vec<usize> = vec![rank, in_dim];
        let shape_b: Vec<usize> = vec![out_dim, rank];
        assert(shape_a@ =~= seq![rank, in_dim]);
        assert(shape_b@ =~= seq![out_dim, rank]);
        LoraAdapter {
            a: Param::param(matrix::scale(draws, s), shape_a),
            b: Param::param(params::zero_vec(out_dim * rank), shape_b),
            rank,
            alpha,
        }
    }

    /// `alpha / rank`.
    pub fn scaling(&self) -> (s: u32)
        ensures
            s == self@.factor(),
    {
        rounding::divide(self.alpha, rounding::from_count(self.rank as u64))
    }

    /// The increment for `n` rows of input.
    pub fn forward(&self, x: &[u32], n: usize, in_dim: usize, out_dim: usize) -> (y: Vec<u32>)
        requires
            self@.wf(in_dim, out_dim),
            x@.len() == n * in_dim,
            n * self@.rank <= usize::MAX,
            n * out_dim <= usize::MAX,
        ensures
            y@ == self@.increment(x@, n as int, in_dim as int, out_dim as int),
    {
        let at: Vec<u32> = matrix::transpose(&self.a.data, self.rank, in_dim);
        let bt: Vec<u32> = matrix::transpose(&self.b.data, out_dim, self.rank);
        let down: Vec<u32> = matrix::matmul(x, &at, n, in_dim, self.rank);
        let up: Vec<u32> = matrix::matmul(&down, &bt, n, self.rank, out_dim);
        matrix::scale(&up, self.scaling())
    }

    /// What merging adds to the weight.
    fn merged_delta(&self, in_dim: usize, out_dim: usize) -> (d: Vec<u32>)
        requires
            self@.wf(in_dim, out_dim),
            in_dim * out_dim <= usize::MAX,
        ensures
            d@ == self@.delta(in_dim as int, out_dim as int),
            d@.len() == in_dim * out_dim,
    {
        let at: Vec<u32> = matrix::transpose(&self.a.data, self.rank, in_dim);
        let bt: Vec<u32> = matrix::transpose(&self.b.data, out_dim, self.rank);
        let up: Vec<u32> = matrix::matmul(&at, &bt, in_dim, self.rank, out_dim);
        matrix::scale(&up, self.scaling())
    }

    /// The parameters with their names.
    pub fn named_parameters(&self, prefix: &str) -> (ps: Vec<(String, &Param)>)
        ensures
            params::listing(ps@) == self@.named(prefix@),
    {
        let ps: Vec<(String, &Param)> = vec![
            (text::joined(prefix, ".lora_a"), &self.a),
            (text::joined(prefix, ".lora_b"), &self.b),
        ];
        assert(params::listing(ps@) =~= self@.named(prefix@));
        ps
    }
}

impl Module for LoraAdapter {
    open spec fn param_views(&self) -> Seq<ParamView> {
        self@.params()
    }

    fn parameters(&self) -> (ps: Vec<&Param>) {
        let ps: Vec<&Param> = vec![&self.a, &self.b];
        assert(params::views(ps@) =~= self.param_views());
        ps
    }

    fn zero_grad(&mut self)
        ensures
            final(self)@ == (LoraView {
                a: old(self)@.a.cleared(),
                b: old(self)@.b.cleared(),
                ..old(self)@
            }),
    {
        self.a.zero_grad();
        self.b.zero_grad();
        assert(self.param_views() =~= params::cleared(old(self).param_views()));
    }

    fn set_requires_grad(&mut self, on: bool)
        ensures
            final(self)@ == (LoraView {
                a: old(self)@.a.marked(on),
                b: old(self)@.b.marked(on),
                ..old(self)@
            }),
    {
        self.a.set_requires_grad(on);
        self.b.set_requires_grad(on);
        assert(self.param_views() =~= params::marked(old(self).param_views(), on));
    }
}

/// `y = x W + b`, with an adapter beside the weight or a quantised weight in its place.
#[derive(Debug)]
pub struct Linear {
    /// `[in, out]`; one zero as a placeholder once the weight is quantised.
    pub weight: Param,
    pub bias: Param,
    pub lora: Option<LoraAdapter>,
    pub quant: Option<QuantWeight>,
}

/// What a linear layer holds.
#[verifier::ext_equal]
pub struct LinearView {
    pub weight: ParamView,
    pub bias: ParamView,
    pub lora: Option<LoraView>,
    pub quant: Option<QuantWeight>,
}

impl View for Linear {
    type V = LinearView;

    open spec fn view(&self) -> LinearView {
        LinearView {
            weight: self.weight@,
            bias: self.bias@,
            lora: match self.lora {
                Some(l) => Some(l@),
                None => None,
            },
            quant: self.quant,
        }
    }
}

impl LinearView {
    /// The input width. A quantised weight knows it; the placeholder does not.
    pub open spec fn inputs(self) -> usize {
        match self.quant {
            Some(q) => q.q.row_count() as usize,
            None => self.weight.shape[0],
        }
    }

    /// The output width.
    pub open spec fn outputs(self) -> usize {
        match self.quant {
            Some(q) => q.q.col_count() as usize,
            None => self.weight.shape[1],
        }
    }

    pub open spec fn wf(self) -> bool {
        &&& self.weight.wf()
        &&& self.bias.wf()
        &&& self.bias.shape == seq![self.outputs()]
        &&& self.bias.data.len() == self.outputs()
        &&& self.inputs() * self.outputs() <= usize::MAX
        &&& self.lora matches Some(l) ==> l.wf(self.inputs(), self.outputs())
        &&& match self.quant {
            Some(q) => {
                &&& q.wf()
                &&& q.q.row_count() == self.inputs()
                &&& q.q.col_count() == self.outputs()
                &&& self.inputs() > 0
                &&& self.outputs() > 0
                &&& self.weight.shape == seq![1usize]
            },
            None => {
                &&& self.weight.shape == seq![self.inputs(), self.outputs()]
                &&& self.weight.data.len() == self.inputs() * self.outputs()
            },
        }
    }

    /// The product with the weight, whichever form it has.
    pub open spec fn base(self, x: Seq<u32>, n: int) -> Seq<u32> {
        let (i, o) = (self.inputs() as int, self.outputs() as int);
        match self.quant {
            Some(q) => match q.scales() {
                Some(s) => matrix::product_of(awq::unfolded_input(x, i, s), q.q.values(), n, i, o),
                None => matrix::product_of(x, q.q.values(), n, i, o),
            },
            None => matrix::product_of(x, self.weight.data, n, i, o),
        }
    }

    /// `x W + b` without the adapter.
    pub open spec fn backbone(self, x: Seq<u32>, n: int) -> Seq<u32> {
        matrix::with_row(self.base(x, n), self.outputs() as int, self.bias.data)
    }

    /// The output for `n` rows of input.
    pub open spec fn output(self, x: Seq<u32>, n: int) -> Seq<u32> {
        match self.lora {
            Some(l) => matrix::total(
                self.backbone(x, n),
                l.increment(x, n, self.inputs() as int, self.outputs() as int),
            ),
            None => self.backbone(x, n),
        }
    }

    /// The layer with its weight as plain numbers. A quantised weight is written out in the
    /// coordinates of the unscaled input; the trainable mark is kept.
    pub open spec fn dequantized(self) -> LinearView {
        match self.quant {
            Some(q) => LinearView {
                weight: params::fresh(
                    q.equivalent(),
                    seq![self.inputs(), self.outputs()],
                ).marked(self.weight.requires_grad),
                quant: None,
                ..self
            },
            None => self,
        }
    }

    /// The layer with its adapter added to the weight.
    pub open spec fn merged(self) -> LinearView {
        let d = self.dequantized();
        match d.lora {
            Some(l) => LinearView {
                weight: ParamView {
                    data: matrix::total(
                        d.weight.data,
                        l.delta(self.inputs() as int, self.outputs() as int),
                    ),
                    ..d.weight
                },
                lora: None,
                ..d
            },
            None => d,
        }
    }

    /// Bytes of the weight as plain numbers, and in its present form.
    pub open spec fn bytes(self) -> (int, int) {
        let plain = self.inputs() * self.outputs() * 4;
        match self.quant {
            Some(q) => (plain, q.size()),
            None => (plain, plain),
        }
    }

    pub open spec fn adapter_params(self) -> Seq<ParamView> {
        match self.lora {
            Some(l) => l.params(),
            None => Seq::empty(),
        }
    }

    pub open spec fn params(self) -> Seq<ParamView> {
        seq![self.weight, self.bias] + self.adapter_params()
    }

    pub open spec fn named(self, prefix: Seq<char>) -> Seq<(Seq<char>, ParamView)> {
        seq![(prefix + ".weight"@, self.weight), (prefix + ".bias"@, self.bias)] + match self.lora {
            Some(l) => l.named(prefix),
            None => Seq::empty(),
        }
    }

    /// The layer with all gradients cleared.
    pub open spec fn cleared(self) -> LinearView {
        LinearView {
            weight: self.weight.cleared(),
            bias: self.bias.cleared(),
            lora: match self.lora {
                Some(l) => Some(LoraView { a: l.a.cleared(), b: l.b.cleared(), ..l }),
                None => None,
            },
            ..self
        }
    }

    /// The layer with all parameters trainable or frozen.
    pub open spec fn marked(self, on: bool) -> LinearView {
        LinearView {
            weight: self.weight.marked(on),
            bias: self.bias.marked(on),
            lora: match self.lora {
                Some(l) => Some(LoraView { a: l.a.marked(on), b: l.b.marked(on), ..l }),
                None => None,
            },
            ..self
        }
    }
}

impl LinearView {
    /// The layer with its adapter as the only trainable part.
    pub open spec fn tuned(self) -> LinearView {
        LinearView {
            weight: self.weight.marked(false),
            bias: self.bias.marked(false),
            lora: match self.lora {
                Some(l) => Some(LoraView { a: l.a.marked(true), b: l.b.marked(true), ..l }),
                None => None,
            },
            ..self
        }
    }
}

/// Normal draws scaled to the spread `sqrt(2 / (in + out))`.
pub open spec fn xavier(draws: Seq<u32>, inputs: int, outputs: int) -> Seq<u32> {
    matrix::times(
        draws,
        roots::root(rounding::quotient(TWO_BITS, rounding::count_value(inputs + outputs))),
    )
}

impl Linear {
    /// A fresh layer: the weight from normal draws, the bias zero.
    pub fn new(in_features: usize, out_features: usize, draws: &[u32]) -> (l: Self)
        requires
            draws@.len() == in_features * out_features,
            in_features + out_features <= usize::MAX,
        ensures
            l@.wf(),
            l@.inputs() == in_features,
            l@.outputs() == out_features,
            l@ == (LinearView {
                weight: params::fresh(
                    xavier(draws@, in_features as int, out_features as int),
                    seq![in_features, out_features],
                ),
                bias: params::fresh(params::zeros(out_features as nat), seq![out_features]),
                lora: None,
                quant: None,
            }),
    {
        let std: u32 = roots::square_root(
            rounding::divide(TWO_BITS, rounding::from_count((in_features + out_features) as u64)),
        );
        proof {
            matrix_elements(in_features, out_features);
            matrix_elements(out_features, 1);
        }
        let shape: Vec<usize> = vec![in_features, out_features];
        let row: Vec<usize> = vec![out_features];
        assert(shape@ =~= seq![in_features, out_features]);
        assert(row@ =~= seq![out_features]);
        let count: usize = draws.len();
        Linear {
            weight: Param::param(matrix::scale(draws, std), shape),
            bias: Param::param(params::zero_vec(out_features), row),
            lora: None,
            quant: None,
        }
    }

    /// The input and output widths.
    pub fn dims(&self) -> (d: (usize, usize))
        requires
            self@.wf(),
        ensures
            d.0 == self@.inputs(),
            d.1 == self@.outputs(),
    {
        match &self.quant {
            Some(q) => (q.q.rows(), q.q.cols()),
            None => (self.weight.shape[0], self.weight.shape[1]),
        }
    }

    /// Puts a fresh adapter beside the weight.
    pub fn attach_lora(&mut self, rank: usize, alpha: u32, draws: &[u32])
        requires
            old(self)@.wf(),
            rank >= 1,
            draws@.len() == rank * old(self)@.inputs(),
            old(self)@.outputs() * rank <= usize::MAX,
        ensures
            final(self)@.wf(),
            final(self)@.lora is Some,
            final(self)@ == (LinearView { lora: final(self)@.lora, ..old(self)@ }),
            final(self)@.lora->0 == (LoraView {
                a: params::fresh(
                    matrix::times(
                        draws@,
                        rounding::quotient(
                            ONE_BITS,
                            roots::root(rounding::count_value(rank as int)),
                        ),
                    ),
                    seq![rank, old(self)@.inputs()],
                ),
                b: params::fresh(
                    params::zeros((old(self)@.outputs() * rank) as nat),
                    seq![old(self)@.outputs(), rank],
                ),
                rank,
                alpha,
            }),
    {
        let d: (usize, usize) = self.dims();
        self.lora = Some(LoraAdapter::new(d.0, d.1, rank, alpha, draws));
    }

    /// Whether the weight is quantised.
    pub fn has_quant(&self) -> (r: bool)
        ensures
            r == (self@.quant is Some),
    {
        self.quant.is_some()
    }

    /// Whether the layer cannot run while gradients are taken: a quantised weight would get none, and
    /// training would stand still without a word.
    pub fn refuses_gradients(&self, grad_enabled: bool) -> (r: bool)
        ensures
            r == (grad_enabled && self@.quant is Some),
    {
        grad_enabled && self.has_quant()
    }

    /// Whether an adapter is attached.
    pub fn has_lora(&self) -> (r: bool)
        ensures
            r == (self@.lora is Some),
    {
        self.lora.is_some()
    }

    /// The output for `n` rows of input, without gradients. A quantised weight is read back first.
    pub fn forward(&self, x: &[u32], n: usize) -> (y: Vec<u32>)
        requires
            self@.wf(),
            x@.len() == n * self@.inputs(),
            n * self@.outputs() <= usize::MAX,
            self@.lora matches Some(l) ==> n * l.rank <= usize::MAX,
        ensures
            y@ == self@.output(x@, n as int),
    {
        let d: (usize, usize) = self.dims();
        let base: Vec<u32> = match &self.quant {
            Some(q) => {
                proof {
                    q.q.shape();
                }
                let w: Vec<u32> = q.q.dequantize();
                match &q.input_scale {
                    Some(s) => {
                        proof {
                            vstd::arithmetic::div_mod::lemma_mod_multiples_basic(
                                n as int,
                                d.0 as int,
                            );
                        }
                        let xu: Vec<u32> = awq::awq_unfold_input(x, d.0, s);
                        matrix::matmul(&xu, &w, n, d.0, d.1)
                    },
                    None => matrix::matmul(x, &w, n, d.0, d.1),
                }
            },
            None => matrix::matmul(x, &self.weight.data, n, d.0, d.1),
        };
        let y: Vec<u32> = matrix::add_row(&base, n, d.1, &self.bias.data);
        match &self.lora {
            Some(l) => matrix::add_matrices(&y, &l.forward(x, n, d.0, d.1)),
            None => y,
        }
    }

    /// The output for `n` rows of input while gradients are taken or not; none where the layer
    /// refuses gradients.
    pub fn forward_in(&self, x: &[u32], n: usize, grad_enabled: bool) -> (r: Option<Vec<u32>>)
        requires
            self@.wf(),
            x@.len() == n * self@.inputs(),
            n * self@.outputs() <= usize::MAX,
            self@.lora matches Some(l) ==> n * l.rank <= usize::MAX,
        ensures
            r is None <==> grad_enabled && self@.quant is Some,
            r matches Some(y) ==> y@ == self@.output(x@, n as int),
    {
        if self.refuses_gradients(grad_enabled) {
            return None;
        }
        Some(self.forward(x, n))
    }

    /// The shape of the output for an input shape: the last dimension becomes the output width.
    /// Only two and three dimensions are accepted; otherwise their number comes back.
    pub fn output_shape(&self, shape: &[usize]) -> (r: Result<Vec<usize>, usize>)
        requires
            self@.wf(),
        ensures
            r is Ok <==> shape@.len() == 2 || shape@.len() == 3,
            r matches Ok(s) ==> s@ == shape@.update(shape@.len() - 1, self@.outputs()),
            r matches Err(k) ==> k == shape@.len(),
    {
        let k: usize = shape.len();
        if k != 2 && k != 3 {
            return Err(k);
        }
        let mut s: Vec<usize> = params::copied(shape);
        s.set(k - 1, self.dims().1);
        Ok(s)
    }

    /// Bytes of the weight as plain numbers, and in its present form.
    pub fn weight_bytes(&self) -> (b: (usize, usize))
        requires
            self@.wf(),
            self@.bytes().0 <= usize::MAX,
            self@.bytes().1 <= usize::MAX,
        ensures
            b.0 == self@.bytes().0,
            b.1 == self@.bytes().1,
    {
        let d: (usize, usize) = self.dims();
        let plain: usize = d.0 * d.1 * 4;
        match &self.quant {
            Some(q) => (plain, q.byte_len()),
            None => (plain, plain),
        }
    }

    /// Writes a quantised weight out as plain numbers.
    pub fn dequantize_weight(&mut self)
        requires
            old(self)@.wf(),
        ensures
            final(self)@.wf(),
            final(self)@ == old(self)@.dequantized(),
            final(self)@.quant is None,
            final(self)@.inputs() == old(self)@.inputs(),
            final(self)@.outputs() == old(self)@.outputs(),
    {
        if !self.has_quant() {
            return;
        }
        let d: (usize, usize) = self.dims();
        let quant: Option<QuantWeight> = self.quant.take();
        match quant {
            Some(q) => {
                proof {
                    q.q.shape();
                    matrix_elements(d.0, d.1);
                }
                let w: Vec<u32> = q.weights();
                let shape: Vec<usize> = vec![d.0, d.1];
                assert(shape@ =~= seq![d.0, d.1]);
                let mark: bool = self.weight.requires_grad;
                let mut weight: Param = Param::param(w, shape);
                weight.set_requires_grad(mark);
                self.weight = weight;
            },
            None => {},
        }
    }

    /// Adds the adapter to the weight and drops it. A quantised weight becomes plain first.
    pub fn merge_lora(&mut self)
        requires
            old(self)@.wf(),
        ensures
            final(self)@.wf(),
            final(self)@ == old(self)@.merged(),
            final(self)@.lora is None,
            final(self)@.quant is None,
            final(self)@.inputs() == old(self)@.inputs(),
            final(self)@.outputs() == old(self)@.outputs(),
    {
        self.dequantize_weight();
        let d: (usize, usize) = self.dims();
        let lora: Option<LoraAdapter> = self.lora.take();
        match lora {
            Some(l) => {
                let delta: Vec<u32> = l.merged_delta(d.0, d.1);
                self.weight.data = matrix::add_matrices(&self.weight.data, &delta);
            },
            None => {},
        }
    }

    /// Freezes the layer but for its adapter.
    pub fn train_adapter(&mut self)
        ensures
            final(self)@ == old(self)@.tuned(),
    {
        self.weight.set_requires_grad(false);
        self.bias.set_requires_grad(false);
        let lora: Option<LoraAdapter> = self.lora.take();
        match lora {
            Some(mut l) => {
                l.set_requires_grad(true);
                self.lora = Some(l);
            },
            None => {},
        }
    }

    /// The parameters with their names.
    pub fn named_parameters(&self, prefix: &str) -> (ps: Vec<(String, &Param)>)
        ensures
            params::listing(ps@) == self@.named(prefix@),
            params::contents(params::listing(ps@)) == self@.params(),
    {
        let mut ps: Vec<(String, &Param)> = vec![
            (text::joined(prefix, ".weight"), &self.weight),
            (text::joined(prefix, ".bias"), &self.bias),
        ];
        match &self.lora {
            Some(l) => {
                let mut more: Vec<(String, &Param)> = l.named_parameters(prefix);
                proof {
                    params::listing_of_concat(ps@, more@);
                }
                ps.append(&mut more);
            },
            None => {},
        }
        assert(params::listing(ps@) =~= self@.named(prefix@));
        assert(params::contents(params::listing(ps@)) =~= self@.params());
        ps
    }
}

impl Module for Linear {
    open spec fn param_views(&self) -> Seq<ParamView> {
        self@.params()
    }

    fn parameters(&self) -> (ps: Vec<&Param>) {
        let mut ps: Vec<&Param> = vec![&self.weight, &self.bias];
        match &self.lora {
            Some(l) => {
                let mut more: Vec<&Param> = l.parameters();
                proof {
                    params::views_of_concat(ps@, more@);
                }
                ps.append(&mut more);
            },
            None => {},
        }
        assert(params::views(ps@) =~= self.param_views());
        ps
    }

    fn zero_grad(&mut self)
        ensures
            final(self)@ == old(self)@.cleared(),
    {
        self.weight.zero_grad();
        self.bias.zero_grad();
        let lora: Option<LoraAdapter> = self.lora.take();
        match lora {
            Some(mut l) => {
                l.zero_grad();
                self.lora = Some(l);
            },
            None => {},
        }
        assert(self.param_views() =~= params::cleared(old(self).param_views()));
    }

    fn set_requires_grad(&mut self, on: bool)
        ensures
            final(self)@ == old(self)@.marked(on),
    {
        self.weight.set_requires_grad(on);
        self.bias.set_requires_grad(on);
        let lora: Option<LoraAdapter> = self.lora.take();
        match lora {
            Some(mut l) => {
                l.set_requires_grad(on);
                self.lora = Some(l);
            },
            None => {},
        }
        assert(self.param_views() =~= params::marked(old(self).param_views(), on));
    }
}

} // verus!
