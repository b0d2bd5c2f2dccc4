//! Normalisation of the last dimension.

use crate::float_bits::ONE_BITS;
use crate::params;
use crate::params::{Module, Param, ParamView};
use crate::quant;
use crate::roots;
use crate::rounding;
use crate::text;
use vstd::prelude::*;

verus! {

/// The sum of the first `k` elements of row `t`, added in order.
pub open spec fn row_sum(x: Seq<u32>, d: int, t: int, k: nat) -> u32
    decreases k,
{
    if k == 0 {
        0
    } else {
        rounding::sum(row_sum(x, d, t, (k - 1) as nat), x[t * d + (k - 1)])
    }
}

/// The sum of the squared distances of the first `k` elements of row `t` from `mean`.
pub open spec fn spread(x: Seq<u32>, d: int, t: int, mean: u32, k: nat) -> u32
    decreases k,
{
    if k == 0 {
        0
    } else {
        let v = rounding::difference(x[t * d + (k - 1)], mean);
        rounding::sum(spread(x, d, t, mean, (k - 1) as nat), rounding::product(v, v))
    }
}

/// The sum of the squares of the first `k` elements of row `t`.
pub open spec fn square_sum(x: Seq<u32>, d: int, t: int, k: nat) -> u32
    decreases k,
{
    if k == 0 {
        0
    } else {
        let v = x[t * d + (k - 1)];
        rounding::sum(square_sum(x, d, t, (k - 1) as nat), rounding::product(v, v))
    }
}

/// The mean of row `t`.
pub open spec fn row_mean(x: Seq<u32>, d: int, t: int) -> u32 {
    rounding::quotient(row_sum(x, d, t, d as nat), rounding::count_value(d))
}

/// `sqrt(var + eps)` of row `t`.
pub open spec fn row_deviation(x: Seq<u32>, d: int, t: int, eps: u32) -> u32 {
    roots::root(
        rounding::sum(
            rounding::quotient(
                spread(x, d, t, row_mean(x, d, t), d as nat),
                rounding::count_value(d),
            ),
            eps,
        ),
    )
}

/// `sqrt(mean(x^2) + eps)` of row `t`.
pub open spec fn row_rms(x: Seq<u32>, d: int, t: int, eps: u32) -> u32 {
    roots::root(
        rounding::sum(
            rounding::quotient(square_sum(x, d, t, d as nat), rounding::count_value(d)),
            eps,
        ),
    )
}

/// `(x - mean) / sqrt(var + eps) * gamma + beta`, row by row.
pub open spec fn layer_normed(x: Seq<u32>, d: int, gamma: Seq<u32>, beta: Seq<u32>, eps: u32) -> Seq<
    u32,
> {
    Seq::new(
        x.len(),
        |p: int|
            rounding::sum(
                rounding::product(
                    rounding::quotient(
                        rounding::difference(x[p], row_mean(x, d, p / d)),
                        row_deviation(x, d, p / d, eps),
                    ),
                    gamma[p % d],
                ),
                beta[p % d],
            ),
    )
}

/// `x / sqrt(mean(x^2) + eps) * gamma`, row by row.
pub open spec fn rms_normed(x: Seq<u32>, d: int, gamma: Seq<u32>, eps: u32) -> Seq<u32> {
    Seq::new(
        x.len(),
        |p: int|
            rounding::product(
                rounding::quotient(x[p], row_rms(x, d, p / d, eps)),
                gamma[p % d],
            ),
    )
}

/// What a normalisation holds; `beta` is missing from the root mean square kind.
#[verifier::ext_equal]
pub struct NormView {
    pub gamma: ParamView,
    pub beta: Option<ParamView>,
    pub eps: u32,
}

impl NormView {
    pub open spec fn wf(self, d: usize) -> bool {
        &&& self.gamma.wf()
        &&& self.gamma.shape == seq![d]
        &&& self.gamma.data.len() == d
        &&& self.beta matches Some(b) ==> b.wf() && b.shape == seq![d] && b.data.len() == d
    }

    pub open spec fn output(self, x: Seq<u32>, d: int) -> Seq<u32> {
        match self.beta {
            Some(b) => layer_normed(x, d, self.gamma.data, b.data, self.eps),
            None => rms_normed(x, d, self.gamma.data, self.eps),
        }
    }

    pub open spec fn params(self) -> Seq<ParamView> {
        match self.beta {
            Some(b) => seq![self.gamma, b],
            None => seq![self.gamma],
        }
    }

    pub open spec fn named(self, prefix: Seq<char>) -> Seq<(Seq<char>, ParamView)> {
        match self.beta {
            Some(b) => seq![(prefix + ".gamma"@, self.gamma), (prefix + ".beta"@, b)],
            None => seq![(prefix + ".gamma"@, self.gamma)],
        }
    }

    pub open spec fn cleared(self) -> NormView {
        NormView {
            gamma: self.gamma.cleared(),
            beta: match self.beta {
                Some(b) => Some(b.cleared()),
                None => None,
            },
            ..self
        }
    }

    pub open spec fn marked(self, on: bool) -> NormView {
        NormView {
            gamma: self.gamma.marked(on),
            beta: match self.beta {
                Some(b) => Some(b.marked(on)),
                None => None,
            },
            ..self
        }
    }
}

/// `d` ones.
pub open spec fn ones(d: nat) -> Seq<u32> {
    Seq::new(d, |i: int| ONE_BITS)
}

/// A fresh normalisation: scale one, shift zero.
pub open spec fn fresh_norm(d: usize, eps: u32, rms: bool) -> NormView {
    NormView {
        gamma: params::fresh(ones(d as nat), seq![d]),
        beta: if rms {
            None
        } else {
            Some(params::fresh(params::zeros(d as nat), seq![d]))
        },
        eps,
    }
}

fn one_vec(d: usize) -> (r: Vec<u32>)
    ensures
        r@ == ones(d as nat),
{
    let mut r: Vec<u32> = Vec::new();
    for i in 0..d
        invariant
            r@ =~= ones(i as nat),
    {
        r.push(ONE_BITS);
    }
    r
}

fn vector_param(data: Vec<u32>) -> (p: Param)
    requires
        data@.len() <= usize::MAX,
    ensures
        p@ == params::fresh(data@, seq![data@.len() as usize]),
        p@.wf(),
{
    let d: usize = data.len();
    proof {
        crate::layers::matrix_elements(d, 1);
    }
    let shape: Vec<usize> = vec![d];
    assert(shape@ =~= seq![d]);
    Param::param(data, shape)
}

/// Layer normalisation.
#[derive(Debug)]
pub struct LayerNorm {
    pub gamma: Param,
    pub beta: Param,
    pub eps: u32,
}

impl View for LayerNorm {
    type V = NormView;

    open spec fn view(&self) -> NormView {
        NormView { gamma: self.gamma@, beta: Some(self.beta@), eps: self.eps }
    }
}

impl LayerNorm {
    pub fn new(d: usize, eps: u32) -> (n: Self)
        ensures
            n@ == fresh_norm(d, eps, false),
            n@.wf(d),
    {
        LayerNorm {
            gamma: vector_param(one_vec(d)),
            beta: vector_param(params::zero_vec(d)),
            eps,
        }
    }

    pub fn forward(&self, x: &[u32], rows: usize, d: usize) -> (y: Vec<u32>)
        requires
            self@.wf(d),
            x@.len() == rows * d,
        ensures
            y@ == self@.output(x@, d as int),
    {
        let len: usize = x.len();
        let count: u32 = rounding::from_count(d as u64);
        let mut y: Vec<u32> = Vec::new();
        assert(0 * d == 0);
        for t in 0..rows
            invariant
                len == x@.len(),
                x@.len() == rows * d,
                self@.wf(d),
                count == rounding::count_value(d as int),
                y@ =~= self@.output(x@, d as int).take(t * d),
                y@.len() == t * d,
                t * d <= x@.len(),
        {
            proof {
                assert((t + 1) * d == t * d + d && (t + 1) * d <= rows * d) by (nonlinear_arith)
                    requires
                        t + 1 <= rows,
                        d >= 0,
                ;
            }
            let mut s: u32 = 0;
            for k in 0..d
                invariant
                    len == x@.len(),
                    x@.len() == rows * d,
                    t < rows,
                    t * d + d <= len,
                    s == row_sum(x@, d as int, t as int, k as nat),
            {
                s = rounding::plus(s, x[t * d + k]);
            }
            let mean: u32 = rounding::divide(s, count);
            let mut v: u32 = 0;
            for k in 0..d
                invariant
                    len == x@.len(),
                    x@.len() == rows * d,
                    t < rows,
                    t * d + d <= len,
                    v == spread(x@, d as int, t as int, mean, k as nat),
            {
                let e: u32 = rounding::minus(x[t * d + k], mean);
                v = rounding::plus(v, rounding::multiply(e, e));
            }
            let dev: u32 = roots::square_root(rounding::plus(rounding::divide(v, count), self.eps));
            for k in 0..d
                invariant
                    len == x@.len(),
                    x@.len() == rows * d,
                    t < rows,
                    t * d + d <= len,
                    self@.wf(d),
                    mean == row_mean(x@, d as int, t as int),
                    dev == row_deviation(x@, d as int, t as int, self.eps),
                    y@ =~= self@.output(x@, d as int).take(t * d + k),
                    y@.len() == t * d + k,
            {
                proof {
                    quant::cell_position(t as int, k as int, rows as int, d as int);
                }
                let z: u32 = rounding::divide(rounding::minus(x[t * d + k], mean), dev);
                y.push(rounding::plus(rounding::multiply(z, self.gamma.data[k]), self.beta.data[k]));
            }
        }
        assert(self@.output(x@, d as int).take(rows * d) =~= self@.output(x@, d as int));
        y
    }

    pub fn named_parameters(&self, prefix: &str) -> (ps: Vec<(String, &Param)>)
        ensures
            params::listing(ps@) == self@.named(prefix@),
    {
        let ps: Vec<(String, &Param)> = vec![
            (text::joined(prefix, ".gamma"), &self.gamma),
            (text::joined(prefix, ".beta"), &self.beta),
        ];
        assert(params::listing(ps@) =~= self@.named(prefix@));
        ps
    }
}

impl Module for LayerNorm {
    open spec fn param_views(&self) -> Seq<ParamView> {
        self@.params()
    }

    fn parameters(&self) -> (ps: Vec<&Param>) {
        let ps: Vec<&Param> = vec![&self.gamma, &self.beta];
        assert(params::views(ps@) =~= self.param_views());
        ps
    }

    fn zero_grad(&mut self)
        ensures
            final(self)@ == old(self)@.cleared(),
    {
        self.gamma.zero_grad();
        self.beta.zero_grad();
        assert(self.param_views() =~= params::cleared(old(self).param_views()));
    }

    fn set_requires_grad(&mut self, on: bool)
        ensures
            final(self)@ == old(self)@.marked(on),
    {
        self.gamma.set_requires_grad(on);
        self.beta.set_requires_grad(on);
        assert(self.param_views() =~= params::marked(old(self).param_views(), on));
    }
}

/// Root mean square normalisation: no mean is taken away and nothing is shifted.
#[derive(Debug)]
pub struct RMSNorm {
    pub gamma: Param,
    pub eps: u32,
}

impl View for RMSNorm {
    type V = NormView;

    open spec fn view(&self) -> NormView {
        NormView { gamma: self.gamma@, beta: None, eps: self.eps }
    }
}

impl RMSNorm {
    pub fn new(d: usize, eps: u32) -> (n: Self)
        ensures
            n@ == fresh_norm(d, eps, true),
            n@.wf(d),
    {
        RMSNorm { gamma: vector_param(one_vec(d)), eps }
    }

    pub fn forward(&self, x: &[u32], rows: usize, d: usize) -> (y: Vec<u32>)
        requires
            self@.wf(d),
            x@.len() == rows * d,
        ensures
            y@ == self@.output(x@, d as int),
    {
        let len: usize = x.len();
        let count: u32 = rounding::from_count(d as u64);
        let mut y: Vec<u32> = Vec::new();
        assert(0 * d == 0);
        for t in 0..rows
            invariant
                len == x@.len(),
                x@.len() == rows * d,
                self@.wf(d),
                count == rounding::count_value(d as int),
                y@ =~= self@.output(x@, d as int).take(t * d),
                y@.len() == t * d,
                t * d <= x@.len(),
        {
            proof {
                assert((t + 1) * d == t * d + d && (t + 1) * d <= rows * d) by (nonlinear_arith)
                    requires
                        t + 1 <= rows,
                        d >= 0,
                ;
            }
            let mut s: u32 = 0;
            for k in 0..d
                invariant
                    len == x@.len(),
                    x@.len() == rows * d,
                    t < rows,
                    t * d + d <= len,
                    s == square_sum(x@, d as int, t as int, k as nat),
            {
                let e: u32 = x[t * d + k];
                s = rounding::plus(s, rounding::multiply(e, e));
            }
            let rms: u32 = roots::square_root(rounding::plus(rounding::divide(s, count), self.eps));
            for k in 0..d
                invariant
                    len == x@.len(),
                    x@.len() == rows * d,
                    t < rows,
                    t * d + d <= len,
                    self@.wf(d),
                    rms == row_rms(x@, d as int, t as int, self.eps),
                    y@ =~= self@.output(x@, d as int).take(t * d + k),
                    y@.len() == t * d + k,
            {
                proof {
                    quant::cell_position(t as int, k as int, rows as int, d as int);
                }
                y.push(
                    rounding::multiply(rounding::divide(x[t * d + k], rms), self.gamma.data[k]),
                );
            }
        }
        assert(self@.output(x@, d as int).take(rows * d) =~= self@.output(x@, d as int));
        y
    }

    pub fn named_parameters(&self, prefix: &str) -> (ps: Vec<(String, &Param)>)
        ensures
            params::listing(ps@) == self@.named(prefix@),
    {
        let ps: Vec<(String, &Param)> = vec![(text::joined(prefix, ".gamma"), &self.gamma)];
        assert(params::listing(ps@) =~= self@.named(prefix@));
        ps
    }
}

impl Module for RMSNorm {
    open spec fn param_views(&self) -> Seq<ParamView> {
        self@.params()
    }

    fn parameters(&self) -> (ps: Vec<&Param>) {
        let ps: Vec<&Param> = vec![&self.gamma];
        assert(params::views(ps@) =~= self.param_views());
        ps
    }

    fn zero_grad(&mut self)
        ensures
            final(self)@ == old(self)@.cleared(),
    {
        self.gamma.zero_grad();
        assert(self.param_views() =~= params::cleared(old(self).param_views()));
    }

    fn set_requires_grad(&mut self, on: bool)
        ensures
            final(self)@ == old(self)@.marked(on),
    {
        self.gamma.set_requires_grad(on);
        assert(self.param_views() =~= params::marked(old(self).param_views(), on));
    }
}

/// Either kind of normalisation.
#[derive(Debug)]
pub enum NormLayer {
    LN(LayerNorm),
    RMS(RMSNorm),
}

impl View for NormLayer {
    type V = NormView;

    open spec fn view(&self) -> NormView {
        match self {
            NormLayer::LN(n) => n@,
            NormLayer::RMS(n) => n@,
        }
    }
}

impl NormLayer {
    pub fn new(d: usize, eps: u32, use_rmsnorm: bool) -> (n: Self)
        ensures
            n@ == fresh_norm(d, eps, use_rmsnorm),
            n@.wf(d),
    {
        if use_rmsnorm {
            NormLayer::RMS(RMSNorm::new(d, eps))
        } else {
            NormLayer::LN(LayerNorm::new(d, eps))
        }
    }

    pub fn forward(&self, x: &[u32], rows: usize, d: usize) -> (y: Vec<u32>)
        requires
            self@.wf(d),
            x@.len() == rows * d,
        ensures
            y@ == self@.output(x@, d as int),
    {
        match self {
            NormLayer::LN(n) => n.forward(x, rows, d),
            NormLayer::RMS(n) => n.forward(x, rows, d),
        }
    }

    pub fn named_parameters(&self, prefix: &str) -> (ps: Vec<(String, &Param)>)
        ensures
            params::listing(ps@) == self@.named(prefix@),
            params::contents(params::listing(ps@)) == self@.params(),
    {
        let ps: Vec<(String, &Param)> = match self {
            NormLayer::LN(n) => n.named_parameters(prefix),
            NormLayer::RMS(n) => n.named_parameters(prefix),
        };
        assert(params::contents(params::listing(ps@)) =~= self@.params());
        ps
    }

    /// Scale, shift if there is one, epsilon, and whether it is the root mean square kind.
    pub fn norm_params(&self) -> (r: (&Param, Option<&Param>, u32, bool))
        ensures
            r.0@ == self@.gamma,
            r.1 is Some <==> self@.beta is Some,
            r.1 matches Some(b) ==> b@ == self@.beta->0,
            r.2 == self@.eps,
            r.3 == (self@.beta is None),
    {
        match self {
            NormLayer::LN(n) => (&n.gamma, Some(&n.beta), n.eps, false),
            NormLayer::RMS(n) => (&n.gamma, None, n.eps, true),
        }
    }
}

impl Module for NormLayer {
    open spec fn param_views(&self) -> Seq<ParamView> {
        self@.params()
    }

    fn parameters(&self) -> (ps: Vec<&Param>) {
        let ps: Vec<&Param> = match self {
            NormLayer::LN(n) => n.parameters(),
            NormLayer::RMS(n) => n.parameters(),
        };
        assert(params::views(ps@) =~= self.param_views());
        ps
    }

    fn zero_grad(&mut self)
        ensures
            final(self)@ == old(self)@.cleared(),
    {
        match self {
            NormLayer::LN(n) => n.zero_grad(),
            NormLayer::RMS(n) => n.zero_grad(),
        }
    }

    fn set_requires_grad(&mut self, on: bool)
        ensures
            final(self)@ == old(self)@.marked(on),
    {
        match self {
            NormLayer::LN(n) => n.set_requires_grad(on),
            NormLayer::RMS(n) => n.set_requires_grad(on),
        }
    }
}

} // verus!
