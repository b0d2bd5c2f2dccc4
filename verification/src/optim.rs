//! Optimisers: one step of gradient descent, and of Adam with decoupled weight decay.

use crate::float_bits::ONE_BITS;
use crate::optim_laws;
use crate::params;
use crate::params::{Param, ParamView};
use crate::roots;
use crate::rounding;
use crate::values;
use vstd::prelude::*;

verus! {

/// The bit pattern of `0.9`.
pub const BETA1: u32 = 0x3f66_6666;

/// The bit pattern of `0.999`.
pub const BETA2: u32 = 0x3f7f_be77;

/// The bit pattern of `1e-8`.
pub const EPS: u32 = 0x322b_cc77;

/// Whether a step left the frozen parameters, all shapes, marks and gradients alone.
pub open spec fn only_trains(before: Seq<ParamView>, after: Seq<ParamView>) -> bool {
    &&& after.len() == before.len()
    &&& forall|i: int|
        0 <= i < before.len() ==> {
            &&& (#[trigger] after[i]).shape == before[i].shape
            &&& after[i].requires_grad == before[i].requires_grad
            &&& after[i].grad == before[i].grad
            &&& after[i].data.len() == before[i].data.len()
            &&& !before[i].requires_grad ==> after[i].data == before[i].data
        }
}

/// Anything that updates parameters from their gradients.
pub trait Optimizer {
    /// The parameters being optimised.
    spec fn held(&self) -> Seq<ParamView>;

    /// Whether another step can be taken.
    spec fn ready(&self) -> bool;

    fn params(&self) -> (ps: &Vec<Param>)
        ensures
            params::held(ps@) == self.held(),
    ;

    /// Updates every trainable parameter once. Frozen parameters stay as they are.
    fn step(&mut self)
        requires
            old(self).ready(),
        ensures
            only_trains(old(self).held(), final(self).held()),
    ;

    /// Clears all gradients.
    fn zero_grad(&mut self)
        ensures
            final(self).held() == params::cleared(old(self).held()),
    ;
}

/// Clears the gradients of a list of parameters.
fn clear_all(ps: &mut Vec<Param>)
    ensures
        params::held(final(ps)@) == params::cleared(params::held(old(ps)@)),
{
    let n: usize = ps.len();
    for i in 0..n
        invariant
            n == ps@.len(),
            n == old(ps)@.len(),
            forall|j: int| 0 <= j < i ==> (#[trigger] ps@[j])@ == old(ps)@[j]@.cleared(),
            forall|j: int| i <= j < n ==> #[trigger] ps@[j] == old(ps)@[j],
    {
        ps[i].zero_grad();
    }
    assert(params::held(ps@) =~= params::cleared(params::held(old(ps)@)));
}

/// `x - lr * g`.
pub open spec fn descended(x: u32, lr: u32, g: u32) -> u32 {
    rounding::difference(x, rounding::product(lr, g))
}

/// A parameter after one step of gradient descent.
pub open spec fn sgd_update(p: ParamView, lr: u32) -> ParamView {
    if p.requires_grad {
        ParamView {
            data: Seq::new(p.data.len(), |j: int| descended(p.data[j], lr, p.grad[j])),
            ..p
        }
    } else {
        p
    }
}

/// Gradient descent.
#[derive(Debug)]
pub struct SGD {
    lr: u32,
    params: Vec<Param>,
}

impl SGD {
    pub closed spec fn rate(&self) -> u32 {
        self.lr
    }

    pub fn new(lr: u32, params: Vec<Param>) -> (o: Self)
        ensures
            o.rate() == lr,
            o.held() == params::held(params@),
    {
        SGD { lr, params }
    }

    /// Gives the parameters back.
    pub fn into_params(self) -> (ps: Vec<Param>)
        ensures
            params::held(ps@) == self.held(),
    {
        self.params
    }
}

/// One step of gradient descent on one parameter.
fn descend(p: &mut Param, lr: u32)
    requires
        old(p)@.grad.len() == old(p)@.data.len(),
    ensures
        final(p)@ == sgd_update(old(p)@, lr),
{
    if !p.requires_grad {
        return;
    }
    let n: usize = p.data.len();
    for j in 0..n
        invariant
            n == p.data@.len(),
            n == old(p).data@.len(),
            p.grad@ == old(p).grad@,
            p.grad@.len() == n,
            p.shape@ == old(p).shape@,
            p.requires_grad == old(p).requires_grad,
            forall|k: int|
                0 <= k < j ==> #[trigger] p.data@[k] == descended(
                    old(p).data@[k],
                    lr,
                    old(p).grad@[k],
                ),
            forall|k: int| j <= k < n ==> #[trigger] p.data@[k] == old(p).data@[k],
    {
        let moved: u32 = rounding::minus(p.data[j], rounding::multiply(lr, p.grad[j]));
        p.data.set(j, moved);
    }
    assert(p@ =~= sgd_update(old(p)@, lr));
}

impl Optimizer for SGD {
    closed spec fn held(&self) -> Seq<ParamView> {
        params::held(self.params@)
    }

    open spec fn ready(&self) -> bool {
        forall|i: int|
            0 <= i < self.held().len() ==> (#[trigger] self.held()[i]).grad.len()
                == self.held()[i].data.len()
    }

    fn params(&self) -> (ps: &Vec<Param>) {
        &self.params
    }

    fn step(&mut self)
        ensures
            final(self).rate() == old(self).rate(),
            final(self).held() == Seq::new(
                old(self).held().len(),
                |i: int| sgd_update(old(self).held()[i], old(self).rate()),
            ),
    {
        let ghost before = self.held();
        let n: usize = self.params.len();
        for i in 0..n
            invariant
                n == self.params@.len(),
                n == before.len(),
                self.lr == old(self).lr,
                forall|j: int| 0 <= j < n ==> (#[trigger] before[j]).grad.len() == before[j].data.len(),
                forall|j: int|
                    0 <= j < i ==> (#[trigger] self.params@[j])@ == sgd_update(before[j], self.lr),
                forall|j: int| i <= j < n ==> (#[trigger] self.params@[j])@ == before[j],
        {
            assert(before[i as int].grad.len() == before[i as int].data.len());
            descend(&mut self.params[i], self.lr);
        }
        assert(self.held() =~= Seq::new(
            old(self).held().len(),
            |i: int| sgd_update(old(self).held()[i], old(self).rate()),
        ));
    }

    fn zero_grad(&mut self)
        ensures
            final(self).rate() == old(self).rate(),
    {
        clear_all(&mut self.params);
    }
}

/// `x` to the power `n`, by repeated squaring: `r * x^n` with the factors taken from the low bit
/// of `n` upwards.
pub open spec fn power_from(r: u32, x: u32, n: nat) -> u32
    decreases n,
{
    let taken = if n % 2 == 1 {
        rounding::product(r, x)
    } else {
        r
    };
    if n / 2 == 0 {
        taken
    } else {
        power_from(taken, rounding::product(x, x), n / 2)
    }
}

/// `x` to the power `n`.
pub fn power(x: u32, n: usize) -> (r: u32)
    ensures
        r == power_from(ONE_BITS, x, n as nat),
{
    let mut r: u32 = ONE_BITS;
    let mut base: u32 = x;
    let mut left: usize = n;
    while left / 2 != 0
        invariant
            power_from(r, base, left as nat) == power_from(ONE_BITS, x, n as nat),
        decreases left,
    {
        if left % 2 == 1 {
            r = rounding::multiply(r, base);
        }
        base = rounding::multiply(base, base);
        left = left / 2;
    }
    if left % 2 == 1 {
        rounding::multiply(r, base)
    } else {
        r
    }
}

/// The numbers that are the same for every element of one step.
#[derive(Clone, Copy, Debug)]
pub struct AdamRates {
    pub lr: u32,
    pub beta1: u32,
    pub beta2: u32,
    pub weight_decay: u32,
    /// Corrections for the moments having started from zero.
    pub bc1: u32,
    pub bc2: u32,
}

/// The new first moment: a running mean of the gradient.
pub open spec fn first_moment(a: AdamRates, m: u32, g: u32) -> u32 {
    rounding::sum(
        rounding::product(a.beta1, m),
        rounding::product(rounding::difference(ONE_BITS, a.beta1), g),
    )
}

/// The new second moment: a running mean of the squared gradient.
pub open spec fn second_moment(a: AdamRates, v: u32, g: u32) -> u32 {
    rounding::sum(
        rounding::product(a.beta2, v),
        rounding::product(rounding::product(rounding::difference(ONE_BITS, a.beta2), g), g),
    )
}

/// The new value from the new moments: a step scaled by the second moment, and a decay towards
/// zero that does not depend on the gradient.
pub open spec fn adam_value(a: AdamRates, x: u32, m: u32, v: u32) -> u32 {
    let m_hat = rounding::quotient(m, a.bc1);
    let v_hat = rounding::quotient(v, a.bc2);
    let step = rounding::quotient(
        rounding::product(a.lr, m_hat),
        rounding::sum(roots::root(v_hat), EPS),
    );
    let decay = rounding::product(rounding::product(a.lr, a.weight_decay), x);
    rounding::difference(rounding::difference(x, step), decay)
}

/// One parameter with its moments.
#[verifier::ext_equal]
pub struct AdamSlot {
    pub param: ParamView,
    pub m: Seq<u32>,
    pub v: Seq<u32>,
}

/// A parameter and its moments after one step.
pub open spec fn adam_update(a: AdamRates, s: AdamSlot) -> AdamSlot {
    if s.param.requires_grad {
        let m = Seq::new(s.m.len(), |j: int| first_moment(a, s.m[j], s.param.grad[j]));
        let v = Seq::new(s.v.len(), |j: int| second_moment(a, s.v[j], s.param.grad[j]));
        AdamSlot {
            param: ParamView {
                data: Seq::new(
                    s.param.data.len(),
                    |j: int| adam_value(a, s.param.data[j], m[j], v[j]),
                ),
                ..s.param
            },
            m,
            v,
        }
    } else {
        s
    }
}

/// Adam with decoupled weight decay.
#[derive(Debug)]
pub struct AdamW {
    pub lr: u32,
    beta1: u32,
    beta2: u32,
    weight_decay: u32,
    t: usize,
    params: Vec<Param>,
    m: Vec<Vec<u32>>,
    v: Vec<Vec<u32>>,
}

/// The contents of a list of vectors.
pub open spec fn rows_of(m: Seq<Vec<u32>>) -> Seq<Seq<u32>> {
    Seq::new(m.len(), |i: int| m[i]@)
}

/// Whether moments have the sizes of the parameters.
pub open spec fn fits(m: Seq<Vec<u32>>, ps: Seq<ParamView>) -> bool {
    &&& m.len() == ps.len()
    &&& forall|i: int| 0 <= i < ps.len() ==> (#[trigger] m[i])@.len() == ps[i].data.len()
}

/// Zero moments for every parameter.
fn zero_moments(ps: &Vec<Param>) -> (m: Vec<Vec<u32>>)
    ensures
        fits(m@, params::held(ps@)),
        rows_of(m@) == Seq::new(ps@.len(), |i: int| params::zeros(ps@[i]@.data.len())),
{
    let mut m: Vec<Vec<u32>> = Vec::new();
    for i in 0..ps.len()
        invariant
            m@.len() == i,
            forall|j: int| 0 <= j < i ==> (#[trigger] m@[j])@ == params::zeros(ps@[j]@.data.len()),
    {
        m.push(params::zero_vec(ps[i].data.len()));
    }
    assert(rows_of(m@) =~= Seq::new(ps@.len(), |i: int| params::zeros(ps@[i]@.data.len())));
    m
}

impl AdamW {
    /// The learning rate.
    pub closed spec fn rate(&self) -> u32 {
        self.lr
    }

    /// Steps taken.
    pub closed spec fn steps(&self) -> int {
        self.t as int
    }

    pub closed spec fn first(&self) -> Seq<Seq<u32>> {
        rows_of(self.m@)
    }

    pub closed spec fn second(&self) -> Seq<Seq<u32>> {
        rows_of(self.v@)
    }

    /// The constants of the step that makes the count `t`.
    pub closed spec fn rates(&self, t: nat) -> AdamRates {
        AdamRates {
            lr: self.lr,
            beta1: self.beta1,
            beta2: self.beta2,
            weight_decay: self.weight_decay,
            bc1: rounding::difference(ONE_BITS, power_from(ONE_BITS, self.beta1, t)),
            bc2: rounding::difference(ONE_BITS, power_from(ONE_BITS, self.beta2, t)),
        }
    }

    /// Parameter `i` with its moments.
    pub open spec fn slot(&self, i: int) -> AdamSlot {
        AdamSlot { param: self.held()[i], m: self.first()[i], v: self.second()[i] }
    }

    /// Every parameter has moments of its size.
    pub closed spec fn wf(&self) -> bool {
        &&& fits(self.m@, self.held())
        &&& fits(self.v@, self.held())
        &&& forall|i: int|
            0 <= i < self.held().len() ==> (#[trigger] self.held()[i]).grad.len()
                == self.held()[i].data.len()
    }

    /// With the usual betas.
    pub fn new(lr: u32, params: Vec<Param>, weight_decay: u32) -> (o: Self)
        requires
            forall|i: int|
                0 <= i < params@.len() ==> (#[trigger] params@[i])@.grad.len()
                    == params@[i]@.data.len(),
        ensures
            o.wf(),
            o.held() == params::held(params@),
            o.rate() == lr,
            o.steps() == 0,
            o.first() == Seq::new(params@.len(), |i: int| params::zeros(params@[i]@.data.len())),
            o.second() == o.first(),
            forall|t: nat| #[trigger]
                o.rates(t) == (AdamRates {
                    lr,
                    beta1: BETA1,
                    beta2: BETA2,
                    weight_decay,
                    bc1: rounding::difference(ONE_BITS, power_from(ONE_BITS, BETA1, t)),
                    bc2: rounding::difference(ONE_BITS, power_from(ONE_BITS, BETA2, t)),
                }),
    {
        Self::new_with_betas(lr, params, weight_decay, BETA1, BETA2)
    }

    /// With betas of the caller's choice.
    pub fn new_with_betas(
        lr: u32,
        params: Vec<Param>,
        weight_decay: u32,
        beta1: u32,
        beta2: u32,
    ) -> (o: Self)
        requires
            forall|i: int|
                0 <= i < params@.len() ==> (#[trigger] params@[i])@.grad.len()
                    == params@[i]@.data.len(),
        ensures
            o.wf(),
            o.held() == params::held(params@),
            o.rate() == lr,
            o.steps() == 0,
            o.first() == Seq::new(params@.len(), |i: int| params::zeros(params@[i]@.data.len())),
            o.second() == o.first(),
            forall|t: nat| #[trigger]
                o.rates(t) == (AdamRates {
                    lr,
                    beta1,
                    beta2,
                    weight_decay,
                    bc1: rounding::difference(ONE_BITS, power_from(ONE_BITS, beta1, t)),
                    bc2: rounding::difference(ONE_BITS, power_from(ONE_BITS, beta2, t)),
                }),
    {
        let m: Vec<Vec<u32>> = zero_moments(&params);
        let v: Vec<Vec<u32>> = zero_moments(&params);
        AdamW { lr, beta1, beta2, weight_decay, t: 0, params, m, v }
    }

    /// Steps taken and both moments, for a checkpoint.
    pub fn state(&self) -> (r: (usize, &Vec<Vec<u32>>, &Vec<Vec<u32>>))
        ensures
            r.0 == self.steps(),
            rows_of(r.1@) == self.first(),
            rows_of(r.2@) == self.second(),
    {
        (self.t, &self.m, &self.v)
    }

    /// Takes over a saved state.
    pub fn restore_state(&mut self, t: usize, m: Vec<Vec<u32>>, v: Vec<Vec<u32>>)
        requires
            old(self).wf(),
            fits(m@, old(self).held()),
            fits(v@, old(self).held()),
        ensures
            final(self).wf(),
            final(self).steps() == t,
            final(self).first() == rows_of(m@),
            final(self).second() == rows_of(v@),
            final(self).held() == old(self).held(),
            final(self).rate() == old(self).rate(),
            forall|t: nat| #[trigger] final(self).rates(t) == old(self).rates(t),
    {
        self.t = t;
        self.m = m;
        self.v = v;
    }

    /// Changes the learning rate.
    pub fn set_lr(&mut self, lr: u32)
        ensures
            old(self).wf() ==> final(self).wf(),
            final(self).rate() == lr,
            final(self).held() == old(self).held(),
            final(self).steps() == old(self).steps(),
            final(self).first() == old(self).first(),
            final(self).second() == old(self).second(),
            forall|t: nat| #[trigger]
                final(self).rates(t) == (AdamRates { lr, ..old(self).rates(t) }),
    {
        self.lr = lr;
    }

    /// Gives the parameters back.
    pub fn into_params(self) -> (ps: Vec<Param>)
        ensures
            params::held(ps@) == self.held(),
    {
        self.params
    }
}

/// One step on one parameter with its moments.
fn adam_step(p: &mut Param, m: &mut Vec<u32>, v: &mut Vec<u32>, a: AdamRates)
    requires
        old(p)@.grad.len() == old(p)@.data.len(),
        old(m)@.len() == old(p)@.data.len(),
        old(v)@.len() == old(p)@.data.len(),
    ensures
        (AdamSlot { param: final(p)@, m: final(m)@, v: final(v)@ }) == adam_update(
            a,
            AdamSlot { param: old(p)@, m: old(m)@, v: old(v)@ },
        ),
{
    if !p.requires_grad {
        return;
    }
    let ghost s = AdamSlot { param: old(p)@, m: old(m)@, v: old(v)@ };
    let ghost t = adam_update(a, s);
    let n: usize = p.data.len();
    for j in 0..n
        invariant
            s == (AdamSlot { param: old(p)@, m: old(m)@, v: old(v)@ }),
            t == adam_update(a, s),
            s.param.requires_grad,
            n == s.param.data.len(),
            s.param.grad.len() == n,
            s.m.len() == n,
            s.v.len() == n,
            p.data@.len() == n,
            m@.len() == n,
            v@.len() == n,
            p.grad@ == s.param.grad,
            p.shape@ == s.param.shape,
            p.requires_grad == s.param.requires_grad,
            forall|k: int| 0 <= k < j ==> #[trigger] p.data@[k] == t.param.data[k],
            forall|k: int| 0 <= k < j ==> #[trigger] m@[k] == t.m[k],
            forall|k: int| 0 <= k < j ==> #[trigger] v@[k] == t.v[k],
            forall|k: int| j <= k < n ==> #[trigger] p.data@[k] == s.param.data[k],
            forall|k: int| j <= k < n ==> #[trigger] m@[k] == s.m[k],
            forall|k: int| j <= k < n ==> #[trigger] v@[k] == s.v[k],
    {
        let g: u32 = p.grad[j];
        let x: u32 = p.data[j];
        assert(p.data@[j as int] == s.param.data[j as int]);
        let mj: u32 = rounding::plus(
            rounding::multiply(a.beta1, m[j]),
            rounding::multiply(rounding::minus(ONE_BITS, a.beta1), g),
        );
        let vj: u32 = rounding::plus(
            rounding::multiply(a.beta2, v[j]),
            rounding::multiply(rounding::multiply(rounding::minus(ONE_BITS, a.beta2), g), g),
        );
        let m_hat: u32 = rounding::divide(mj, a.bc1);
        let v_hat: u32 = rounding::divide(vj, a.bc2);
        let step: u32 = rounding::divide(
            rounding::multiply(a.lr, m_hat),
            rounding::plus(roots::square_root(v_hat), EPS),
        );
        let decay: u32 = rounding::multiply(rounding::multiply(a.lr, a.weight_decay), x);
        m.set(j, mj);
        v.set(j, vj);
        p.data.set(j, rounding::minus(rounding::minus(x, step), decay));
    }
    assert(p.data@ =~= t.param.data);
    assert(m@ =~= t.m);
    assert(v@ =~= t.v);
}

impl Optimizer for AdamW {
    closed spec fn held(&self) -> Seq<ParamView> {
        params::held(self.params@)
    }

    open spec fn ready(&self) -> bool {
        self.wf() && self.steps() < 0x7fff_ffff
    }

    fn params(&self) -> (ps: &Vec<Param>) {
        &self.params
    }

    fn step(&mut self)
        ensures
            final(self).wf(),
            final(self).steps() == old(self).steps() + 1,
            final(self).rate() == old(self).rate(),
            forall|t: nat| #[trigger] final(self).rates(t) == old(self).rates(t),
            final(self).first().len() == old(self).first().len(),
            final(self).second().len() == old(self).second().len(),
            forall|i: int|
                0 <= i < old(self).held().len() ==> #[trigger] final(self).slot(i) == adam_update(
                    old(self).rates((old(self).steps() + 1) as nat),
                    old(self).slot(i),
                ),
    {
        self.t = self.t + 1;
        let a: AdamRates = AdamRates {
            lr: self.lr,
            beta1: self.beta1,
            beta2: self.beta2,
            weight_decay: self.weight_decay,
            bc1: rounding::minus(ONE_BITS, power(self.beta1, self.t)),
            bc2: rounding::minus(ONE_BITS, power(self.beta2, self.t)),
        };
        let ghost first = *self;
        let n: usize = self.params.len();
        assert forall|j: int| 0 <= j < n implies (#[trigger] first.params@[j])@.grad.len()
            == first.params@[j]@.data.len() && first.m@[j]@.len() == first.params@[j]@.data.len()
            && first.v@[j]@.len() == first.params@[j]@.data.len() by {
            assert(old(self).held()[j] == first.params@[j]@);
            assert(old(self).m@[j] == first.m@[j]);
            assert(old(self).v@[j] == first.v@[j]);
        }
        for i in 0..n
            invariant
                n == self.params@.len(),
                n == self.m@.len(),
                n == self.v@.len(),
                n == first.params@.len(),
                n == first.m@.len(),
                n == first.v@.len(),
                self.lr == first.lr,
                self.beta1 == first.beta1,
                self.beta2 == first.beta2,
                self.weight_decay == first.weight_decay,
                self.t == first.t,
                forall|j: int|
                    0 <= j < n ==> (#[trigger] first.params@[j])@.grad.len()
                        == first.params@[j]@.data.len() && first.m@[j]@.len()
                        == first.params@[j]@.data.len() && first.v@[j]@.len()
                        == first.params@[j]@.data.len(),
                forall|j: int|
                    0 <= j < i ==> (AdamSlot {
                        param: (#[trigger] self.params@[j])@,
                        m: self.m@[j]@,
                        v: self.v@[j]@,
                    }) == adam_update(
                        a,
                        AdamSlot {
                            param: first.params@[j]@,
                            m: first.m@[j]@,
                            v: first.v@[j]@,
                        },
                    ),
                forall|j: int| i <= j < n ==> #[trigger] self.params@[j] == first.params@[j],
                forall|j: int| i <= j < n ==> #[trigger] self.m@[j] == first.m@[j],
                forall|j: int| i <= j < n ==> #[trigger] self.v@[j] == first.v@[j],
        {
            assert(self.params@[i as int] == first.params@[i as int]);
            assert(self.m@[i as int] == first.m@[i as int]);
            assert(self.v@[i as int] == first.v@[i as int]);
            adam_step(&mut self.params[i], &mut self.m[i], &mut self.v[i], a);
        }
        proof {
            assert forall|i: int| 0 <= i < n implies #[trigger] self.slot(i) == adam_update(
                a,
                old(self).slot(i),
            ) by {
                assert(self.params@[i]@ == self.held()[i]);
                assert(old(self).held()[i] == old(self).params@[i]@);
            }
            let before = old(self).held();
            let after = self.held();
            assert forall|i: int| 0 <= i < before.len() implies {
                &&& (#[trigger] after[i]).shape == before[i].shape
                &&& after[i].requires_grad == before[i].requires_grad
                &&& after[i].grad == before[i].grad
                &&& after[i].data.len() == before[i].data.len()
                &&& !before[i].requires_grad ==> after[i].data == before[i].data
                &&& self.m@[i]@.len() == before[i].data.len()
                &&& self.v@[i]@.len() == before[i].data.len()
            } by {
                assert(self.slot(i) == adam_update(a, old(self).slot(i)));
                assert(self.slot(i).param == after[i]);
                assert(self.slot(i).m == self.m@[i]@);
                assert(self.slot(i).v == self.v@[i]@);
            }
            assert(fits(self.m@, after)) by {
                assert forall|i: int| 0 <= i < after.len() implies (#[trigger] self.m@[i])@.len()
                    == after[i].data.len() by {
                    assert(after[i].shape == before[i].shape);
                }
            }
            assert(fits(self.v@, after)) by {
                assert forall|i: int| 0 <= i < after.len() implies (#[trigger] self.v@[i])@.len()
                    == after[i].data.len() by {
                    assert(after[i].shape == before[i].shape);
                }
            }
        }
    }

    fn zero_grad(&mut self)
        ensures
            old(self).wf() ==> final(self).wf(),
            final(self).steps() == old(self).steps(),
            final(self).rate() == old(self).rate(),
            final(self).first() == old(self).first(),
            final(self).second() == old(self).second(),
            forall|t: nat| #[trigger] final(self).rates(t) == old(self).rates(t),
    {
        clear_all(&mut self.params);
        proof {
            let before = old(self).held();
            let after = self.held();
            assert forall|i: int| 0 <= i < before.len() implies (#[trigger] after[i])
                == before[i].cleared() by {}
            if old(self).wf() {
                assert(fits(self.m@, after));
                assert(fits(self.v@, after));
                assert forall|i: int| 0 <= i < after.len() implies (#[trigger] after[i]).grad.len()
                    == after[i].data.len() by {
                    assert(before[i].grad.len() == before[i].data.len());
                }
            }
        }
    }
}

/// A frozen parameter keeps its value and its moments through any step.
pub proof fn frozen_parameters_stay(a: AdamRates, s: AdamSlot, lr: u32)
    requires
        !s.param.requires_grad,
    ensures
        adam_update(a, s) == s,
        sgd_update(s.param, lr) == s.param,
{
}

/// An optimiser that takes over the state of another goes on as that one does: with the same
/// parameters, rates, steps and moments, every parameter and its moments get the same update.
pub proof fn resumed_runs_go_on_alike(a: AdamW, b: AdamW, i: int)
    requires
        a.held() == b.held(),
        a.steps() == b.steps(),
        a.first() == b.first(),
        a.second() == b.second(),
        forall|t: nat| #[trigger] a.rates(t) == b.rates(t),
    ensures
        adam_update(a.rates((a.steps() + 1) as nat), a.slot(i)) == adam_update(
            b.rates((b.steps() + 1) as nat),
            b.slot(i),
        ),
{
}

/// The corrections for the moments having started from zero: after `t` steps of a mean with weight
/// `beta`, a share of `1 - beta^t` has been filled.
pub proof fn corrections_are_the_filled_shares(o: AdamW, t: nat)
    requires
        o.rates(t).beta1 <= ONE_BITS,
        o.rates(t).beta2 <= ONE_BITS,
    ensures
        values::size(
            values::value(o.rates(t).bc1) - (1real - optim_laws::to_the(
                values::value(o.rates(t).beta1),
                t,
            )),
        ) <= (8real * (t as real) + 1real) * values::grain(),
        values::size(
            values::value(o.rates(t).bc2) - (1real - optim_laws::to_the(
                values::value(o.rates(t).beta2),
                t,
            )),
        ) <= (8real * (t as real) + 1real) * values::grain(),
{
    optim_laws::lemma_filled_share(o.beta1, t);
    optim_laws::lemma_filled_share(o.beta2, t);
}

/// An optimiser steps with the rate and the betas that it was given, whatever the step.
pub proof fn rates_stay(o: AdamW, t: nat, u: nat)
    ensures
        o.rates(t).lr == o.rate(),
        o.rates(t).beta1 == o.rates(u).beta1,
        o.rates(t).beta2 == o.rates(u).beta2,
        o.rates(t).weight_decay == o.rates(u).weight_decay,
{
}

} // verus!
