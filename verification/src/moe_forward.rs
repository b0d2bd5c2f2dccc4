//! The forward pass of a layer of experts.

use crate::float_bits;
use crate::float_bits::ONE_BITS;
use crate::loss;
use crate::matrix;
use crate::mlp;
use crate::moe;
use crate::moe::RoutePlan;
use crate::moe_layer;
use crate::moe_layer::{MoELayer, MoeView};
use crate::rounding;
use crate::softmax;
use vstd::prelude::*;

verus! {

/// Two matrices multiplied element by element.
pub open spec fn elementwise(x: Seq<u32>, y: Seq<u32>) -> Seq<u32> {
    Seq::new(x.len(), |p: int| rounding::product(x[p], y[p]))
}

fn multiply_all(x: &[u32], y: &[u32]) -> (r: Vec<u32>)
    requires
        x@.len() == y@.len(),
    ensures
        r@ == elementwise(x@, y@),
{
    let mut r: Vec<u32> = Vec::new();
    for p in 0..x.len()
        invariant
            x@.len() == y@.len(),
            r@ =~= Seq::new(p as nat, |p: int| rounding::product(x@[p], y@[p])),
    {
        r.push(rounding::multiply(x[p], y[p]));
    }
    r
}

/// Whether `w` may be the mixing weights: the probabilities over all experts with the others blanked
/// out, or a softmax over the chosen ones only.
pub open spec fn are_gates<E: Fn(u32) -> u32>(
    exp: &E,
    switch_gate: bool,
    logits: Seq<u32>,
    probs: Seq<u32>,
    plan: RoutePlan,
    n: int,
    n_expert: int,
    w: Seq<u32>,
) -> bool {
    if switch_gate {
        w == elementwise(probs, plan.mask@)
    } else {
        softmax::is_softmax(exp, matrix::total(logits, plan.penalty@), n, n_expert, w)
    }
}

/// The mean of squares of `l` times `1 / n`.
pub open spec fn router_loss(l: Seq<u32>, n: int) -> u32 {
    rounding::product(
        loss::running_sum(elementwise(l, l), l.len()),
        rounding::quotient(ONE_BITS, rounding::count_value(n)),
    )
}

/// Adds up a vector in order.
fn sum_all(v: &[u32]) -> (s: u32)
    ensures
        s == loss::running_sum(v@, v@.len()),
{
    let mut s: u32 = 0;
    for k in 0..v.len()
        invariant
            s == loss::running_sum(v@, k as nat),
    {
        s = rounding::plus(s, v[k]);
    }
    s
}

/// Whether a forward pass may have these results.
pub open spec fn is_forward<
    E: Fn(u32) -> u32,
    L: Fn(u32) -> u32,
    G: Fn(u32) -> u32,
    S: Fn(u32, u32) -> u32,
>(
    m: MoeView,
    exp: &E,
    ln: &L,
    gelu: &G,
    swiglu: &S,
    x: Seq<u32>,
    n: int,
    d: int,
    plan: RoutePlan,
    y: Seq<u32>,
    aux_raw: u32,
    aux: Option<u32>,
) -> bool {
    let e = m.experts.len() as int;
    let logits = m.router.output(x, n);
    &&& moe::is_routing(
        plan,
        logits,
        n,
        e,
        m.top_k as int,
        moe::capacity_of(n, e, m.top_k as int, m.capacity_factor) as usize,
    )
    &&& exists|probs: Seq<u32>, w: Seq<u32>|
        #![trigger are_gates(exp, m.switch_gate, logits, probs, plan, n, e, w)]
        softmax::is_softmax(exp, logits, n, e, probs) && are_gates(
            exp,
            m.switch_gate,
            logits,
            probs,
            plan,
            n,
            e,
            w,
        ) && moe_layer::mixes(m, gelu, swiglu, x, n, d, plan.sel@, w, y) && aux_raw
            == moe_layer::balance_of(plan.f@, moe_layer::mean_probabilities(probs, n, e))
    &&& if float_bits::positive(m.z_loss_coef) {
        exists|l: Seq<u32>| #[trigger]
            softmax::is_log_sum(exp, ln, logits, n, e, l) && aux == moe_layer::added_loss(
                aux_raw,
                m.aux_coef,
                router_loss(l, n),
                m.z_loss_coef,
            )
    } else {
        aux == moe_layer::added_loss(aux_raw, m.aux_coef, 0, m.z_loss_coef)
    }
}

/// The weights of the experts of `n` tokens.
pub(crate) fn gates<E: Fn(u32) -> u32>(
    switch_gate: bool,
    exp: &E,
    logits: &Vec<u32>,
    probs: &Vec<u32>,
    plan: &RoutePlan,
    n: usize,
    n_expert: usize,
) -> (w: Vec<u32>)
    requires
        n_expert > 0,
        logits@.len() == n * n_expert,
        probs@.len() == n * n_expert,
        plan.mask@.len() == n * n_expert,
        plan.penalty@.len() == n * n_expert,
        forall|v: u32| call_requires(exp, (v,)),
    ensures
        are_gates(
            exp,
            switch_gate,
            logits@,
            probs@,
            *plan,
            n as int,
            n_expert as int,
            w@,
        ),
        w@.len() == n * n_expert,
{
    if switch_gate {
        multiply_all(probs, &plan.mask)
    } else {
        let shifted: Vec<u32> = matrix::add_matrices(logits, &plan.penalty);
        softmax::softmax_rows(exp, &shifted, n, n_expert)
    }
}

/// The outcome of a forward pass.
#[derive(Debug)]
pub struct Forward {
    pub y: Vec<u32>,
    pub plan: RoutePlan,
    /// The balance loss without its coefficient.
    pub aux_raw: u32,
    /// The loss to add to the main one.
    pub aux: Option<u32>,
}

impl MoELayer {
    /// Routes `n` tokens, runs every expert on its own tokens, and works out the losses that keep
    /// the experts balanced. The statistics of the pass are kept.
    pub fn forward_with_aux<
        E: Fn(u32) -> u32,
        L: Fn(u32) -> u32,
        G: Fn(u32) -> u32,
        S: Fn(u32, u32) -> u32,
    >(
        &mut self,
        x: &[u32],
        n: usize,
        d: usize,
        exp: &E,
        ln: &L,
        gelu: &G,
        swiglu: &S,
    ) -> (r: Forward)
        requires
            old(self)@.wf(d),
            n > 0,
            x@.len() == n * d,
            n * old(self)@.experts.len() <= usize::MAX,
            forall|e: int|
                0 <= e < old(self)@.experts.len() ==> mlp::block_fits(
                    #[trigger] old(self)@.experts[e],
                    n as int,
                ),
            forall|v: u32| call_requires(exp, (v,)),
            forall|v: u32| call_requires(ln, (v,)),
            forall|v: u32| call_requires(gelu, (v,)),
            forall|v: u32, u: u32| call_requires(swiglu, (v, u)),
        ensures
            final(self)@ == old(self)@,
            is_forward(
                old(self)@,
                exp,
                ln,
                gelu,
                swiglu,
                x@,
                n as int,
                d as int,
                r.plan,
                r.y@,
                r.aux_raw,
                r.aux,
            ),
            moe_layer::is_record(final(self).stats, r.plan, n as int),
            final(self).stats.aux == r.aux_raw,
    {
        let ghost m = self@;
        let n_expert: usize = self.experts.len();
        let logits: Vec<u32> = self.logits(x, n, d);
        let plan: RoutePlan = self.route_plan(x, n, d);
        proof {
            moe_layer::routings_are_selections(
                plan,
                logits@,
                n as int,
                n_expert as int,
                m.top_k as int,
                moe::capacity_of(
                    n as int,
                    n_expert as int,
                    m.top_k as int,
                    m.capacity_factor,
                ) as usize,
            );
        }
        let probs: Vec<u32> = softmax::softmax_rows(exp, &logits, n, n_expert);
        let w: Vec<u32> = gates(self.switch_gate, exp, &logits, &probs, &plan, n, n_expert);
        assert(are_gates(
            exp,
            m.switch_gate,
            logits@,
            probs@,
            plan,
            n as int,
            n_expert as int,
            w@,
        ));
        let y: Vec<u32> = self.mix(x, n, d, &plan, &w, gelu, swiglu);
        let p_mean: Vec<u32> = moe_layer::mean_columns(&probs, n, n_expert);
        let aux_raw: u32 = moe_layer::balance_loss(&plan.f, &p_mean);
        let z: u32 = if float_bits::is_positive(self.z_loss_coef) {
            let l: Vec<u32> = softmax::log_sum_exp(exp, ln, &logits, n, n_expert);
            let sq: Vec<u32> = multiply_all(&l, &l);
            rounding::multiply(
                sum_all(&sq),
                rounding::divide(ONE_BITS, rounding::from_count(n as u64)),
            )
        } else {
            0
        };
        let aux: Option<u32> = self.weighted_aux(aux_raw, z);
        self.record(&plan, n, aux_raw);
        Forward { y, plan, aux_raw, aux }
    }

    /// Runs the layer on `n` tokens and keeps its statistics; the loss is left aside.
    pub fn forward<
        E: Fn(u32) -> u32,
        L: Fn(u32) -> u32,
        G: Fn(u32) -> u32,
        S: Fn(u32, u32) -> u32,
    >(
        &mut self,
        x: &[u32],
        n: usize,
        d: usize,
        exp: &E,
        ln: &L,
        gelu: &G,
        swiglu: &S,
    ) -> (y: Vec<u32>)
        requires
            old(self)@.wf(d),
            n > 0,
            x@.len() == n * d,
            n * old(self)@.experts.len() <= usize::MAX,
            forall|e: int|
                0 <= e < old(self)@.experts.len() ==> mlp::block_fits(
                    #[trigger] old(self)@.experts[e],
                    n as int,
                ),
            forall|v: u32| call_requires(exp, (v,)),
            forall|v: u32| call_requires(ln, (v,)),
            forall|v: u32| call_requires(gelu, (v,)),
            forall|v: u32, u: u32| call_requires(swiglu, (v, u)),
        ensures
            final(self)@ == old(self)@,
            exists|plan: RoutePlan, aux: Option<u32>| #[trigger]
                is_forward(
                    old(self)@,
                    exp,
                    ln,
                    gelu,
                    swiglu,
                    x@,
                    n as int,
                    d as int,
                    plan,
                    y@,
                    final(self).stats.aux,
                    aux,
                ) && final(self).stats.dropped == plan.dropped && final(self).stats.counts@
                    == Seq::new(plan.sel@.len(), |e: int| plan.sel@[e]@.len() as usize),
            final(self).stats.n_tokens == n,
    {
        let r: Forward = self.forward_with_aux(x, n, d, exp, ln, gelu, swiglu);
        r.y
    }
}

} // verus!
