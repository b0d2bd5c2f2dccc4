//! A layer of experts behind a router.

use crate::config;
use crate::config::GPTConfig;
use crate::float_bits;
use crate::layers::{Linear, LinearView};
use crate::matrix;
use crate::mlp;
use crate::mlp::{MLPEnum, MlpView};
use crate::moe;
use crate::moe::RoutePlan;
use crate::moe_laws;
use crate::params;
use crate::params::{Module, Param, ParamView};
use crate::quant;
use crate::rounding;
use crate::sparse::RouteStats;
use crate::text;
use vstd::prelude::*;

verus! {

/// A router and its experts.
#[derive(Debug)]
pub struct MoELayer {
    /// `[width, experts]`.
    pub router: Linear,
    pub experts: Vec<MLPEnum>,
    pub n_expert: usize,
    pub top_k: usize,
    pub capacity_factor: u32,
    pub aux_coef: u32,
    pub z_loss_coef: u32,
    /// Whether tokens are weighted by the probabilities over all experts, not renormalised over
    /// the chosen ones.
    pub switch_gate: bool,
    /// What the last forward pass did.
    pub stats: RouteStats,
}

/// What the parameters of a layer of experts hold, with its settings.
#[verifier::ext_equal]
pub struct MoeView {
    pub router: LinearView,
    pub experts: Seq<MlpView>,
    pub n_expert: usize,
    pub top_k: usize,
    pub capacity_factor: u32,
    pub aux_coef: u32,
    pub z_loss_coef: u32,
    pub switch_gate: bool,
}

/// The contents of a list of blocks.
pub open spec fn blocks_of(ms: Seq<MLPEnum>) -> Seq<MlpView> {
    Seq::new(ms.len(), |i: int| ms[i]@)
}

impl View for MoELayer {
    type V = MoeView;

    open spec fn view(&self) -> MoeView {
        MoeView {
            router: self.router@,
            experts: blocks_of(self.experts@),
            n_expert: self.n_expert,
            top_k: self.top_k,
            capacity_factor: self.capacity_factor,
            aux_coef: self.aux_coef,
            z_loss_coef: self.z_loss_coef,
            switch_gate: self.switch_gate,
        }
    }
}

/// The parameters of the first `n` experts.
pub open spec fn expert_params(es: Seq<MlpView>, n: nat) -> Seq<ParamView>
    decreases n,
{
    if n == 0 {
        Seq::empty()
    } else {
        expert_params(es, (n - 1) as nat) + es[n - 1].params()
    }
}

/// The named parameters of the first `n` experts.
pub open spec fn expert_named(es: Seq<MlpView>, prefix: Seq<char>, n: nat) -> Seq<
    (Seq<char>, ParamView),
>
    decreases n,
{
    if n == 0 {
        Seq::empty()
    } else {
        expert_named(es, prefix, (n - 1) as nat) + es[n - 1].named(
            prefix + ".experts."@ + text::digits((n - 1) as nat),
        )
    }
}

impl MoeView {
    pub open spec fn wf(self, d: usize) -> bool {
        &&& self.router.wf()
        &&& self.router.inputs() == d
        &&& self.router.outputs() == self.experts.len()
        &&& self.router.quant is None
        &&& self.router.lora is None
        &&& self.n_expert == self.experts.len()
        &&& 1 <= self.top_k <= self.experts.len()
        &&& forall|e: int| 0 <= e < self.experts.len() ==> (#[trigger] self.experts[e]).wf(d)
        &&& forall|e: int|
            0 <= e < self.experts.len() ==> !(#[trigger] self.experts[e]).has_lora()
                && !self.experts[e].has_quant()
    }

    pub open spec fn params(self) -> Seq<ParamView> {
        self.router.params() + expert_params(self.experts, self.experts.len())
    }

    pub open spec fn named(self, prefix: Seq<char>) -> Seq<(Seq<char>, ParamView)> {
        self.router.named(prefix + ".router"@) + expert_named(
            self.experts,
            prefix,
            self.experts.len(),
        )
    }

    pub open spec fn cleared(self) -> MoeView {
        MoeView {
            router: self.router.cleared(),
            experts: Seq::new(self.experts.len(), |e: int| self.experts[e].cleared()),
            ..self
        }
    }

    pub open spec fn marked(self, on: bool) -> MoeView {
        MoeView {
            router: self.router.marked(on),
            experts: Seq::new(self.experts.len(), |e: int| self.experts[e].marked(on)),
            ..self
        }
    }
}

/// Whether expert `e` processes token `i`.
pub open spec fn processes(sel: Seq<Vec<usize>>, e: int, i: int) -> bool {
    sel[e]@.contains(i as usize)
}

/// Column `c` of the output for token `i` after the first `upto` experts: the weighted answers of
/// the experts that processed it, added in expert order.
pub open spec fn combined_cell(
    sel: Seq<Vec<usize>>,
    outs: Seq<Seq<u32>>,
    w: Seq<u32>,
    n_expert: int,
    d: int,
    i: int,
    c: int,
    upto: nat,
) -> u32
    decreases upto,
{
    if upto == 0 {
        0
    } else {
        let e = upto - 1;
        let before = combined_cell(sel, outs, w, n_expert, d, i, c, e as nat);
        if processes(sel, e, i) {
            rounding::sum(
                before,
                rounding::product(
                    w[i * n_expert + e],
                    outs[e][sel[e]@.index_of(i as usize) * d + c],
                ),
            )
        } else {
            before
        }
    }
}

/// The output of a layer for `n` tokens.
pub open spec fn combined(
    sel: Seq<Vec<usize>>,
    outs: Seq<Seq<u32>>,
    w: Seq<u32>,
    n_expert: int,
    n: int,
    d: int,
) -> Seq<u32> {
    Seq::new(
        (n * d) as nat,
        |p: int| combined_cell(sel, outs, w, n_expert, d, p / d, p % d, n_expert as nat),
    )
}

/// `experts * sum(f * p)` over the first `k` experts, before the factor.
pub open spec fn overlap(f: Seq<u32>, p: Seq<u32>, k: nat) -> u32
    decreases k,
{
    if k == 0 {
        0
    } else {
        rounding::sum(overlap(f, p, (k - 1) as nat), rounding::product(f[k - 1], p[k - 1]))
    }
}

/// The balance loss of shares `f` and mean probabilities `p`: `experts * sum(f * p)`.
pub open spec fn balance_of(f: Seq<u32>, p: Seq<u32>) -> u32 {
    rounding::product(overlap(f, p, f.len()), rounding::count_value(f.len() as int))
}

/// The balance loss.
pub fn balance_loss(f: &[u32], p: &[u32]) -> (l: u32)
    requires
        f@.len() == p@.len(),
    ensures
        l == balance_of(f@, p@),
{
    let n: usize = f.len();
    let mut s: u32 = 0;
    for k in 0..n
        invariant
            n == f@.len(),
            f@.len() == p@.len(),
            s == overlap(f@, p@, k as nat),
    {
        s = rounding::plus(s, rounding::multiply(f[k], p[k]));
    }
    rounding::multiply(s, rounding::from_count(n as u64))
}

/// The sum of column `e` over the first `k` tokens.
pub open spec fn column_sum(p: Seq<u32>, n_expert: int, e: int, k: nat) -> u32
    decreases k,
{
    if k == 0 {
        0
    } else {
        rounding::sum(column_sum(p, n_expert, e, (k - 1) as nat), p[(k - 1) * n_expert + e])
    }
}

/// The mean probability of every expert: the column sums times `1 / n`.
pub open spec fn mean_probabilities(p: Seq<u32>, n: int, n_expert: int) -> Seq<u32> {
    Seq::new(
        n_expert as nat,
        |e: int|
            rounding::product(
                column_sum(p, n_expert, e, n as nat),
                rounding::quotient(float_bits::ONE_BITS, rounding::count_value(n)),
            ),
    )
}

/// The mean probability of every expert over `n` tokens.
pub fn mean_columns(p: &[u32], n: usize, n_expert: usize) -> (m: Vec<u32>)
    requires
        p@.len() == n * n_expert,
    ensures
        m@ == mean_probabilities(p@, n as int, n_expert as int),
{
    let len: usize = p.len();
    let inv: u32 = rounding::divide(float_bits::ONE_BITS, rounding::from_count(n as u64));
    let mut m: Vec<u32> = Vec::new();
    for e in 0..n_expert
        invariant
            len == p@.len(),
            p@.len() == n * n_expert,
            inv == rounding::quotient(float_bits::ONE_BITS, rounding::count_value(n as int)),
            m@ =~= mean_probabilities(p@, n as int, n_expert as int).take(e as int),
    {
        let mut s: u32 = 0;
        for k in 0..n
            invariant
                len == p@.len(),
                p@.len() == n * n_expert,
                e < n_expert,
                s == column_sum(p@, n_expert as int, e as int, k as nat),
        {
            proof {
                quant::cell_position(k as int, e as int, n as int, n_expert as int);
            }
            s = rounding::plus(s, p[k * n_expert + e]);
        }
        m.push(rounding::multiply(s, inv));
    }
    assert(m@ =~= mean_probabilities(p@, n as int, n_expert as int));
    m
}

/// The loss that a layer adds: the balance loss and the router loss, each with its coefficient,
/// and nothing where both coefficients are zero.
pub open spec fn added_loss(aux: u32, aux_coef: u32, z: u32, z_coef: u32) -> Option<u32> {
    let a = rounding::product(aux, aux_coef);
    let b = rounding::product(z, z_coef);
    if float_bits::positive(aux_coef) {
        if float_bits::positive(z_coef) {
            Some(rounding::sum(a, b))
        } else {
            Some(a)
        }
    } else if float_bits::positive(z_coef) {
        Some(b)
    } else {
        None
    }
}

/// Whether `s` are the statistics of a pass of `n` tokens routed by `plan`, but for the loss.
pub open spec fn is_record(s: RouteStats, plan: RoutePlan, n: int) -> bool {
    &&& s.counts@ == Seq::new(plan.sel@.len(), |e: int| plan.sel@[e]@.len() as usize)
    &&& s.dropped == plan.dropped
    &&& s.n_tokens == n
}

impl MoELayer {
    /// The loss that this layer adds to the main one.
    pub fn weighted_aux(&self, aux: u32, z: u32) -> (r: Option<u32>)
        ensures
            r == added_loss(aux, self@.aux_coef, z, self@.z_loss_coef),
    {
        let a: u32 = rounding::multiply(aux, self.aux_coef);
        let b: u32 = rounding::multiply(z, self.z_loss_coef);
        if float_bits::is_positive(self.aux_coef) {
            if float_bits::is_positive(self.z_loss_coef) {
                Some(rounding::plus(a, b))
            } else {
                Some(a)
            }
        } else if float_bits::is_positive(self.z_loss_coef) {
            Some(b)
        } else {
            None
        }
    }

    /// The scores of every token for every expert.
    pub fn logits(&self, x: &[u32], n: usize, d: usize) -> (l: Vec<u32>)
        requires
            self@.wf(d),
            x@.len() == n * d,
            n * self@.experts.len() <= usize::MAX,
        ensures
            l@ == self@.router.output(x@, n as int),
            l@.len() == n * self@.experts.len(),
    {
        self.router.forward(x, n)
    }

    /// Where every token goes.
    pub fn route_plan(&self, x: &[u32], n: usize, d: usize) -> (plan: RoutePlan)
        requires
            self@.wf(d),
            x@.len() == n * d,
            n * self@.experts.len() <= usize::MAX,
        ensures
            moe::is_routing(
                plan,
                self@.router.output(x@, n as int),
                n as int,
                self@.experts.len() as int,
                self@.top_k as int,
                moe::capacity_of(
                    n as int,
                    self@.experts.len() as int,
                    self@.top_k as int,
                    self@.capacity_factor,
                ) as usize,
            ),
    {
        let e: usize = self.experts.len();
        let logits: Vec<u32> = self.logits(x, n, d);
        proof {
            let k = self.top_k;
            assert(n * k <= n * e) by (nonlinear_arith)
                requires
                    n >= 0,
                    k <= e,
            ;
        }
        let capacity: usize = moe::expert_capacity(n, e, self.top_k, self.capacity_factor);
        moe::top_k_gate(&logits, n, e, self.top_k, capacity)
    }

    /// The statistics of the last forward pass.
    pub fn stats(&self) -> (r: &RouteStats)
        ensures
            *r == self.stats,
    {
        &self.stats
    }

    /// Keeps the statistics of a forward pass.
    pub fn record(&mut self, plan: &RoutePlan, n: usize, aux: u32)
        ensures
            final(self)@ == old(self)@,
            is_record(final(self).stats, *plan, n as int),
            final(self).stats.aux == aux,
            final(self).experts == old(self).experts,
    {
        let mut counts: Vec<usize> = Vec::new();
        for e in 0..plan.sel.len()
            invariant
                counts@ =~= Seq::new(e as nat, |e: int| plan.sel@[e]@.len() as usize),
        {
            counts.push(plan.sel[e].len());
        }
        self.stats = RouteStats { counts, dropped: plan.dropped, n_tokens: n, aux };
    }

    /// The parameters with their names.
    pub fn named_parameters(&self, prefix: &str) -> (ps: Vec<(String, &Param)>)
        ensures
            params::listing(ps@) == self@.named(prefix@),
    {
        let mut ps: Vec<(String, &Param)> = self.router.named_parameters(
            text::joined(prefix, ".router").as_str(),
        );
        let stem: String = text::joined(prefix, ".experts.");
        for i in 0..self.experts.len()
            invariant
                stem@ == prefix@ + ".experts."@,
                params::listing(ps@) == self@.router.named(prefix@ + ".router"@) + expert_named(
                    self@.experts,
                    prefix@,
                    i as nat,
                ),
        {
            let name: String = text::joined(stem.as_str(), text::decimal(i).as_str());
            params::extend_named(&mut ps, self.experts[i].named_parameters(name.as_str()));
            assert(params::listing(ps@) =~= self@.router.named(prefix@ + ".router"@) + expert_named(
                self@.experts,
                prefix@,
                (i + 1) as nat,
            ));
        }
        ps
    }
}

/// Whether every expert has a rising list of tokens below `n`.
pub open spec fn is_selection(sel: Seq<Vec<usize>>, n: int, n_expert: int) -> bool {
    &&& sel.len() == n_expert
    &&& forall|e: int| 0 <= e < n_expert ==> rises_below((#[trigger] sel[e])@, n)
}

/// Whether a list rises and stays below `n`.
pub open spec fn rises_below(s: Seq<usize>, n: int) -> bool {
    &&& s.len() <= n
    &&& forall|p: int| 0 <= p < s.len() ==> (#[trigger] s[p]) < n
    &&& forall|p: int, q: int| 0 <= p < q < s.len() ==> #[trigger] s[p] < #[trigger] s[q]
}

/// Every routing gives every expert a rising list of tokens.
pub proof fn routings_are_selections(
    plan: RoutePlan,
    logits: Seq<u32>,
    n: int,
    n_expert: int,
    k: int,
    capacity: usize,
)
    requires
        moe::is_routing(plan, logits, n, n_expert, k, capacity),
        0 <= n <= usize::MAX,
    ensures
        is_selection(plan.sel@, n, n_expert),
{
    assert forall|e: int| 0 <= e < n_expert implies rises_below((#[trigger] plan.sel@[e])@, n) by {
        moe_laws::experts_process_their_takers(logits, n_expert, k, e, n as nat, capacity);
    }
}

/// The place of a token in a rising list.
proof fn lemma_place_in_list(s: Seq<usize>, n: int, q: int)
    requires
        rises_below(s, n),
        0 <= q < s.len(),
    ensures
        s.contains(s[q]),
        s.index_of(s[q]) == q,
{
    let r = s.index_of(s[q]);
    assert(s[r] == s[q]);
    if r < q {
        assert(s[r] < s[q]);
    } else if q < r {
        assert(s[q] < s[r]);
    }
}

/// One cell after an expert's weighted answers were added.
pub open spec fn with_answer(
    before: u32,
    own: Seq<usize>,
    w: u32,
    ye: Seq<u32>,
    d: int,
    i: int,
    c: int,
) -> u32 {
    if own.contains(i as usize) {
        rounding::sum(before, rounding::product(w, ye[own.index_of(i as usize) * d + c]))
    } else {
        before
    }
}

/// Adds the weighted answers of expert `e` to the rows of its tokens.
fn add_answers(
    out: &mut Vec<u32>,
    own: &Vec<usize>,
    w: &[u32],
    n_expert: usize,
    e: usize,
    ye: &Vec<u32>,
    n: usize,
    d: usize,
)
    requires
        old(out)@.len() == n * d,
        rises_below(own@, n as int),
        w@.len() == n * n_expert,
        e < n_expert,
        ye@.len() == own@.len() * d,
    ensures
        final(out)@ == Seq::new(
            (n * d) as nat,
            |p: int|
                with_answer(
                    old(out)@[p],
                    own@,
                    w@[(p / (d as int)) * n_expert + e],
                    ye@,
                    d as int,
                    p / (d as int),
                    p % (d as int),
                ),
        ),
{
    let (len_w, len_y, len_o): (usize, usize, usize) = (w.len(), ye.len(), out.len());
    let ghost before = out@;
    let count: usize = own.len();
    for q in 0..count
        invariant
            count == own@.len(),
            len_w == w@.len(),
            len_y == ye@.len(),
            len_o == before.len(),
            out@.len() == n * d,
            before.len() == n * d,
            rises_below(own@, n as int),
            w@.len() == n * n_expert,
            e < n_expert,
            ye@.len() == own@.len() * d,
            forall|p: int|
                0 <= p < n * d ==> #[trigger] out@[p] == if is_done(own@, p / (d as int), q as int) {
                    with_answer(
                        before[p],
                        own@,
                        w@[(p / (d as int)) * n_expert + e],
                        ye@,
                        d as int,
                        p / (d as int),
                        p % (d as int),
                    )
                } else {
                    before[p]
                },
    {
        let i: usize = own[q];
        proof {
            quant::cell_position(i as int, e as int, n as int, n_expert as int);
            lemma_place_in_list(own@, n as int, q as int);
        }
        let weight: u32 = w[i * n_expert + e];
        let ghost mid = out@;
        assert forall|p: int| 0 <= p < n * d implies !(p % (d as int) < 0) && #[trigger] out@[p]
            == mid[p] by {
            quant::flat_position(p, n as int, d as int);
        }
        for c in 0..d
            invariant
                len_y == ye@.len(),
                len_o == before.len(),
                out@.len() == n * d,
                mid.len() == n * d,
                before.len() == n * d,
                i < n,
                q < own@.len(),
                ye@.len() == own@.len() * d,
                forall|p: int|
                    0 <= p < n * d ==> #[trigger] out@[p] == if p / (d as int) == i && p % (
                    d as int) < c {
                        rounding::sum(
                            mid[p],
                            rounding::product(weight, ye@[q * d + p % (d as int)]),
                        )
                    } else {
                        mid[p]
                    },
        {
            proof {
                quant::cell_position(i as int, c as int, n as int, d as int);
                quant::cell_position(q as int, c as int, own@.len() as int, d as int);
            }
            let at: usize = i * d + c;
            let v: u32 = rounding::plus(out[at], rounding::multiply(weight, ye[q * d + c]));
            let ghost prev = out@;
            out.set(at, v);
            proof {
                assert forall|p: int| 0 <= p < n * d implies #[trigger] out@[p] == if p / (
                d as int) == i && p % (d as int) < c + 1 {
                    rounding::sum(mid[p], rounding::product(weight, ye@[q * d + p % (d as int)]))
                } else {
                    mid[p]
                } by {
                    quant::flat_position(p, n as int, d as int);
                    if p != at {
                        assert(out@[p] == prev[p]);
                    }
                }
            }
        }
        proof {
            assert forall|p: int| 0 <= p < n * d implies #[trigger] out@[p] == if is_done(
                own@,
                p / (d as int),
                q + 1,
            ) {
                with_answer(
                    before[p],
                    own@,
                    w@[(p / (d as int)) * n_expert + e],
                    ye@,
                    d as int,
                    p / (d as int),
                    p % (d as int),
                )
            } else {
                before[p]
            } by {
                quant::flat_position(p, n as int, d as int);
                let row = p / (d as int);
                if row == i {
                    assert(!is_done(own@, row, q as int)) by {
                        if is_done(own@, row, q as int) {
                            let t = choose|t: int| 0 <= t < q && own@[t] == row;
                            assert(own@[t] < own@[q as int]);
                        }
                    }
                    assert(own@[q as int] == row);
                    assert(is_done(own@, row, q + 1));
                } else {
                    assert(is_done(own@, row, q + 1) == is_done(own@, row, q as int)) by {
                        if is_done(own@, row, q + 1) {
                            let t = choose|t: int| 0 <= t < q + 1 && own@[t] == row;
                            assert(own@[t] == row && t < q);
                        }
                        if is_done(own@, row, q as int) {
                            let t = choose|t: int| 0 <= t < q && own@[t] == row;
                            assert(own@[t] == row && t < q + 1);
                        }
                    }
                }
            }
        }
    }
    proof {
        assert forall|p: int| 0 <= p < n * d implies #[trigger] out@[p] == with_answer(
            before[p],
            own@,
            w@[(p / (d as int)) * n_expert + e],
            ye@,
            d as int,
            p / (d as int),
            p % (d as int),
        ) by {
            quant::flat_position(p, n as int, d as int);
            let row = p / (d as int);
            assert(own@.contains(row as usize) == is_done(own@, row, count as int)) by {
                if own@.contains(row as usize) {
                    let t = own@.index_of(row as usize);
                    assert(own@[t] == row);
                }
                if is_done(own@, row, count as int) {
                    let t = choose|t: int| 0 <= t < count && own@[t] == row;
                    assert(own@[t] == row as usize);
                }
            }
        }
    }
}

/// Whether `outs` may be the answers of the experts to their tokens.
pub open spec fn are_answers<G: Fn(u32) -> u32, S: Fn(u32, u32) -> u32>(
    m: MoeView,
    gelu: &G,
    swiglu: &S,
    x: Seq<u32>,
    d: int,
    sel: Seq<Vec<usize>>,
    outs: Seq<Seq<u32>>,
) -> bool {
    &&& outs.len() == sel.len()
    &&& forall|e: int|
        0 <= e < sel.len() && sel[e]@.len() > 0 ==> mlp::produces(
            m.experts[e],
            gelu,
            swiglu,
            matrix::picked(x, d, sel[e]@),
            sel[e]@.len() as int,
            #[trigger] outs[e],
        )
}

/// Whether `y` may be the output of a layer under a routing and gate weights.
pub open spec fn mixes<G: Fn(u32) -> u32, S: Fn(u32, u32) -> u32>(
    m: MoeView,
    gelu: &G,
    swiglu: &S,
    x: Seq<u32>,
    n: int,
    d: int,
    sel: Seq<Vec<usize>>,
    w: Seq<u32>,
    y: Seq<u32>,
) -> bool {
    exists|outs: Seq<Seq<u32>>|
        #![trigger are_answers(m, gelu, swiglu, x, d, sel, outs)]
        are_answers(m, gelu, swiglu, x, d, sel, outs) && y == combined(
            sel,
            outs,
            w,
            m.experts.len() as int,
            n,
            d,
        )
}

/// Later experts do not change what earlier ones added.
proof fn lemma_earlier_experts(
    sel: Seq<Vec<usize>>,
    a: Seq<Seq<u32>>,
    b: Seq<Seq<u32>>,
    w: Seq<u32>,
    n_expert: int,
    d: int,
    i: int,
    c: int,
    upto: nat,
)
    requires
        upto <= a.len(),
        upto <= b.len(),
        forall|e: int| 0 <= e < upto ==> a[e] == b[e],
    ensures
        combined_cell(sel, a, w, n_expert, d, i, c, upto) == combined_cell(
            sel,
            b,
            w,
            n_expert,
            d,
            i,
            c,
            upto,
        ),
    decreases upto,
{
    if upto > 0 {
        lemma_earlier_experts(sel, a, b, w, n_expert, d, i, c, (upto - 1) as nat);
    }
}

/// Fewer rows keep sizes in range.
proof fn lemma_fewer_rows(m: MlpView, few: int, many: int)
    requires
        0 <= few <= many,
        mlp::block_fits(m, many),
    ensures
        mlp::block_fits(m, few),
{
    match m {
        MlpView::Plain { first, second } => {
            lemma_fewer_rows_of(first, few, many);
            lemma_fewer_rows_of(second, few, many);
        },
        MlpView::Gated { gate, up, down } => {
            lemma_fewer_rows_of(gate, few, many);
            lemma_fewer_rows_of(up, few, many);
            lemma_fewer_rows_of(down, few, many);
        },
    }
}

proof fn lemma_fewer_rows_of(l: LinearView, few: int, many: int)
    requires
        0 <= few <= many,
        mlp::rows_fit(l, many),
    ensures
        mlp::rows_fit(l, few),
{
    let o = l.outputs();
    assert(few * o <= many * o) by (nonlinear_arith)
        requires
            0 <= few <= many,
            o >= 0,
    ;
    match l.lora {
        Some(a) => {
            let r = a.rank;
            assert(few * r <= many * r) by (nonlinear_arith)
                requires
                    0 <= few <= many,
                    r >= 0,
            ;
        },
        None => {},
    }
}

impl MoELayer {
    /// Runs every expert on its own tokens only and adds the weighted answers. A token that no
    /// expert processes gets zeros.
    pub fn mix<G: Fn(u32) -> u32, S: Fn(u32, u32) -> u32>(
        &self,
        x: &[u32],
        n: usize,
        d: usize,
        plan: &RoutePlan,
        w: &[u32],
        gelu: &G,
        swiglu: &S,
    ) -> (y: Vec<u32>)
        requires
            self@.wf(d),
            x@.len() == n * d,
            is_selection(plan.sel@, n as int, self@.experts.len() as int),
            w@.len() == n * self@.experts.len(),
            forall|e: int|
                0 <= e < self@.experts.len() ==> mlp::block_fits(
                    #[trigger] self@.experts[e],
                    n as int,
                ),
            forall|v: u32| call_requires(gelu, (v,)),
            forall|v: u32, u: u32| call_requires(swiglu, (v, u)),
        ensures
            mixes(self@, gelu, swiglu, x@, n as int, d as int, plan.sel@, w@, y@),
    {
        let total: usize = x.len();
        let n_expert: usize = self.experts.len();
        let mut out: Vec<u32> = params::zero_vec(total);
        let ghost mut outs: Seq<Seq<u32>> = Seq::empty();
        for e in 0..n_expert
            invariant
                total == x@.len(),
                x@.len() == n * d,
                n_expert == self@.experts.len(),
                n_expert == self.experts@.len(),
                self@.wf(d),
                is_selection(plan.sel@, n as int, n_expert as int),
                w@.len() == n * n_expert,
                forall|e: int|
                    0 <= e < self@.experts.len() ==> mlp::block_fits(
                        #[trigger] self@.experts[e],
                        n as int,
                    ),
                forall|v: u32| call_requires(gelu, (v,)),
                forall|v: u32, u: u32| call_requires(swiglu, (v, u)),
                outs.len() == e,
                forall|a: int|
                    0 <= a < e && plan.sel@[a]@.len() > 0 ==> mlp::produces(
                        self@.experts[a],
                        gelu,
                        swiglu,
                        matrix::picked(x@, d as int, plan.sel@[a]@),
                        plan.sel@[a]@.len() as int,
                        #[trigger] outs[a],
                    ),
                out@ =~= Seq::new(
                    (n * d) as nat,
                    |p: int|
                        combined_cell(
                            plan.sel@,
                            outs,
                            w@,
                            n_expert as int,
                            d as int,
                            p / (d as int),
                            p % (d as int),
                            e as nat,
                        ),
                ),
        {
            let own: &Vec<usize> = &plan.sel[e];
            assert(rises_below(own@, n as int));
            assert(self@.experts[e as int].wf(d));
            assert(!self@.experts[e as int].has_quant());
            let ghost before = outs;
            if own.len() == 0 {
                proof {
                    outs = outs.push(Seq::empty());
                }
            } else {
                proof {
                    lemma_fewer_rows(self@.experts[e as int], own@.len() as int, n as int);
                    let k = own@.len() as int;
                    assert(k * d <= n * d) by (nonlinear_arith)
                        requires
                            0 <= k <= n,
                            d >= 0,
                    ;
                }
                let xe: Vec<u32> = matrix::gather_rows(x, n, d, own);
                let ye: Vec<u32> = self.experts[e].forward(
                    &xe,
                    own.len(),
                    d,
                    gelu,
                    swiglu,
                );
                add_answers(&mut out, own, w, n_expert, e, &ye, n, d);
                proof {
                    outs = outs.push(ye@);
                }
            }
            proof {
                assert forall|p: int| 0 <= p < n * d implies #[trigger] out@[p] == combined_cell(
                    plan.sel@,
                    outs,
                    w@,
                    n_expert as int,
                    d as int,
                    p / (d as int),
                    p % (d as int),
                    (e + 1) as nat,
                ) by {
                    lemma_earlier_experts(
                        plan.sel@,
                        before,
                        outs,
                        w@,
                        n_expert as int,
                        d as int,
                        p / (d as int),
                        p % (d as int),
                        e as nat,
                    );
                }
            }
        }
        assert(are_answers(self@, gelu, swiglu, x@, d as int, plan.sel@, outs));
        out
    }
}

/// A token that no expert processes gets zeros.
pub proof fn dropped_tokens_get_zeros(
    sel: Seq<Vec<usize>>,
    outs: Seq<Seq<u32>>,
    w: Seq<u32>,
    n_expert: int,
    d: int,
    i: int,
    c: int,
    upto: nat,
)
    requires
        forall|e: int| 0 <= e < upto ==> !processes(sel, e, i),
    ensures
        combined_cell(sel, outs, w, n_expert, d, i, c, upto) == 0,
    decreases upto,
{
    if upto > 0 {
        dropped_tokens_get_zeros(sel, outs, w, n_expert, d, i, c, (upto - 1) as nat);
        assert(!processes(sel, upto - 1, i));
    }
}

/// Whether token `i` is among the first `q` of a list.
spec fn is_done(own: Seq<usize>, i: int, q: int) -> bool {
    exists|t: int| 0 <= t < q && #[trigger] own[t] == i
}

/// A fresh layer from the draws at `pos`: the experts in order, then the router.
pub open spec fn drawn_moe(c: GPTConfig, tape: Seq<u32>, pos: int) -> MoeView {
    let each = mlp::mlp_draws(c.n_embd, c.use_swiglu);
    MoeView {
        router: mlp::drawn_linear(c.n_embd, c.n_expert, tape, pos + c.n_expert * each),
        experts: Seq::new(
            c.n_expert as nat,
            |e: int| mlp::drawn_mlp(c.n_embd, c.use_swiglu, tape, pos + e * each),
        ),
        n_expert: c.n_expert,
        top_k: c.moe_top_k,
        capacity_factor: c.moe_capacity_factor,
        aux_coef: c.moe_aux_coef,
        z_loss_coef: c.moe_z_loss_coef,
        switch_gate: c.moe_switch_gate,
    }
}

/// The draws that a fresh layer takes.
pub open spec fn moe_draws(c: GPTConfig) -> int {
    c.n_expert * mlp::mlp_draws(c.n_embd, c.use_swiglu) + c.n_embd * c.n_expert
}

impl MoELayer {
    /// A fresh layer. Its experts are ordinary feed-forward blocks.
    pub fn new(cfg: &GPTConfig, tape: &[u32], pos: usize) -> (m: Self)
        requires
            config::moe_fault(*cfg) is None,
            8 * cfg.n_embd + 2 <= usize::MAX,
            cfg.n_embd + cfg.n_expert <= usize::MAX,
            pos + moe_draws(*cfg) <= tape@.len(),
            tape@.len() <= usize::MAX,
        ensures
            m@ == drawn_moe(*cfg, tape@, pos as int),
            m@.wf(cfg.n_embd),
            m.stats.counts@.len() == 0,
            m.stats.dropped == 0,
            m.stats.n_tokens == 0,
            m.stats.aux == 0,
    {
        let d: usize = cfg.n_embd;
        let e_count: usize = cfg.n_expert;
        let ghost each = mlp::mlp_draws(d, cfg.use_swiglu);
        proof {
            mlp::draws_are_counted(d, cfg.use_swiglu);
            assert(0 <= d * e_count) by (nonlinear_arith)
                requires
                    d >= 0,
                    e_count >= 0,
            ;
            assert(0 * each == 0);
        }
        let mut at: usize = pos;
        let mut experts: Vec<MLPEnum> = Vec::new();
        for e in 0..e_count
            invariant
                d == cfg.n_embd,
                e_count == cfg.n_expert,
                each == mlp::mlp_draws(d, cfg.use_swiglu),
                each >= 0,
                8 * d + 2 <= usize::MAX,
                pos + e_count * each <= tape@.len(),
                tape@.len() <= usize::MAX,
                at == pos + e * each,
                experts@.len() == e,
                forall|a: int|
                    0 <= a < e ==> (#[trigger] experts@[a])@ == mlp::drawn_mlp(
                        d,
                        cfg.use_swiglu,
                        tape@,
                        pos + a * each,
                    ),
                forall|a: int| 0 <= a < e ==> (#[trigger] experts@[a])@.wf(d),
        {
            proof {
                assert((e + 1) * each == e * each + each && (e + 1) * each <= e_count * each)
                    by (nonlinear_arith)
                    requires
                        e + 1 <= e_count,
                        each >= 0,
                ;
            }
            let m: MLPEnum = if cfg.use_swiglu {
                MLPEnum::new_swiglu(d, tape, at)
            } else {
                MLPEnum::new_gelu(d, tape, at)
            };
            experts.push(m);
            at = at + mlp::count_draws(d, cfg.use_swiglu);
        }
        let router: Linear = mlp::draw_linear(d, e_count, tape, at);
        let m: MoELayer = MoELayer {
            router,
            experts,
            n_expert: e_count,
            top_k: cfg.moe_top_k,
            capacity_factor: cfg.moe_capacity_factor,
            aux_coef: cfg.moe_aux_coef,
            z_loss_coef: cfg.moe_z_loss_coef,
            switch_gate: cfg.moe_switch_gate,
            stats: RouteStats::default(),
        };
        assert(m@.experts =~= drawn_moe(*cfg, tape@, pos as int).experts);
        m
    }
}

proof fn lemma_expert_changes(es: Seq<MlpView>, on: bool, n: nat)
    requires
        n <= es.len(),
    ensures
        expert_params(Seq::new(es.len(), |e: int| es[e].cleared()), n) == params::cleared(
            expert_params(es, n),
        ),
        expert_params(Seq::new(es.len(), |e: int| es[e].marked(on)), n) == params::marked(
            expert_params(es, n),
            on,
        ),
    decreases n,
{
    if n > 0 {
        lemma_expert_changes(es, on, (n - 1) as nat);
        mlp::changes_of_block(es[n - 1], on);
        params::changes_of_concat(expert_params(es, (n - 1) as nat), es[n - 1].params(), on);
    } else {
        assert(params::cleared(expert_params(es, 0)) =~= Seq::empty());
        assert(params::marked(expert_params(es, 0), on) =~= Seq::empty());
    }
}

impl Module for MoELayer {
    open spec fn param_views(&self) -> Seq<ParamView> {
        self@.params()
    }

    fn parameters(&self) -> (ps: Vec<&Param>) {
        let mut ps: Vec<&Param> = self.router.parameters();
        for i in 0..self.experts.len()
            invariant
                params::views(ps@) == self@.router.params() + expert_params(
                    self@.experts,
                    i as nat,
                ),
        {
            params::extend_params(&mut ps, self.experts[i].parameters());
            assert(params::views(ps@) =~= self@.router.params() + expert_params(
                self@.experts,
                (i + 1) as nat,
            ));
        }
        assert(params::views(ps@) =~= self.param_views());
        ps
    }

    fn zero_grad(&mut self)
        ensures
            final(self)@ == old(self)@.cleared(),
            final(self).stats == old(self).stats,
    {
        let n: usize = self.experts.len();
        proof {
            lemma_expert_changes(self@.experts, true, n as nat);
            params::changes_of_concat(
                self@.router.params(),
                expert_params(self@.experts, n as nat),
                true,
            );
        }
        self.router.zero_grad();
        for i in 0..n
            invariant
                n == self.experts@.len(),
                n == old(self).experts@.len(),
                self.router@ == old(self)@.router.cleared(),
                self.stats == old(self).stats,
                self.n_expert == old(self).n_expert,
                self.top_k == old(self).top_k,
                self.capacity_factor == old(self).capacity_factor,
                self.aux_coef == old(self).aux_coef,
                self.z_loss_coef == old(self).z_loss_coef,
                self.switch_gate == old(self).switch_gate,
                forall|j: int|
                    0 <= j < i ==> (#[trigger] self.experts@[j])@ == old(
                        self,
                    ).experts@[j]@.cleared(),
                forall|j: int| i <= j < n ==> #[trigger] self.experts@[j] == old(self).experts@[j],
        {
            self.experts[i].zero_grad();
        }
        assert(self@.experts =~= old(self)@.cleared().experts);
    }

    fn set_requires_grad(&mut self, on: bool)
        ensures
            final(self)@ == old(self)@.marked(on),
            final(self).stats == old(self).stats,
    {
        let n: usize = self.experts.len();
        proof {
            lemma_expert_changes(self@.experts, on, n as nat);
            params::changes_of_concat(
                self@.router.params(),
                expert_params(self@.experts, n as nat),
                on,
            );
        }
        self.router.set_requires_grad(on);
        for i in 0..n
            invariant
                n == self.experts@.len(),
                n == old(self).experts@.len(),
                self.router@ == old(self)@.router.marked(on),
                self.stats == old(self).stats,
                self.n_expert == old(self).n_expert,
                self.top_k == old(self).top_k,
                self.capacity_factor == old(self).capacity_factor,
                self.aux_coef == old(self).aux_coef,
                self.z_loss_coef == old(self).z_loss_coef,
                self.switch_gate == old(self).switch_gate,
                forall|j: int|
                    0 <= j < i ==> (#[trigger] self.experts@[j])@ == old(
                        self,
                    ).experts@[j]@.marked(on),
                forall|j: int| i <= j < n ==> #[trigger] self.experts@[j] == old(self).experts@[j],
        {
            self.experts[i].set_requires_grad(on);
        }
        assert(self@.experts =~= old(self)@.marked(on).experts);
    }
}

/// Clearing and marking a layer changes its parameters one by one.
pub proof fn changes_of_moe(m: MoeView, on: bool)
    ensures
        m.cleared().params() == params::cleared(m.params()),
        m.marked(on).params() == params::marked(m.params(), on),
{
    lemma_expert_changes(m.experts, on, m.experts.len());
    mlp::changes_of_layer(m.router, on);
    params::changes_of_concat(
        m.router.params(),
        expert_params(m.experts, m.experts.len()),
        on,
    );
}

proof fn lemma_no_overlap(f: Seq<u32>, p: Seq<u32>, k: nat)
    requires
        k <= f.len(),
        f.len() == p.len(),
        forall|i: int|
            0 <= i < f.len() ==> float_bits::finite(#[trigger] f[i]) && float_bits::finite(p[i])
                && (float_bits::magnitude(f[i]) == 0 || float_bits::magnitude(p[i]) == 0),
    ensures
        overlap(f, p, k) == 0,
    decreases k,
{
    if k > 0 {
        lemma_no_overlap(f, p, (k - 1) as nat);
        assert(float_bits::finite(f[k - 1]));
        if float_bits::magnitude(f[k - 1]) == 0 {
            crate::layer_laws::product_with_zero(p[k - 1], f[k - 1]);
        } else {
            crate::layer_laws::product_with_zero(f[k - 1], p[k - 1]);
        }
        crate::layer_laws::sum_with_zero(0, rounding::product(f[k - 1], p[k - 1]));
    }
}

/// Where no expert has both load and probability the balance loss is zero.
pub proof fn disjoint_shares_cost_nothing(f: Seq<u32>, p: Seq<u32>)
    requires
        f.len() == p.len(),
        float_bits::finite(rounding::count_value(f.len() as int)),
        forall|i: int|
            0 <= i < f.len() ==> float_bits::finite(#[trigger] f[i]) && float_bits::finite(p[i])
                && (float_bits::magnitude(f[i]) == 0 || float_bits::magnitude(p[i]) == 0),
    ensures
        float_bits::magnitude(balance_of(f, p)) == 0,
{
    lemma_no_overlap(f, p, f.len());
    crate::layer_laws::product_with_zero(rounding::count_value(f.len() as int), 0);
}

} // verus!
