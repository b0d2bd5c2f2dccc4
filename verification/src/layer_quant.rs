//! Quantising the weight of a linear layer.

use crate::awq;
use crate::awq_scaling;
use crate::calib::HessianKind;
use crate::codes;
use crate::codes::QBits;
use crate::gptq;
use crate::layers;
use crate::layers::{Linear, LinearView};
use crate::params;
use crate::params::{Param, ParamView};
use crate::qmatrix::QMatrix;
use crate::quant;
use crate::quant::{QAxis, QuantError};
use crate::report;
use crate::report::{
    CalibStats, LayerCalib, QuantMethod, QuantOpts, QuantReport, QuantWeight,
};
use vstd::prelude::*;

verus! {

/// The second moments of a layer, where they were collected and fit its input width.
pub open spec fn usable_hessian(stats: Option<LayerCalib>, rows: int) -> Option<HessianKind> {
    match stats {
        Some(c) => match c.hessian {
            Some(h) => if h.order() == rows {
                Some(h)
            } else {
                None
            },
            None => None,
        },
        None => None,
    }
}

/// How strongly the input channels of a layer are used, where it was collected and fits its input
/// width.
pub open spec fn usable_activations(stats: Option<LayerCalib>, rows: int) -> Option<Seq<u32>> {
    match stats {
        Some(c) => if c.measures(rows) {
            Some(c.act_abs_mean->0@)
        } else {
            None
        },
        None => None,
    }
}

/// Whether `q` under the scales `s` is the scaled form of `w` that the options ask for: with the
/// exponent that they name, or else with the one that a search finds.
pub open spec fn is_scaled<L: Fn(u32) -> u32, E: Fn(u32) -> u32>(
    ln: &L,
    exp: &E,
    q: QMatrix,
    s: Seq<u32>,
    alpha: u32,
    w: Seq<u32>,
    rows: int,
    cols: int,
    bits: QBits,
    opts: QuantOpts,
    uses: Seq<u32>,
) -> bool {
    match opts.awq_alpha {
        Some(a) => {
            &&& alpha == a
            &&& awq_scaling::are_scales(ln, exp, uses, a, awq::AWQ_GROUP_SIZE, s)
            &&& gptq::is_plain_rounding(q, awq::folded(w, cols, s), rows, cols, bits, opts.axis)
        },
        None => awq::is_search(
            ln,
            exp,
            q,
            s,
            alpha,
            w,
            rows,
            cols,
            bits,
            opts.axis,
            uses,
            awq::alpha_grid(),
        ),
    }
}

/// Whether `qw` is the quantised form of `w`, made with the scaling exponent `alpha` if with any. A
/// method without the statistics it needs falls back to plain rounding, and says so.
pub open spec fn is_quantised<L: Fn(u32) -> u32, E: Fn(u32) -> u32>(
    ln: &L,
    exp: &E,
    qw: QuantWeight,
    w: Seq<u32>,
    rows: usize,
    cols: usize,
    bits: QBits,
    method: QuantMethod,
    opts: QuantOpts,
    stats: Option<LayerCalib>,
    alpha: Option<u32>,
) -> bool {
    let (r, c) = (rows as int, cols as int);
    let plain = {
        &&& gptq::is_plain_rounding(qw.q, w, r, c, bits, opts.axis)
        &&& qw.scales() == None::<Seq<u32>>
        &&& qw.method == QuantMethod::Rtn
        &&& alpha is None
    };
    match method {
        QuantMethod::Rtn => plain,
        QuantMethod::Gptq => match usable_hessian(stats, r) {
            Some(h) => {
                &&& gptq::compensated_by(qw.q, w, rows, cols, bits, opts.axis, h, opts.gptq)
                &&& qw.scales() == None::<Seq<u32>>
                &&& qw.method == if h is Full {
                    QuantMethod::Gptq
                } else {
                    QuantMethod::Rtn
                }
                &&& alpha is None
            },
            None => plain,
        },
        QuantMethod::Awq => match usable_activations(stats, r) {
            Some(uses) => {
                &&& qw.scales() matches Some(s) && alpha matches Some(a) && is_scaled(
                    ln,
                    exp,
                    qw.q,
                    s,
                    a,
                    w,
                    r,
                    c,
                    bits,
                    opts,
                    uses,
                )
                &&& qw.method == QuantMethod::Awq
            },
            None => plain,
        },
    }
}

/// Whether a layer can be quantised: no adapter, a weight of plain numbers, and not empty.
pub open spec fn quantisable(l: LinearView) -> bool {
    l.lora is None && l.quant is None && l.inputs() > 0 && l.outputs() > 0
}

/// The layer with its weight replaced by a quantised form. The plain numbers are released.
pub open spec fn with_quant(l: LinearView, qw: QuantWeight) -> LinearView {
    LinearView {
        weight: ParamView {
            data: seq![0u32],
            shape: seq![1usize],
            requires_grad: l.weight.requires_grad,
            grad: params::zeros(1),
        },
        quant: Some(qw),
        ..l
    }
}

/// What can be quantised: a layer without an adapter whose weight is a matrix with rows and columns.
pub proof fn quantisable_layers_hold_a_matrix(l: LinearView)
    requires
        l.wf(),
    ensures
        quantisable(l) == (l.lora is None && l.weight.shape.len() == 2 && l.weight.shape[0] > 0
            && l.weight.shape[1] > 0),
{
}

/// A layer is quantised once: its first codes stay, whatever is asked for later.
pub proof fn quantised_layers_are_left_alone(l: LinearView, qw: QuantWeight)
    ensures
        !quantisable(with_quant(l, qw)),
        with_quant(l, qw).lora is Some || with_quant(l, qw).weight.shape.len() != 2,
{
}

/// Whether `r` reports on the quantised form `qw` of the weight `w`.
pub open spec fn is_report(
    r: QuantReport,
    name: Seq<char>,
    w: Seq<u32>,
    bits: QBits,
    qw: QuantWeight,
) -> bool {
    let e = quant::error_of(w, qw.equivalent());
    &&& r.name@ == name
    &&& r.method == qw.method
    &&& r.bits == bits
    &&& r.f32_bytes == w.len() * 4
    &&& r.quant_bytes == qw.size()
    &&& r.max_abs_err == e.max_abs
    &&& r.rel_err == e.relative
}

/// Quantises a weight, with the exponent that was used.
fn quantised<L: Fn(u32) -> u32, E: Fn(u32) -> u32>(
    w: &[u32],
    rows: usize,
    cols: usize,
    bits: QBits,
    method: QuantMethod,
    opts: &QuantOpts,
    stats: Option<&LayerCalib>,
    ln: &L,
    exp: &E,
) -> (r: (QuantWeight, Option<u32>))
    requires
        w@.len() == rows * cols,
        rows > 0,
        cols > 0,
        stats matches Some(c) ==> c.wf(),
        forall|v: u32| call_requires(ln, (v,)),
        forall|v: u32| call_requires(exp, (v,)),
    ensures
        is_quantised(
            ln,
            exp,
            r.0,
            w@,
            rows,
            cols,
            bits,
            method,
            *opts,
            report::given(stats),
            r.1,
        ),
        r.0.wf(),
        r.0.q.row_count() == rows,
        r.0.q.col_count() == cols,
        r.0.q.width() == bits,
        r.0.q.grouping() == opts.axis,
{
    let axis: QAxis = opts.axis;
    match method {
        QuantMethod::Rtn => (
            QuantWeight::new(QMatrix::quantize(w, rows, cols, bits, axis), QuantMethod::Rtn),
            None,
        ),
        QuantMethod::Gptq => {
            match stats {
                Some(c) => match &c.hessian {
                    Some(h) => {
                        if h.dim() == rows {
                            let q: QMatrix = gptq::gptq_quantize(
                                w,
                                rows,
                                cols,
                                bits,
                                axis,
                                h,
                                &opts.gptq,
                            );
                            let used: QuantMethod = if h.is_full() {
                                QuantMethod::Gptq
                            } else {
                                QuantMethod::Rtn
                            };
                            return (QuantWeight::new(q, used), None);
                        }
                    },
                    None => {},
                },
                None => {},
            }
            (
                QuantWeight::new(QMatrix::quantize(w, rows, cols, bits, axis), QuantMethod::Rtn),
                None,
            )
        },
        QuantMethod::Awq => {
            match stats {
                Some(c) => match &c.act_abs_mean {
                    Some(a) => {
                        if a.len() == rows {
                            let found: (QMatrix, Vec<u32>, u32) = match opts.awq_alpha {
                                Some(alpha) => {
                                    let made: (QMatrix, Vec<u32>) = awq::awq_quantize(
                                        w,
                                        rows,
                                        cols,
                                        bits,
                                        axis,
                                        a,
                                        alpha,
                                        ln,
                                        exp,
                                    );
                                    (made.0, made.1, alpha)
                                },
                                None => awq::awq_quantize_search(
                                    w,
                                    rows,
                                    cols,
                                    bits,
                                    axis,
                                    a,
                                    &[],
                                    ln,
                                    exp,
                                ),
                            };
                            let (q, s, alpha) = found;
                            return (QuantWeight::with_input_scale(q, s), Some(alpha));
                        }
                    },
                    None => {},
                },
                None => {},
            }
            (
                QuantWeight::new(QMatrix::quantize(w, rows, cols, bits, axis), QuantMethod::Rtn),
                None,
            )
        },
    }
}

/// A quantised form is never larger than nine bytes per weight.
pub proof fn size_is_bounded(qw: QuantWeight, rows: int, cols: int)
    requires
        qw.wf(),
        qw.q.row_count() == rows,
        qw.q.col_count() == cols,
        rows > 0,
        cols > 0,
    ensures
        0 <= qw.size() <= 9 * (rows * cols),
{
    qw.q.shape();
    let n = rows * cols;
    assert(rows <= n && cols <= n) by (nonlinear_arith)
        requires
            n == rows * cols,
            rows > 0,
            cols > 0,
    ;
    assert(codes::packed_size(n, qw.q.width()) <= n) by {
        match qw.q.width() {
            QBits::Int8 => {},
            QBits::Int4 => {},
        }
    }
}

impl Linear {
    /// Quantises the weight and releases its plain numbers.
    ///
    /// A layer with an adapter, an already quantised layer and an empty layer are left alone.
    pub fn quantize_weight<L: Fn(u32) -> u32, E: Fn(u32) -> u32>(
        &mut self,
        name: &str,
        bits: QBits,
        method: QuantMethod,
        opts: &QuantOpts,
        stats: Option<&LayerCalib>,
        ln: &L,
        exp: &E,
    ) -> (r: Option<QuantReport>)
        requires
            old(self)@.wf(),
            9 * (old(self)@.inputs() * old(self)@.outputs()) <= usize::MAX,
            stats matches Some(c) ==> c.wf(),
            forall|v: u32| call_requires(ln, (v,)),
            forall|v: u32| call_requires(exp, (v,)),
        ensures
            final(self)@.wf(),
            r is Some <==> quantisable(old(self)@),
            r is None <==> old(self)@.lora is Some || old(self)@.weight.shape.len() != 2
                || old(self)@.weight.shape[0] == 0 || old(self)@.weight.shape[1] == 0,
            r is None ==> final(self)@ == old(self)@,
            r matches Some(report) ==> {
                &&& final(self)@.quant matches Some(qw) && {
                    &&& final(self)@ == with_quant(old(self)@, qw)
                    &&& is_quantised(
                        ln,
                        exp,
                        qw,
                        old(self)@.weight.data,
                        old(self)@.inputs(),
                        old(self)@.outputs(),
                        bits,
                        method,
                        *opts,
                        report::given(stats),
                        report.alpha,
                    )
                    &&& is_report(report, name@, old(self)@.weight.data, bits, qw)
                    &&& final(self)@.inputs() == old(self)@.inputs()
                    &&& final(self)@.outputs() == old(self)@.outputs()
                }
            },
    {
        if self.has_lora() || self.weight.shape.len() != 2 {
            return None;
        }
        let (rows, cols): (usize, usize) = (self.weight.shape[0], self.weight.shape[1]);
        if rows == 0 || cols == 0 {
            return None;
        }
        let out: (QuantWeight, Option<u32>) = quantised(
            &self.weight.data,
            rows,
            cols,
            bits,
            method,
            opts,
            stats,
            ln,
            exp,
        );
        let qw: QuantWeight = out.0;
        let equivalent: Vec<u32> = qw.weights();
        proof {
            qw.q.shape();
            size_is_bounded(qw, rows as int, cols as int);
        }
        let e: QuantError = quant::quant_error(&self.weight.data, &equivalent);
        let report: QuantReport = QuantReport {
            name: String::from_str(name),
            method: qw.method,
            bits,
            f32_bytes: self.weight.data.len() * 4,
            quant_bytes: qw.byte_len(),
            max_abs_err: e.max_abs,
            rel_err: e.relative,
            alpha: out.1,
        };
        let mark: bool = self.weight.requires_grad;
        let shape: Vec<usize> = vec![1];
        assert(shape@ =~= seq![1usize]);
        let data: Vec<u32> = vec![0];
        assert(data@ =~= seq![0u32]);
        proof {
            layers::matrix_elements(1, 1);
        }
        let mut weight: Param = Param::param(data, shape);
        weight.set_requires_grad(mark);
        self.weight = weight;
        self.quant = Some(qw);
        Some(report)
    }
}

/// What a quantisation run is asked for.
pub struct QuantPlan<L, E> {
    pub bits: QBits,
    pub method: QuantMethod,
    pub opts: QuantOpts,
    pub calib: Option<CalibStats>,
    /// The logarithm and the exponential that scales are made with.
    pub ln: L,
    pub exp: E,
}

impl<L: Fn(u32) -> u32, E: Fn(u32) -> u32> QuantPlan<L, E> {
    /// The statistics of a layer.
    pub open spec fn stats(self, name: Seq<char>) -> Option<LayerCalib> {
        match self.calib {
            Some(c) => c.lookup(name),
            None => None,
        }
    }

    /// Whether a layer is of a size that can be counted, and its statistics can be used.
    pub open spec fn accepts(self, name: Seq<char>, l: LinearView) -> bool {
        &&& l.wf()
        &&& 9 * (l.inputs() * l.outputs()) <= usize::MAX
        &&& self.stats(name) matches Some(c) ==> c.wf()
    }

    /// Whether the layer `before` under `name` became `after`, reported by `r`.
    pub open spec fn step(
        self,
        name: Seq<char>,
        before: LinearView,
        after: LinearView,
        r: QuantReport,
    ) -> bool {
        &&& after.quant matches Some(qw) && {
            &&& after == with_quant(before, qw)
            &&& after.inputs() == before.inputs()
            &&& after.outputs() == before.outputs()
            &&& is_quantised(
                &self.ln,
                &self.exp,
                qw,
                before.weight.data,
                before.inputs(),
                before.outputs(),
                self.bits,
                self.method,
                self.opts,
                self.stats(name),
                r.alpha,
            )
            &&& is_report(r, name, before.weight.data, self.bits, qw)
        }
    }

    /// Whether a list of named layers became another, with one report for every layer that could
    /// be quantised and all others left alone.
    #[verifier::opaque]
    pub open spec fn run(
        self,
        before: Seq<(Seq<char>, LinearView)>,
        after: Seq<(Seq<char>, LinearView)>,
        reports: Seq<QuantReport>,
    ) -> bool
        decreases before.len(),
    {
        &&& after.len() == before.len()
        &&& if before.len() == 0 {
            reports.len() == 0
        } else {
            let (name, l) = before.last();
            &&& after.last().0 == name
            &&& if quantisable(l) {
                &&& reports.len() > 0
                &&& self.step(name, l, after.last().1, reports.last())
                &&& self.run(before.drop_last(), after.drop_last(), reports.drop_last())
            } else {
                &&& after.last().1 == l
                &&& self.run(before.drop_last(), after.drop_last(), reports)
            }
        }
    }
}

/// Two runs, one after the other, are a run on both lists.
pub proof fn runs_compose<L: Fn(u32) -> u32, E: Fn(u32) -> u32>(
    p: QuantPlan<L, E>,
    a: Seq<(Seq<char>, LinearView)>,
    b: Seq<(Seq<char>, LinearView)>,
    r: Seq<QuantReport>,
    c: Seq<(Seq<char>, LinearView)>,
    d: Seq<(Seq<char>, LinearView)>,
    s: Seq<QuantReport>,
)
    requires
        p.run(a, b, r),
        p.run(c, d, s),
    ensures
        p.run(a + c, b + d, r + s),
    decreases c.len(),
{
    reveal(QuantPlan::run);
    if c.len() == 0 {
        assert(a + c =~= a);
        assert(b + d =~= b);
        assert(r + s =~= r);
    } else {
        assert((a + c).drop_last() =~= a + c.drop_last());
        assert((b + d).drop_last() =~= b + d.drop_last());
        if quantisable(c.last().1) {
            runs_compose(p, a, b, r, c.drop_last(), d.drop_last(), s.drop_last());
            assert((r + s).drop_last() =~= r + s.drop_last());
        } else {
            runs_compose(p, a, b, r, c.drop_last(), d.drop_last(), s);
        }
    }
}

/// A run keeps every layer valid, its widths and its trainable mark, and never has more reports
/// than layers.
pub proof fn runs_keep_layers<L: Fn(u32) -> u32, E: Fn(u32) -> u32>(
    p: QuantPlan<L, E>,
    before: Seq<(Seq<char>, LinearView)>,
    after: Seq<(Seq<char>, LinearView)>,
    reports: Seq<QuantReport>,
)
    requires
        p.run(before, after, reports),
    ensures
        reports.len() <= before.len(),
        after.len() == before.len(),
        forall|i: int|
            0 <= i < before.len() ==> {
                &&& (#[trigger] after[i]).0 == before[i].0
                &&& after[i].1.bias == before[i].1.bias
                &&& after[i].1.lora == before[i].1.lora
                &&& after[i].1.inputs() == before[i].1.inputs()
                &&& after[i].1.outputs() == before[i].1.outputs()
                &&& after[i].1.weight.requires_grad == before[i].1.weight.requires_grad
                &&& quantisable(before[i].1) ==> after[i].1.quant is Some
                &&& !quantisable(before[i].1) ==> after[i].1 == before[i].1
            },
    decreases before.len(),
{
    reveal(QuantPlan::run);
    if before.len() > 0 {
        if quantisable(before.last().1) {
            runs_keep_layers(
                p,
                before.drop_last(),
                after.drop_last(),
                reports.drop_last(),
            );
        } else {
            runs_keep_layers(p, before.drop_last(), after.drop_last(), reports);
        }
        assert forall|i: int| 0 <= i < before.len() implies {
            &&& (#[trigger] after[i]).0 == before[i].0
            &&& after[i].1.bias == before[i].1.bias
            &&& after[i].1.lora == before[i].1.lora
            &&& after[i].1.inputs() == before[i].1.inputs()
            &&& after[i].1.outputs() == before[i].1.outputs()
            &&& after[i].1.weight.requires_grad == before[i].1.weight.requires_grad
            &&& quantisable(before[i].1) ==> after[i].1.quant is Some
            &&& !quantisable(before[i].1) ==> after[i].1 == before[i].1
        } by {
            if i < before.len() - 1 {
                assert(after.drop_last()[i] == after[i]);
                assert(before.drop_last()[i] == before[i]);
            }
        }
    }
}

/// The plan that the arguments of a run stand for.
pub open spec fn plan_of<L: Fn(u32) -> u32, E: Fn(u32) -> u32>(
    bits: QBits,
    method: QuantMethod,
    calib: Option<&CalibStats>,
    opts: QuantOpts,
    ln: &L,
    exp: &E,
) -> QuantPlan<L, E> {
    QuantPlan { bits, method, opts, calib: taken(calib), ln: *ln, exp: *exp }
}

/// Quantises one named layer, with its report if it was quantised.
pub fn quantize_named<L: Fn(u32) -> u32, E: Fn(u32) -> u32>(
    l: &mut Linear,
    name: &str,
    bits: QBits,
    method: QuantMethod,
    calib: Option<&CalibStats>,
    opts: &QuantOpts,
    ln: &L,
    exp: &E,
) -> (reports: Vec<QuantReport>)
    requires
        plan_of(bits, method, calib, *opts, ln, exp).accepts(name@, old(l)@),
        forall|v: u32| call_requires(ln, (v,)),
        forall|v: u32| call_requires(exp, (v,)),
    ensures
        final(l)@.wf(),
        final(l)@.inputs() == old(l)@.inputs(),
        final(l)@.outputs() == old(l)@.outputs(),
        final(l)@.bytes().1 <= 9 * (old(l)@.inputs() * old(l)@.outputs()) || final(l)@ == old(l)@,
        plan_of(bits, method, calib, *opts, ln, exp).run(
            seq![(name@, old(l)@)],
            seq![(name@, final(l)@)],
            reports@,
        ),
{
    let stats: Option<&LayerCalib> = match calib {
        Some(c) => c.get(name),
        None => None,
    };
    let ghost before = l@;
    let mut reports: Vec<QuantReport> = Vec::new();
    let r: Option<QuantReport> = l.quantize_weight(
        name,
        bits,
        method,
        opts,
        stats,
        ln,
        exp,
    );
    match r {
        Some(report) => {
            reports.push(report);
            proof {
                size_is_bounded(
                    l@.quant->0,
                    before.inputs() as int,
                    before.outputs() as int,
                );
                assert(reports@.drop_last() =~= Seq::empty());
            }
        },
        None => {},
    }
    proof {
        let one = seq![(name@, before)];
        let two = seq![(name@, l@)];
        assert(one.drop_last() =~= Seq::empty());
        assert(two.drop_last() =~= Seq::empty());
        reveal_with_fuel(QuantPlan::run, 2);
    }
    reports
}

/// The calibration behind a reference.
pub open spec fn taken(calib: Option<&CalibStats>) -> Option<CalibStats> {
    match calib {
        Some(c) => Some(*c),
        None => None,
    }
}

/// A run over no layers.
pub proof fn empty_run<L: Fn(u32) -> u32, E: Fn(u32) -> u32>(p: QuantPlan<L, E>)
    ensures
        p.run(Seq::empty(), Seq::empty(), Seq::empty()),
{
    reveal(QuantPlan::run);
}

} // verus!
