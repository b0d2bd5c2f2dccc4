//! The steps of quantising a model and what they report.

use crate::block;
use crate::block_quant;
use crate::codes::QBits;
use crate::layer_quant;
use crate::model::GPT;
use crate::model_ops;
use crate::quant_runs;
use crate::report::{CalibStats, LayerCalib, QuantMethod, QuantOpts, QuantReport, QuantSummary};
use vstd::prelude::*;

verus! {

/// What a calibration has gathered.
#[derive(Clone, Copy, Debug, PartialEq, Eq, Structural)]
pub struct CalibAccount {
    /// Tokens that the first layer has seen.
    pub tokens: usize,
    pub layers: usize,
    /// Layers with all second moments; the others have the diagonal at most.
    pub full: usize,
    /// Bytes of all second moments.
    pub bytes: usize,
}

/// How many of the first `n` layers have all second moments.
pub open spec fn full_layers(ls: Seq<(String, LayerCalib)>, n: nat) -> nat
    decreases n,
{
    if n == 0 {
        0
    } else {
        full_layers(ls, (n - 1) as nat) + if ls[n - 1].1.hessian matches Some(h) && h is Full {
            1nat
        } else {
            0nat
        }
    }
}

/// Bytes of the second moments of one layer.
pub open spec fn moment_bytes(c: LayerCalib) -> int {
    match c.hessian {
        Some(h) => 4 * h.element_count(),
        None => 0,
    }
}

/// Bytes of the second moments of the first `n` layers.
pub open spec fn all_moment_bytes(ls: Seq<(String, LayerCalib)>, n: nat) -> int
    decreases n,
{
    if n == 0 {
        0
    } else {
        all_moment_bytes(ls, (n - 1) as nat) + moment_bytes(ls[n - 1].1)
    }
}

proof fn lemma_bytes_grow(ls: Seq<(String, LayerCalib)>, i: nat, n: nat)
    requires
        i <= n <= ls.len(),
    ensures
        0 <= all_moment_bytes(ls, i) <= all_moment_bytes(ls, n),
    decreases n,
{
    if i < n {
        lemma_bytes_grow(ls, i, (n - 1) as nat);
    } else if n > 0 {
        lemma_bytes_grow(ls, (n - 1) as nat, (n - 1) as nat);
    }
}

/// Sums a calibration up.
pub fn calib_account(stats: &CalibStats) -> (r: CalibAccount)
    requires
        all_moment_bytes(stats.per_layer@, stats.per_layer@.len()) <= usize::MAX,
    ensures
        r.tokens == if stats.per_layer@.len() > 0 {
            stats.per_layer@[0].1.n_tokens
        } else {
            0
        },
        r.layers == stats.per_layer@.len(),
        r.full == full_layers(stats.per_layer@, stats.per_layer@.len()),
        r.bytes == all_moment_bytes(stats.per_layer@, stats.per_layer@.len()),
{
    let n: usize = stats.per_layer.len();
    let mut full: usize = 0;
    let mut bytes: usize = 0;
    for i in 0..n
        invariant
            n == stats.per_layer@.len(),
            full == full_layers(stats.per_layer@, i as nat),
            full <= i,
            bytes == all_moment_bytes(stats.per_layer@, i as nat),
            all_moment_bytes(stats.per_layer@, n as nat) <= usize::MAX,
    {
        let c: &LayerCalib = &stats.per_layer[i].1;
        proof {
            lemma_bytes_grow(stats.per_layer@, (i + 1) as nat, n as nat);
        }
        if let Some(h) = &c.hessian {
            if h.is_full() {
                full = full + 1;
            }
            bytes = bytes + h.byte_len();
        }
    }
    let tokens: usize = if n > 0 {
        stats.per_layer[0].1.n_tokens
    } else {
        0
    };
    CalibAccount { tokens, layers: n, full, bytes }
}

/// Quantises a plain model and sums the run up. Layers are reported if and only if the model holds
/// codes afterwards.
pub fn quantise_and_report<L: Fn(u32) -> u32, E: Fn(u32) -> u32>(
    model: &mut GPT,
    bits: QBits,
    method: QuantMethod,
    calib: Option<&CalibStats>,
    opts: &QuantOpts,
    ln: &L,
    exp: &E,
) -> (s: QuantSummary)
    requires
        old(model)@.wf(),
        !old(model)@.has_quant(),
        block_quant::accepts_all(
            layer_quant::plan_of(bits, method, calib, *opts, ln, exp),
            old(model)@.linears(),
        ),
        forall|v: u32| call_requires(ln, (v,)),
        forall|v: u32| call_requires(exp, (v,)),
        4 * old(model)@.table.data.len() + model_ops::room(
            old(model)@.linears(),
            old(model)@.linears().len(),
        ) <= usize::MAX,
    ensures
        final(model)@.wf(),
        model_ops::same_frame(old(model)@, final(model)@),
        layer_quant::plan_of(bits, method, calib, *opts, ln, exp).run(
            old(model)@.linears(),
            final(model)@.linears(),
            s.layers@,
        ),
        final(model)@.has_quant() == (s.layers@.len() > 0),
        s.method == method,
        s.bits == bits,
        s.f32_bytes == final(model)@.plain_size(),
        s.quant_bytes == final(model)@.present_size(),
        s.skipped + s.layers@.len() == final(model)@.linears().len(),
        final(model)@.quant matches Some(m) && (m.bits, m.method, m.orig_bytes, m.quant_bytes) == (
            bits,
            method,
            s.f32_bytes,
            s.quant_bytes,
        ),
        block::records(final(model).blocks@) == block::records(old(model).blocks@),
{
    let reports: Vec<QuantReport> = model.quantize_weights(bits, method, calib, opts, ln, exp);
    proof {
        let p = layer_quant::plan_of(bits, method, calib, *opts, ln, exp);
        quant_runs::reports_mean_codes(p, old(model)@, model@, reports@);
        layer_quant::runs_keep_layers(p, old(model)@.linears(), model@.linears(), reports@);
    }
    model.quant_summary(reports)
}

} // verus!
