//! Quantising the layers of one block.

use crate::attention::{AttnView, MultiHeadAttention};
use crate::block::{Ffn, FfnView, TransformerBlock};
use crate::codes::QBits;
use crate::layer_quant;
use crate::layer_quant::QuantPlan;
use crate::layers::LinearView;
use crate::mlp::{MLPEnum, MlpView};
use crate::report::{CalibStats, QuantMethod, QuantOpts, QuantReport};
use crate::text;
use vstd::prelude::*;

verus! {

/// Whether a plan accepts every layer of a list.
pub open spec fn accepts_all<L: Fn(u32) -> u32, E: Fn(u32) -> u32>(
    p: QuantPlan<L, E>,
    ls: Seq<(Seq<char>, LinearView)>,
) -> bool {
    forall|i: int| 0 <= i < ls.len() ==> p.accepts((#[trigger] ls[i]).0, ls[i].1)
}

/// Adds the reports of `more`.
pub fn extend_reports(rs: &mut Vec<QuantReport>, more: Vec<QuantReport>)
    ensures
        final(rs)@ == old(rs)@ + more@,
{
    let mut more: Vec<QuantReport> = more;
    rs.append(&mut more);
}

impl MultiHeadAttention {
    /// Quantises the four projections.
    pub fn quantize_weights<L: Fn(u32) -> u32, E: Fn(u32) -> u32>(
        &mut self,
        d: usize,
        prefix: &str,
        bits: QBits,
        method: QuantMethod,
        calib: Option<&CalibStats>,
        opts: &QuantOpts,
        ln: &L,
        exp: &E,
    ) -> (reports: Vec<QuantReport>)
        requires
            old(self)@.wf(d),
            accepts_all(
                layer_quant::plan_of(bits, method, calib, *opts, ln, exp),
                old(self)@.linears(prefix@),
            ),
            forall|v: u32| call_requires(ln, (v,)),
            forall|v: u32| call_requires(exp, (v,)),
        ensures
            final(self)@.wf(d),
            layer_quant::plan_of(bits, method, calib, *opts, ln, exp).run(
                old(self)@.linears(prefix@),
                final(self)@.linears(prefix@),
                reports@,
            ),
            final(self)@ == (AttnView {
                q: final(self)@.q,
                k: final(self)@.k,
                v: final(self)@.v,
                proj: final(self)@.proj,
                ..old(self)@
            }),
    {
        let ghost p = layer_quant::plan_of(bits, method, calib, *opts, ln, exp);
        let ghost b = self@;
        let ghost ls = self@.linears(prefix@);
        let (nq, nk): (String, String) = (
            text::joined(prefix, ".c_q"),
            text::joined(prefix, ".c_k"),
        );
        let (nv, np): (String, String) = (
            text::joined(prefix, ".c_v"),
            text::joined(prefix, ".c_proj"),
        );
        proof {
            assert(ls[0] == (nq@, b.q));
            assert(ls[1] == (nk@, b.k));
            assert(ls[2] == (nv@, b.v));
            assert(ls[3] == (np@, b.proj));
        }
        let mut rs: Vec<QuantReport> = layer_quant::quantize_named(
            &mut self.c_q,
            nq.as_str(),
            bits,
            method,
            calib,
            opts,
            ln,
            exp,
        );
        let rk: Vec<QuantReport> = layer_quant::quantize_named(
            &mut self.c_k,
            nk.as_str(),
            bits,
            method,
            calib,
            opts,
            ln,
            exp,
        );
        let rv: Vec<QuantReport> = layer_quant::quantize_named(
            &mut self.c_v,
            nv.as_str(),
            bits,
            method,
            calib,
            opts,
            ln,
            exp,
        );
        let rp: Vec<QuantReport> = layer_quant::quantize_named(
            &mut self.c_proj,
            np.as_str(),
            bits,
            method,
            calib,
            opts,
            ln,
            exp,
        );
        proof {
            let (o0, f0) = (seq![(nq@, b.q)], seq![(nq@, self@.q)]);
            let (o1, f1) = (seq![(nk@, b.k)], seq![(nk@, self@.k)]);
            let (o2, f2) = (seq![(nv@, b.v)], seq![(nv@, self@.v)]);
            let (o3, f3) = (seq![(np@, b.proj)], seq![(np@, self@.proj)]);
            layer_quant::runs_compose(p, o0, f0, rs@, o1, f1, rk@);
            layer_quant::runs_compose(p, o0 + o1, f0 + f1, rs@ + rk@, o2, f2, rv@);
            layer_quant::runs_compose(
                p,
                o0 + o1 + o2,
                f0 + f1 + f2,
                rs@ + rk@ + rv@,
                o3,
                f3,
                rp@,
            );
            assert(o0 + o1 + o2 + o3 =~= ls);
            assert(f0 + f1 + f2 + f3 =~= self@.linears(prefix@));
        }
        extend_reports(&mut rs, rk);
        extend_reports(&mut rs, rv);
        extend_reports(&mut rs, rp);
        rs
    }
}

impl MLPEnum {
    /// Quantises all layers.
    pub fn quantize_weights<L: Fn(u32) -> u32, E: Fn(u32) -> u32>(
        &mut self,
        d: usize,
        prefix: &str,
        bits: QBits,
        method: QuantMethod,
        calib: Option<&CalibStats>,
        opts: &QuantOpts,
        ln: &L,
        exp: &E,
    ) -> (reports: Vec<QuantReport>)
        requires
            old(self)@.wf(d),
            accepts_all(
                layer_quant::plan_of(bits, method, calib, *opts, ln, exp),
                old(self)@.linears(prefix@),
            ),
            forall|v: u32| call_requires(ln, (v,)),
            forall|v: u32| call_requires(exp, (v,)),
        ensures
            final(self)@.wf(d),
            final(self)@ is Plain <==> old(self)@ is Plain,
            layer_quant::plan_of(bits, method, calib, *opts, ln, exp).run(
                old(self)@.linears(prefix@),
                final(self)@.linears(prefix@),
                reports@,
            ),
    {
        let ghost p = layer_quant::plan_of(bits, method, calib, *opts, ln, exp);
        let ghost ls = self@.linears(prefix@);
        match self {
            MLPEnum::GELU { linear1, linear2 } => {
                let (n1, n2): (String, String) = (
                    text::joined(prefix, ".mlp_linear1"),
                    text::joined(prefix, ".mlp_linear2"),
                );
                let ghost (b1, b2) = (linear1@, linear2@);
                proof {
                    assert(ls[0] == (n1@, b1));
                    assert(ls[1] == (n2@, b2));
                }
                let mut rs: Vec<QuantReport> = layer_quant::quantize_named(
                    linear1,
                    n1.as_str(),
                    bits,
                    method,
                    calib,
                    opts,
                    ln,
                    exp,
                );
                let r2: Vec<QuantReport> = layer_quant::quantize_named(
                    linear2,
                    n2.as_str(),
                    bits,
                    method,
                    calib,
                    opts,
                    ln,
                    exp,
                );
                proof {
                    let (o1, f1) = (seq![(n1@, b1)], seq![(n1@, linear1@)]);
                    let (o2, f2) = (seq![(n2@, b2)], seq![(n2@, linear2@)]);
                    layer_quant::runs_compose(p, o1, f1, rs@, o2, f2, r2@);
                    assert(o1 + o2 =~= ls);
                    assert(f1 + f2 =~= (MlpView::Plain {
                        first: linear1@,
                        second: linear2@,
                    }).linears(prefix@));
                }
                extend_reports(&mut rs, r2);
                rs
            },
            MLPEnum::SwiGLU(s) => {
                let (n1, n2): (String, String) = (
                    text::joined(prefix, ".w_gate"),
                    text::joined(prefix, ".w_up"),
                );
                let n3: String = text::joined(prefix, ".w_down");
                let ghost (b1, b2, b3) = (s.w_gate@, s.w_up@, s.w_down@);
                proof {
                    assert(ls[0] == (n1@, b1));
                    assert(ls[1] == (n2@, b2));
                    assert(ls[2] == (n3@, b3));
                }
                let mut rs: Vec<QuantReport> = layer_quant::quantize_named(
                    &mut s.w_gate,
                    n1.as_str(),
                    bits,
                    method,
                    calib,
                    opts,
                    ln,
                    exp,
                );
                let r2: Vec<QuantReport> = layer_quant::quantize_named(
                    &mut s.w_up,
                    n2.as_str(),
                    bits,
                    method,
                    calib,
                    opts,
                    ln,
                    exp,
                );
                let r3: Vec<QuantReport> = layer_quant::quantize_named(
                    &mut s.w_down,
                    n3.as_str(),
                    bits,
                    method,
                    calib,
                    opts,
                    ln,
                    exp,
                );
                proof {
                    let (o1, f1) = (seq![(n1@, b1)], seq![(n1@, s.w_gate@)]);
                    let (o2, f2) = (seq![(n2@, b2)], seq![(n2@, s.w_up@)]);
                    let (o3, f3) = (seq![(n3@, b3)], seq![(n3@, s.w_down@)]);
                    layer_quant::runs_compose(p, o1, f1, rs@, o2, f2, r2@);
                    layer_quant::runs_compose(p, o1 + o2, f1 + f2, rs@ + r2@, o3, f3, r3@);
                    assert(o1 + o2 + o3 =~= ls);
                    assert(f1 + f2 + f3 =~= s@.linears(prefix@));
                }
                extend_reports(&mut rs, r2);
                extend_reports(&mut rs, r3);
                rs
            },
        }
    }
}

/// Whether two feed-forward layers are of one kind, and equal where they are made of experts.
pub open spec fn same_kind(a: FfnView, b: FfnView) -> bool {
    match (a, b) {
        (FfnView::Dense(m), FfnView::Dense(n)) => m is Plain <==> n is Plain,
        (FfnView::Moe(m), FfnView::Moe(n)) => m == n,
        _ => false,
    }
}

impl TransformerBlock {
    /// Quantises all layers but experts.
    pub fn quantize_weights<L: Fn(u32) -> u32, E: Fn(u32) -> u32>(
        &mut self,
        d: usize,
        prefix: &str,
        bits: QBits,
        method: QuantMethod,
        calib: Option<&CalibStats>,
        opts: &QuantOpts,
        ln: &L,
        exp: &E,
    ) -> (reports: Vec<QuantReport>)
        requires
            old(self)@.wf(d),
            accepts_all(
                layer_quant::plan_of(bits, method, calib, *opts, ln, exp),
                old(self)@.linears(prefix@),
            ),
            forall|v: u32| call_requires(ln, (v,)),
            forall|v: u32| call_requires(exp, (v,)),
        ensures
            final(self)@.wf(d),
            layer_quant::plan_of(bits, method, calib, *opts, ln, exp).run(
                old(self)@.linears(prefix@),
                final(self)@.linears(prefix@),
                reports@,
            ),
            final(self)@.ln1 == old(self)@.ln1,
            final(self)@.ln2 == old(self)@.ln2,
            final(self)@.attn == (AttnView {
                q: final(self)@.attn.q,
                k: final(self)@.attn.k,
                v: final(self)@.attn.v,
                proj: final(self)@.attn.proj,
                ..old(self)@.attn
            }),
            same_kind(old(self)@.ffn, final(self)@.ffn),
            final(self)@.dropout == old(self)@.dropout,
            final(self).record() == old(self).record(),
    {
        let ghost p = layer_quant::plan_of(bits, method, calib, *opts, ln, exp);
        let ghost b = self@;
        let na: String = text::joined(prefix, ".attn");
        let nf: String = text::joined(prefix, ".mlp");
        proof {
            let whole = b.linears(prefix@);
            let head = b.attn.linears(na@);
            let tail = b.ffn.linears(prefix@);
            assert forall|i: int| 0 <= i < head.len() implies p.accepts(
                (#[trigger] head[i]).0,
                head[i].1,
            ) by {
                assert(whole[i] == head[i]);
            }
            assert forall|i: int| 0 <= i < tail.len() implies p.accepts(
                (#[trigger] tail[i]).0,
                tail[i].1,
            ) by {
                assert(whole[head.len() + i] == tail[i]);
            }
        }
        let mut rs: Vec<QuantReport> = self.attn.quantize_weights(
            d,
            na.as_str(),
            bits,
            method,
            calib,
            opts,
            ln,
            exp,
        );
        let more: Vec<QuantReport> = match &mut self.ffn {
            Ffn::Dense(m) => m.quantize_weights(
                d,
                nf.as_str(),
                bits,
                method,
                calib,
                opts,
                ln,
                exp,
            ),
            Ffn::Moe(_) => Vec::new(),
        };
        proof {
            layer_quant::empty_run(p);
            layer_quant::runs_compose(
                p,
                b.attn.linears(na@),
                self@.attn.linears(na@),
                rs@,
                b.ffn.linears(prefix@),
                self@.ffn.linears(prefix@),
                more@,
            );
        }
        extend_reports(&mut rs, more);
        rs
    }
}

} // verus!
