//! The projections of an attention layer, and the sharing of key and value heads.

use crate::config::{LoRAConfig, RopeSpec};
use crate::layers::{Linear, LinearView};
use crate::mlp;
use crate::params;
use crate::params::{Module, Param, ParamView};
use crate::quant;
use crate::rounding;
use crate::text;
use vstd::prelude::*;

verus! {

/// The four projections of an attention layer.
#[derive(Debug)]
pub struct MultiHeadAttention {
    pub c_q: Linear,
    pub c_k: Linear,
    pub c_v: Linear,
    pub c_proj: Linear,
    pub n_head: usize,
    pub n_kv_head: usize,
    pub rope: RopeSpec,
}

/// What an attention layer holds.
#[verifier::ext_equal]
pub struct AttnView {
    pub q: LinearView,
    pub k: LinearView,
    pub v: LinearView,
    pub proj: LinearView,
    pub n_head: usize,
    pub n_kv_head: usize,
    pub rope: RopeSpec,
}

impl View for MultiHeadAttention {
    type V = AttnView;

    open spec fn view(&self) -> AttnView {
        AttnView {
            q: self.c_q@,
            k: self.c_k@,
            v: self.c_v@,
            proj: self.c_proj@,
            n_head: self.n_head,
            n_kv_head: self.n_kv_head,
            rope: self.rope,
        }
    }
}

impl AttnView {
    /// The width of all key or value heads together.
    pub open spec fn kv_width(self, d: int) -> int {
        d / (self.n_head as int) * self.n_kv_head
    }

    pub open spec fn wf(self, d: usize) -> bool {
        &&& self.n_kv_head > 0
        &&& self.n_head > 0
        &&& self.n_head % self.n_kv_head == 0
        &&& d % self.n_head == 0
        &&& self.q.wf()
        &&& self.k.wf()
        &&& self.v.wf()
        &&& self.proj.wf()
        &&& self.q.inputs() == d
        &&& self.q.outputs() == d
        &&& self.k.inputs() == d
        &&& self.k.outputs() == self.kv_width(d as int)
        &&& self.v.inputs() == d
        &&& self.v.outputs() == self.kv_width(d as int)
        &&& self.proj.inputs() == d
        &&& self.proj.outputs() == d
    }

    /// The projections under their names.
    pub open spec fn linears(self, prefix: Seq<char>) -> Seq<(Seq<char>, LinearView)> {
        seq![
            (prefix + ".c_q"@, self.q),
            (prefix + ".c_k"@, self.k),
            (prefix + ".c_v"@, self.v),
            (prefix + ".c_proj"@, self.proj),
        ]
    }

    pub open spec fn params(self) -> Seq<ParamView> {
        self.q.params() + self.k.params() + self.v.params() + self.proj.params()
    }

    pub open spec fn named(self, prefix: Seq<char>) -> Seq<(Seq<char>, ParamView)> {
        self.q.named(prefix + ".c_q"@) + self.k.named(prefix + ".c_k"@) + self.v.named(
            prefix + ".c_v"@,
        ) + self.proj.named(prefix + ".c_proj"@)
    }

    pub open spec fn adapter_params(self) -> Seq<ParamView> {
        self.q.adapter_params() + self.k.adapter_params() + self.v.adapter_params()
            + self.proj.adapter_params()
    }

    pub open spec fn has_lora(self) -> bool {
        self.q.lora is Some || self.k.lora is Some || self.v.lora is Some || self.proj.lora is Some
    }

    pub open spec fn has_quant(self) -> bool {
        self.q.quant is Some || self.k.quant is Some || self.v.quant is Some || self.proj.quant is Some
    }

    pub open spec fn merged(self) -> AttnView {
        AttnView {
            q: self.q.merged(),
            k: self.k.merged(),
            v: self.v.merged(),
            proj: self.proj.merged(),
            ..self
        }
    }

    pub open spec fn dequantized(self) -> AttnView {
        AttnView {
            q: self.q.dequantized(),
            k: self.k.dequantized(),
            v: self.v.dequantized(),
            proj: self.proj.dequantized(),
            ..self
        }
    }

    pub open spec fn cleared(self) -> AttnView {
        AttnView {
            q: self.q.cleared(),
            k: self.k.cleared(),
            v: self.v.cleared(),
            proj: self.proj.cleared(),
            ..self
        }
    }

    pub open spec fn marked(self, on: bool) -> AttnView {
        AttnView {
            q: self.q.marked(on),
            k: self.k.marked(on),
            v: self.v.marked(on),
            proj: self.proj.marked(on),
            ..self
        }
    }

    /// The layer with its adapters as the only trainable part.
    pub open spec fn tuned(self) -> AttnView {
        AttnView {
            q: self.q.tuned(),
            k: self.k.tuned(),
            v: self.v.tuned(),
            proj: self.proj.tuned(),
            ..self
        }
    }

    /// The target projections with fresh adapters.
    pub open spec fn adapted(self, lora: LoRAConfig, tape: Seq<u32>, pos: int) -> AttnView {
        let p1 = mlp::after_adapting(self.q, lora.targets.q, lora, pos);
        let p2 = mlp::after_adapting(self.k, lora.targets.k, lora, p1);
        let p3 = mlp::after_adapting(self.v, lora.targets.v, lora, p2);
        AttnView {
            q: mlp::adapted(self.q, lora.targets.q, lora, tape, pos),
            k: mlp::adapted(self.k, lora.targets.k, lora, tape, p1),
            v: mlp::adapted(self.v, lora.targets.v, lora, tape, p2),
            proj: mlp::adapted(self.proj, lora.targets.o, lora, tape, p3),
            ..self
        }
    }

    /// Where the tape stands after the target projections took their draws.
    pub open spec fn after_adapting(self, lora: LoRAConfig, pos: int) -> int {
        let p1 = mlp::after_adapting(self.q, lora.targets.q, lora, pos);
        let p2 = mlp::after_adapting(self.k, lora.targets.k, lora, p1);
        let p3 = mlp::after_adapting(self.v, lora.targets.v, lora, p2);
        mlp::after_adapting(self.proj, lora.targets.o, lora, p3)
    }

    pub open spec fn adaptable(self, lora: LoRAConfig) -> bool {
        &&& mlp::adaptable(self.q, lora)
        &&& mlp::adaptable(self.k, lora)
        &&& mlp::adaptable(self.v, lora)
        &&& mlp::adaptable(self.proj, lora)
    }
}

/// A fresh attention layer from the draws at `pos`.
pub open spec fn drawn_attention(
    d: usize,
    n_head: usize,
    n_kv_head: usize,
    rope: RopeSpec,
    tape: Seq<u32>,
    pos: int,
) -> AttnView {
    let w = (d / n_head * n_kv_head) as usize;
    AttnView {
        q: mlp::drawn_linear(d, d, tape, pos),
        k: mlp::drawn_linear(d, w, tape, pos + d * d),
        v: mlp::drawn_linear(d, w, tape, pos + d * d + d * w),
        proj: mlp::drawn_linear(d, d, tape, pos + d * d + d * w + d * w),
        n_head,
        n_kv_head,
        rope,
    }
}

/// The draws that a fresh attention layer takes.
pub open spec fn attention_draws(d: usize, n_head: usize, n_kv_head: usize) -> int {
    let w = d / n_head * n_kv_head;
    d * d + d * w + d * w + d * d
}

impl MultiHeadAttention {
    /// A fresh layer.
    pub fn new(
        d: usize,
        n_head: usize,
        n_kv_head: usize,
        rope: RopeSpec,
        tape: &[u32],
        pos: usize,
    ) -> (a: Self)
        requires
            n_kv_head > 0,
            n_head > 0,
            n_head % n_kv_head == 0,
            d % n_head == 0,
            2 * d <= usize::MAX,
            pos + attention_draws(d, n_head, n_kv_head) <= tape@.len(),
            tape@.len() <= usize::MAX,
        ensures
            a@ == drawn_attention(d, n_head, n_kv_head, rope, tape@, pos as int),
            a@.wf(d),
    {
        let hd: usize = d / n_head;
        proof {
            vstd::arithmetic::div_mod::lemma_fundamental_div_mod(d as int, n_head as int);
            vstd::arithmetic::div_mod::lemma_fundamental_div_mod(n_head as int, n_kv_head as int);
            assert(n_kv_head <= n_head) by (nonlinear_arith)
                requires
                    n_head as int == n_kv_head as int * (n_head as int / n_kv_head as int),
                    n_head > 0,
                    n_kv_head > 0,
            ;
            assert(0 <= hd * n_kv_head <= d) by (nonlinear_arith)
                requires
                    d as int == n_head as int * (d as int / n_head as int),
                    hd == d as int / n_head as int,
                    0 < n_kv_head <= n_head,
                    hd >= 0,
            ;
        }
        let w: usize = hd * n_kv_head;
        proof {
            assert(0 <= d * d && 0 <= d * w) by (nonlinear_arith)
                requires
                    d >= 0,
                    w >= 0,
            ;
        }
        let c_q: Linear = mlp::draw_linear(d, d, tape, pos);
        let c_k: Linear = mlp::draw_linear(d, w, tape, pos + d * d);
        let c_v: Linear = mlp::draw_linear(d, w, tape, pos + d * d + d * w);
        let c_proj: Linear = mlp::draw_linear(d, d, tape, pos + d * d + d * w + d * w);
        MultiHeadAttention { c_q, c_k, c_v, c_proj, n_head, n_kv_head, rope }
    }

    /// The projections under their names.
    pub fn named_linears(&self, prefix: &str) -> (ls: Vec<(String, &Linear)>)
        ensures
            mlp::layer_listing(ls@) == self@.linears(prefix@),
    {
        let ls: Vec<(String, &Linear)> = vec![
            (text::joined(prefix, ".c_q"), &self.c_q),
            (text::joined(prefix, ".c_k"), &self.c_k),
            (text::joined(prefix, ".c_v"), &self.c_v),
            (text::joined(prefix, ".c_proj"), &self.c_proj),
        ];
        assert(mlp::layer_listing(ls@) =~= self@.linears(prefix@));
        ls
    }

    /// The parameters with their names.
    pub fn named_parameters(&self, prefix: &str) -> (ps: Vec<(String, &Param)>)
        ensures
            params::listing(ps@) == self@.named(prefix@),
    {
        let mut ps: Vec<(String, &Param)> = self.c_q.named_parameters(
            text::joined(prefix, ".c_q").as_str(),
        );
        params::extend_named(
            &mut ps,
            self.c_k.named_parameters(text::joined(prefix, ".c_k").as_str()),
        );
        params::extend_named(
            &mut ps,
            self.c_v.named_parameters(text::joined(prefix, ".c_v").as_str()),
        );
        params::extend_named(
            &mut ps,
            self.c_proj.named_parameters(text::joined(prefix, ".c_proj").as_str()),
        );
        ps
    }

    /// Gives the target projections fresh adapters; returns where the tape stands.
    pub fn apply_lora(&mut self, lora: &LoRAConfig, tape: &[u32], pos: usize) -> (next: usize)
        requires
            old(self)@.adaptable(*lora),
            lora.rank >= 1,
            old(self)@.after_adapting(*lora, pos as int) <= tape@.len(),
            tape@.len() <= usize::MAX,
        ensures
            final(self)@ == old(self)@.adapted(*lora, tape@, pos as int),
            next == old(self)@.after_adapting(*lora, pos as int),
            forall|d: usize| old(self)@.wf(d) ==> #[trigger] final(self)@.wf(d),
    {
        proof {
            let p1 = mlp::after_adapting(self.c_q@, lora.targets.q, *lora, pos as int);
            let p2 = mlp::after_adapting(self.c_k@, lora.targets.k, *lora, p1);
            let p3 = mlp::after_adapting(self.c_v@, lora.targets.v, *lora, p2);
            mlp::tape_moves_on(self.c_q@, lora.targets.q, *lora, pos as int);
            mlp::tape_moves_on(self.c_k@, lora.targets.k, *lora, p1);
            mlp::tape_moves_on(self.c_v@, lora.targets.v, *lora, p2);
            mlp::tape_moves_on(self.c_proj@, lora.targets.o, *lora, p3);
        }
        let p1: usize = mlp::adapt(&mut self.c_q, lora.targets.q, lora, tape, pos);
        let p2: usize = mlp::adapt(&mut self.c_k, lora.targets.k, lora, tape, p1);
        let p3: usize = mlp::adapt(&mut self.c_v, lora.targets.v, lora, tape, p2);
        mlp::adapt(&mut self.c_proj, lora.targets.o, lora, tape, p3)
    }

    /// Freezes the layer but for its adapters.
    pub fn train_adapters(&mut self)
        ensures
            final(self)@ == old(self)@.tuned(),
    {
        self.c_q.train_adapter();
        self.c_k.train_adapter();
        self.c_v.train_adapter();
        self.c_proj.train_adapter();
    }

    /// Adds all adapters to their weights.
    pub fn merge_lora(&mut self, d: usize)
        requires
            old(self)@.wf(d),
        ensures
            final(self)@ == old(self)@.merged(),
            final(self)@.wf(d),
    {
        self.c_q.merge_lora();
        self.c_k.merge_lora();
        self.c_v.merge_lora();
        self.c_proj.merge_lora();
    }

    /// Writes all quantised weights out as plain numbers.
    pub fn dequantize_weights(&mut self, d: usize)
        requires
            old(self)@.wf(d),
        ensures
            final(self)@ == old(self)@.dequantized(),
            final(self)@.wf(d),
    {
        self.c_q.dequantize_weight();
        self.c_k.dequantize_weight();
        self.c_v.dequantize_weight();
        self.c_proj.dequantize_weight();
    }

    /// Whether any projection has an adapter.
    pub fn has_lora(&self) -> (r: bool)
        ensures
            r == self@.has_lora(),
    {
        self.c_q.has_lora() || self.c_k.has_lora() || self.c_v.has_lora() || self.c_proj.has_lora()
    }

    /// Whether any projection is quantised.
    pub fn has_quant(&self) -> (r: bool)
        ensures
            r == self@.has_quant(),
    {
        self.c_q.has_quant() || self.c_k.has_quant() || self.c_v.has_quant()
            || self.c_proj.has_quant()
    }
}

impl Module for MultiHeadAttention {
    open spec fn param_views(&self) -> Seq<ParamView> {
        self@.params()
    }

    fn parameters(&self) -> (ps: Vec<&Param>) {
        let mut ps: Vec<&Param> = self.c_q.parameters();
        params::extend_params(&mut ps, self.c_k.parameters());
        params::extend_params(&mut ps, self.c_v.parameters());
        params::extend_params(&mut ps, self.c_proj.parameters());
        assert(params::views(ps@) =~= self.param_views());
        ps
    }

    fn zero_grad(&mut self)
        ensures
            final(self)@ == old(self)@.cleared(),
    {
        proof {
            let (a, b) = (self.c_q@.params(), self.c_k@.params());
            let (c, e) = (self.c_v@.params(), self.c_proj@.params());
            params::changes_of_concat(a, b, true);
            params::changes_of_concat(a + b, c, true);
            params::changes_of_concat(a + b + c, e, true);
        }
        self.c_q.zero_grad();
        self.c_k.zero_grad();
        self.c_v.zero_grad();
        self.c_proj.zero_grad();
    }

    fn set_requires_grad(&mut self, on: bool)
        ensures
            final(self)@ == old(self)@.marked(on),
    {
        proof {
            let (a, b) = (self.c_q@.params(), self.c_k@.params());
            let (c, e) = (self.c_v@.params(), self.c_proj@.params());
            params::changes_of_concat(a, b, on);
            params::changes_of_concat(a + b, c, on);
            params::changes_of_concat(a + b + c, e, on);
        }
        self.c_q.set_requires_grad(on);
        self.c_k.set_requires_grad(on);
        self.c_v.set_requires_grad(on);
        self.c_proj.set_requires_grad(on);
    }
}

/// The column of a shared head that column `c` of the full set of heads comes from: head `h` uses
/// shared head `h / n_rep`.
pub open spec fn shared_column(c: int, hd: int, n_rep: int) -> int {
    (c / hd / n_rep) * hd + c % hd
}

/// Every shared head repeated `n_rep` times.
pub open spec fn expanded(w: Seq<u32>, rows: int, n_kv: int, hd: int, n_rep: int) -> Seq<u32> {
    let wide = n_kv * n_rep * hd;
    Seq::new(
        (rows * wide) as nat,
        |p: int| w[(p / wide) * (n_kv * hd) + shared_column(p % wide, hd, n_rep)],
    )
}

/// The sum over the first `k` repetitions of a shared head.
pub open spec fn folded_cell(
    g: Seq<u32>,
    wide: int,
    hd: int,
    n_rep: int,
    r: int,
    c: int,
    k: nat,
) -> u32
    decreases k,
{
    if k == 0 {
        0
    } else {
        rounding::sum(
            folded_cell(g, wide, hd, n_rep, r, c, (k - 1) as nat),
            g[r * wide + ((c / hd) * n_rep + (k - 1)) * hd + c % hd],
        )
    }
}

/// The gradients of the repetitions summed onto their shared heads.
pub open spec fn folded(g: Seq<u32>, rows: int, n_kv: int, hd: int, n_rep: int) -> Seq<u32> {
    let narrow = n_kv * hd;
    Seq::new(
        (rows * narrow) as nat,
        |p: int|
            folded_cell(
                g,
                n_kv * n_rep * hd,
                hd,
                n_rep,
                p / narrow,
                p % narrow,
                n_rep as nat,
            ),
    )
}

/// Where repetition `k` of column `c` lies among the full set of heads.
proof fn lemma_repeated_column(c: int, k: int, n_kv: int, hd: int, n_rep: int)
    requires
        hd > 0,
        n_rep > 0,
        0 <= c < n_kv * hd,
        0 <= k < n_rep,
    ensures
        ({
            let t = ((c / hd) * n_rep + k) * hd + c % hd;
            &&& 0 <= t < n_kv * n_rep * hd
            &&& shared_column(t, hd, n_rep) == c
        }),
{
    assert(n_kv >= 0) by (nonlinear_arith)
        requires
            0 < n_kv * hd,
            hd > 0,
    ;
    quant::flat_position(c, n_kv, hd);
    let h = c / hd;
    let e = c % hd;
    quant::cell_position(h, k, n_kv, n_rep);
    quant::cell_position(h * n_rep + k, e, n_kv * n_rep, hd);
}

/// A column of the full set of heads comes from a column of the shared ones.
proof fn lemma_shared_column(t: int, n_kv: int, hd: int, n_rep: int)
    requires
        hd > 0,
        n_rep > 0,
        n_kv >= 0,
        0 <= t < n_kv * n_rep * hd,
    ensures
        0 <= shared_column(t, hd, n_rep) < n_kv * hd,
{
    assert(0 <= n_kv * n_rep) by (nonlinear_arith)
        requires
            n_kv >= 0,
            n_rep > 0,
    ;
    quant::flat_position(t, n_kv * n_rep, hd);
    quant::flat_position(t / hd, n_kv, n_rep);
    quant::cell_position(t / hd / n_rep, t % hd, n_kv, hd);
}

/// Repeats every shared head `n_rep` times.
pub fn expand_kv_head(w: &[u32], rows: usize, n_kv: usize, hd: usize, n_rep: usize) -> (r: Vec<
    u32,
>)
    requires
        w@.len() == rows * (n_kv * hd),
        hd > 0,
        n_rep > 0,
        n_kv * n_rep * hd <= usize::MAX,
        rows * (n_kv * n_rep * hd) <= usize::MAX,
    ensures
        r@ == expanded(w@, rows as int, n_kv as int, hd as int, n_rep as int),
{
    let len: usize = w.len();
    proof {
        assert(0 <= n_kv * n_rep <= n_kv * n_rep * hd && 0 <= n_kv * hd <= n_kv * n_rep * hd)
            by (nonlinear_arith)
            requires
                n_kv >= 0,
                n_rep > 0,
                hd > 0,
        ;
    }
    let wide: usize = n_kv * n_rep * hd;
    let narrow: usize = n_kv * hd;
    let total: usize = rows * wide;
    let mut r: Vec<u32> = Vec::new();
    for p in 0..total
        invariant
            len == w@.len(),
            w@.len() == rows * narrow,
            narrow == n_kv * hd,
            wide == n_kv * n_rep * hd,
            total == rows * wide,
            hd > 0,
            n_rep > 0,
            r@ =~= Seq::new(
                p as nat,
                |p: int|
                    w@[(p / (wide as int)) * (n_kv * hd) + shared_column(
                        p % (wide as int),
                        hd as int,
                        n_rep as int,
                    )],
            ),
    {
        proof {
            quant::flat_position(p as int, rows as int, wide as int);
            lemma_shared_column(p as int % wide as int, n_kv as int, hd as int, n_rep as int);
            quant::cell_position(
                p as int / wide as int,
                shared_column(p as int % wide as int, hd as int, n_rep as int),
                rows as int,
                narrow as int,
            );
            let t = p as int % wide as int;
            let h = t / (hd as int) / (n_rep as int);
            assert(0 <= h * hd) by (nonlinear_arith)
                requires
                    h >= 0,
                    hd > 0,
            {
                assert(h >= 0);
            }
        }
        let t: usize = p % wide;
        let c: usize = (t / hd / n_rep) * hd + t % hd;
        r.push(w[(p / wide) * narrow + c]);
    }
    r
}

/// Sums the gradients of all repetitions onto their shared heads.
pub fn fold_kv_head_grad(g: &[u32], rows: usize, n_kv: usize, hd: usize, n_rep: usize) -> (r: Vec<
    u32,
>)
    requires
        g@.len() == rows * (n_kv * n_rep * hd),
        hd > 0,
        n_rep > 0,
        n_kv * n_rep * hd <= usize::MAX,
    ensures
        r@ == folded(g@, rows as int, n_kv as int, hd as int, n_rep as int),
{
    let len: usize = g.len();
    proof {
        assert(0 <= n_kv * n_rep <= n_kv * n_rep * hd && 0 <= n_kv * hd <= n_kv * n_rep * hd
            && rows * (n_kv * hd) <= rows * (n_kv * n_rep * hd)) by (nonlinear_arith)
            requires
                rows >= 0,
                n_kv >= 0,
                n_rep > 0,
                hd > 0,
        ;
    }
    let wide: usize = n_kv * n_rep * hd;
    let narrow: usize = n_kv * hd;
    let total: usize = rows * narrow;
    let mut r: Vec<u32> = Vec::new();
    for p in 0..total
        invariant
            len == g@.len(),
            g@.len() == rows * wide,
            narrow == n_kv * hd,
            wide == n_kv * n_rep * hd,
            total == rows * narrow,
            hd > 0,
            n_rep > 0,
            r@ =~= Seq::new(
                p as nat,
                |p: int|
                    folded_cell(
                        g@,
                        n_kv * n_rep * hd,
                        hd as int,
                        n_rep as int,
                        p / (narrow as int),
                        p % (narrow as int),
                        n_rep as nat,
                    ),
            ),
    {
        proof {
            quant::flat_position(p as int, rows as int, narrow as int);
        }
        let row: usize = p / narrow;
        let c: usize = p % narrow;
        let mut s: u32 = 0;
        for k in 0..n_rep
            invariant
                len == g@.len(),
                g@.len() == rows * wide,
                narrow == n_kv * hd,
                wide == n_kv * n_rep * hd,
                hd > 0,
                n_rep > 0,
                row < rows,
                c < narrow,
                s == folded_cell(
                    g@,
                    wide as int,
                    hd as int,
                    n_rep as int,
                    row as int,
                    c as int,
                    k as nat,
                ),
        {
            proof {
                let h = c as int / hd as int;
                lemma_repeated_column(c as int, k as int, n_kv as int, hd as int, n_rep as int);
                let t = (h * n_rep + k) * hd + c as int % hd as int;
                quant::cell_position(row as int, t, rows as int, wide as int);
                quant::flat_position(c as int, n_kv as int, hd as int);
                assert(0 <= h * n_rep && h * n_rep + k <= (h * n_rep + k) * hd) by (nonlinear_arith)
                    requires
                        h >= 0,
                        n_rep > 0,
                        k >= 0,
                        hd > 0,
                ;
            }
            let t: usize = ((c / hd) * n_rep + k) * hd + c % hd;
            s = rounding::plus(s, g[row * wide + t]);
        }
        r.push(s);
    }
    r
}

/// Without sharing, repeating heads changes nothing.
pub proof fn single_repetition_changes_nothing(w: Seq<u32>, rows: int, n_kv: int, hd: int)
    requires
        rows >= 0,
        n_kv >= 0,
        hd > 0,
        w.len() == rows * (n_kv * hd),
    ensures
        expanded(w, rows, n_kv, hd, 1) == w,
{
    let x = expanded(w, rows, n_kv, hd, 1);
    assert(n_kv * 1 * hd == n_kv * hd);
    assert forall|p: int| 0 <= p < w.len() implies x[p] == w[p] by {
        let wide = n_kv * hd;
        assert(wide >= 0) by (nonlinear_arith)
            requires
                wide == n_kv * hd,
                n_kv >= 0,
                hd > 0,
        ;
        quant::flat_position(p, rows, wide);
        let t = p % wide;
        quant::flat_position(t, n_kv, hd);
        assert(t / hd / 1 == t / hd);
    }
    assert(x =~= w);
}

/// All repetitions of a shared head hold the same numbers: those of the shared head.
pub proof fn repetitions_are_copies(
    w: Seq<u32>,
    rows: int,
    n_kv: int,
    hd: int,
    n_rep: int,
    r: int,
    c: int,
    k: int,
)
    requires
        hd > 0,
        n_rep > 0,
        0 <= r < rows,
        0 <= c < n_kv * hd,
        0 <= k < n_rep,
    ensures
        expanded(w, rows, n_kv, hd, n_rep)[r * (n_kv * n_rep * hd) + ((c / hd) * n_rep + k) * hd + c
            % hd] == w[r * (n_kv * hd) + c],
{
    lemma_repeated_column(c, k, n_kv, hd, n_rep);
    let wide = n_kv * n_rep * hd;
    let t = ((c / hd) * n_rep + k) * hd + c % hd;
    quant::cell_position(r, t, rows, wide);
}

} // verus!
