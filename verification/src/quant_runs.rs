//! What holds of quantising a whole model and of undoing it.

use crate::block::{BlockView, FfnView, PassRecord};
use crate::codes;
use crate::codes::QBits;
use crate::forward;
use crate::layer_laws;
use crate::layer_quant::QuantPlan;
use crate::layers::LinearView;
use crate::matrix;
use crate::mlp;
use crate::mlp::MlpView;
use crate::model;
use crate::model::ModelView;
use crate::model_run::Sight;
use crate::report::QuantReport;
use crate::text;
use vstd::prelude::*;

verus! {

/// Whether a layer of a list holds codes.
pub open spec fn holds_codes(ls: Seq<(Seq<char>, LinearView)>) -> bool {
    exists|i: int| 0 <= i < ls.len() && (#[trigger] ls[i]).1.quant is Some
}

proof fn lemma_codes_of_concat(
    a: Seq<(Seq<char>, LinearView)>,
    b: Seq<(Seq<char>, LinearView)>,
)
    ensures
        holds_codes(a + b) == (holds_codes(a) || holds_codes(b)),
{
    if holds_codes(a) {
        let i = choose|i: int| 0 <= i < a.len() && (#[trigger] a[i]).1.quant is Some;
        assert((a + b)[i] == a[i]);
    }
    if holds_codes(b) {
        let i = choose|i: int| 0 <= i < b.len() && (#[trigger] b[i]).1.quant is Some;
        assert((a + b)[a.len() + i] == b[i]);
    }
    if holds_codes(a + b) {
        let i = choose|i: int| 0 <= i < (a + b).len() && (#[trigger] (a + b)[i]).1.quant is Some;
        if i < a.len() {
            assert(a[i].1.quant is Some);
        } else {
            assert(b[i - a.len()].1.quant is Some);
        }
    }
}

proof fn lemma_block_codes(b: BlockView, prefix: Seq<char>)
    ensures
        holds_codes(b.linears(prefix)) == b.has_quant(),
{
    let attn = b.attn.linears(prefix + ".attn"@);
    let ffn = b.ffn.linears(prefix);
    lemma_codes_of_concat(attn, ffn);
    assert(holds_codes(attn) == b.attn.has_quant()) by {
        assert(attn[0].1 == b.attn.q);
        assert(attn[1].1 == b.attn.k);
        assert(attn[2].1 == b.attn.v);
        assert(attn[3].1 == b.attn.proj);
    }
    assert(holds_codes(ffn) == b.ffn.has_quant()) by {
        match b.ffn {
            FfnView::Dense(m) => {
                match m {
                    MlpView::Plain { first, second } => {
                        assert(ffn[0].1 == first);
                        assert(ffn[1].1 == second);
                    },
                    MlpView::Gated { gate, up, down } => {
                        assert(ffn[0].1 == gate);
                        assert(ffn[1].1 == up);
                        assert(ffn[2].1 == down);
                    },
                }
            },
            FfnView::Moe(_) => {},
        }
    }
}

proof fn lemma_stack_codes(bs: Seq<BlockView>, n: nat)
    requires
        n <= bs.len(),
    ensures
        holds_codes(model::stack_linears(bs, n)) == (exists|i: int|
            0 <= i < n && (#[trigger] bs[i]).has_quant()),
    decreases n,
{
    if n > 0 {
        lemma_stack_codes(bs, (n - 1) as nat);
        let prefix = "blocks."@ + text::digits((n - 1) as nat);
        lemma_block_codes(bs[n - 1], prefix);
        lemma_codes_of_concat(
            model::stack_linears(bs, (n - 1) as nat),
            bs[n - 1].linears(prefix),
        );
        if bs[n - 1].has_quant() {
            assert(exists|i: int| 0 <= i < n && (#[trigger] bs[i]).has_quant());
        }
    }
}

/// A layer of four inputs and four outputs or more takes less room as codes than as plain numbers,
/// scales included.
pub proof fn codes_take_less_room(l: LinearView)
    requires
        l.wf(),
        l.quant is Some,
        l.inputs() >= 4,
        l.outputs() >= 4,
    ensures
        l.bytes().1 < l.bytes().0,
{
    let q = l.quant->0;
    let (r, c) = (l.inputs() as int, l.outputs() as int);
    q.q.shape();
    let n = r * c;
    assert(4 * r <= n && 4 * c <= n) by (nonlinear_arith)
        requires
            r >= 4,
            c >= 4,
            n == r * c,
    ;
    assert(codes::packed_size(n, q.q.width()) <= n) by {
        match q.q.width() {
            QBits::Int8 => {},
            QBits::Int4 => {},
        }
    }
}

proof fn lemma_lists_take_less_room(ls: Seq<(Seq<char>, LinearView)>, n: nat)
    requires
        n <= ls.len(),
        forall|i: int|
            0 <= i < ls.len() ==> {
                &&& (#[trigger] ls[i]).1.wf()
                &&& ls[i].1.inputs() >= 4
                &&& ls[i].1.outputs() >= 4
            },
    ensures
        model::present_bytes(ls, n) <= model::plain_bytes(ls, n),
        holds_codes(ls.take(n as int)) ==> model::present_bytes(ls, n) < model::plain_bytes(ls, n),
    decreases n,
{
    if n > 0 {
        let m = (n - 1) as nat;
        lemma_lists_take_less_room(ls, m);
        let l = ls[n - 1].1;
        if l.quant is Some {
            codes_take_less_room(l);
        }
        if holds_codes(ls.take(n as int)) && l.quant is None {
            let i = choose|i: int|
                0 <= i < n && (#[trigger] ls.take(n as int)[i]).1.quant is Some;
            assert(ls.take(m as int)[i] == ls[i]);
        }
    }
}

/// A quantised model takes less room than a plain one, where all its layers have four inputs and
/// four outputs or more.
pub proof fn quantised_models_take_less_room(m: ModelView)
    requires
        m.has_quant(),
        forall|i: int|
            0 <= i < m.linears().len() ==> {
                &&& (#[trigger] m.linears()[i]).1.wf()
                &&& m.linears()[i].1.inputs() >= 4
                &&& m.linears()[i].1.outputs() >= 4
            },
    ensures
        m.present_size() < m.plain_size(),
{
    let ls = m.linears();
    models_hold_codes(m);
    assert(ls.take(ls.len() as int) =~= ls);
    lemma_lists_take_less_room(ls, ls.len());
}

/// A model is quantised where one of its layers holds codes.
pub proof fn models_hold_codes(m: ModelView)
    ensures
        m.has_quant() == holds_codes(m.linears()),
{
    lemma_stack_codes(m.blocks, m.blocks.len());
}

proof fn lemma_runs_leave_codes<L: Fn(u32) -> u32, E: Fn(u32) -> u32>(
    p: QuantPlan<L, E>,
    before: Seq<(Seq<char>, LinearView)>,
    after: Seq<(Seq<char>, LinearView)>,
    reports: Seq<QuantReport>,
)
    requires
        p.run(before, after, reports),
        !holds_codes(before),
    ensures
        holds_codes(after) == (reports.len() > 0),
    decreases before.len(),
{
    reveal(QuantPlan::run);
    if before.len() > 0 {
        let b = before.drop_last();
        let a = after.drop_last();
        assert(!holds_codes(b)) by {
            if holds_codes(b) {
                let i = choose|i: int| 0 <= i < b.len() && (#[trigger] b[i]).1.quant is Some;
                assert(before[i].1.quant is Some);
            }
        }
        assert(before.last().1.quant is None) by {
            assert(before[before.len() - 1].1.quant is None);
        }
        assert(after =~= a.push(after.last()));
        lemma_codes_of_concat(a, seq![after.last()]);
        assert(a + seq![after.last()] =~= after);
        assert(holds_codes(seq![after.last()]) == (after.last().1.quant is Some)) by {
            assert(seq![after.last()][0] == after.last());
        }
        if crate::layer_quant::quantisable(before.last().1) {
            lemma_runs_leave_codes(p, b, a, reports.drop_last());
        } else {
            lemma_runs_leave_codes(p, b, a, reports);
        }
    }
}

/// Quantising a plain model leaves codes in it if and only if it reports a layer: no layer is
/// reported without being quantised, and none is quantised in silence.
pub proof fn reports_mean_codes<L: Fn(u32) -> u32, E: Fn(u32) -> u32>(
    p: QuantPlan<L, E>,
    before: ModelView,
    after: ModelView,
    reports: Seq<QuantReport>,
)
    requires
        p.run(before.linears(), after.linears(), reports),
        !before.has_quant(),
    ensures
        after.has_quant() == (reports.len() > 0),
{
    models_hold_codes(before);
    models_hold_codes(after);
    lemma_runs_leave_codes(p, before.linears(), after.linears(), reports);
}

/// A second run finds nothing to do: layers that hold codes, and layers that could not be
/// quantised before, are left alone and not reported.
pub proof fn quantising_twice_changes_nothing<
    L: Fn(u32) -> u32,
    E: Fn(u32) -> u32,
    M: Fn(u32) -> u32,
    F: Fn(u32) -> u32,
>(
    p: QuantPlan<L, E>,
    q: QuantPlan<M, F>,
    before: Seq<(Seq<char>, LinearView)>,
    once: Seq<(Seq<char>, LinearView)>,
    reports: Seq<QuantReport>,
    twice: Seq<(Seq<char>, LinearView)>,
    more: Seq<QuantReport>,
)
    requires
        p.run(before, once, reports),
        q.run(once, twice, more),
    ensures
        twice == once,
        more.len() == 0,
    decreases before.len(),
{
    reveal(QuantPlan::run);
    if before.len() > 0 {
        let rest = if crate::layer_quant::quantisable(before.last().1) {
            reports.drop_last()
        } else {
            reports
        };
        quantising_twice_changes_nothing(
            p,
            q,
            before.drop_last(),
            once.drop_last(),
            rest,
            twice.drop_last(),
            more,
        );
        assert(twice =~= twice.drop_last().push(twice.last()));
        assert(once =~= once.drop_last().push(once.last()));
    } else {
        assert(twice =~= once);
    }
}

/// Dequantising leaves no codes in a model, and keeps the record of how it was quantised.
pub proof fn dequantising_leaves_no_codes(m: ModelView)
    ensures
        !m.dequantized().has_quant(),
        m.dequantized().quant == m.quant,
        m.dequantized().lora == m.lora,
        m.dequantized().cfg == m.cfg,
{
    assert forall|i: int| 0 <= i < m.blocks.len() implies !(
    #[trigger] m.dequantized().blocks[i]).has_quant() by {
        let b = m.blocks[i];
        assert(m.dequantized().blocks[i] == b.dequantized());
        assert(!b.attn.dequantized().has_quant());
        match b.ffn {
            FfnView::Dense(x) => {
                assert(!x.dequantized().has_quant());
            },
            FfnView::Moe(_) => {},
        }
    }
}

/// Whether a layer's codes, if it has any, stand for its weight without input scales.
pub open spec fn unscaled(l: LinearView) -> bool {
    l.quant matches Some(q) ==> q.wf() && q.scales() is None
}

/// Whether no layer of a feed-forward block has input scales.
pub open spec fn unscaled_block(m: MlpView) -> bool {
    match m {
        MlpView::Plain { first, second } => unscaled(first) && unscaled(second),
        MlpView::Gated { gate, up, down } => unscaled(gate) && unscaled(up) && unscaled(down),
    }
}

proof fn lemma_answers_stay<G: Fn(u32) -> u32, S: Fn(u32, u32) -> u32>(
    m: MlpView,
    gelu: &G,
    swiglu: &S,
    x: Seq<u32>,
    n: int,
    y: Seq<u32>,
)
    requires
        unscaled_block(m),
        mlp::produces(m, gelu, swiglu, x, n, y),
    ensures
        mlp::produces(m.dequantized(), gelu, swiglu, x, n, y),
{
    match m {
        MlpView::Plain { first, second } => {
            let hidden = choose|hidden: Seq<u32>|
                #![trigger second.output(hidden, n)]
                mlp::activated(gelu, first.output(x, n), hidden) && y == second.output(hidden, n);
            layer_laws::dequantising_keeps_the_output(first, x, n);
            layer_laws::dequantising_keeps_the_output(second, hidden, n);
            assert(y == second.dequantized().output(hidden, n));
        },
        MlpView::Gated { gate, up, down } => {
            let hidden = choose|hidden: Seq<u32>|
                #![trigger down.output(hidden, n)]
                mlp::gated(swiglu, gate.output(x, n), up.output(x, n), hidden) && y == down.output(
                    hidden,
                    n,
                );
            layer_laws::dequantising_keeps_the_output(gate, x, n);
            layer_laws::dequantising_keeps_the_output(up, x, n);
            layer_laws::dequantising_keeps_the_output(down, hidden, n);
            assert(y == down.dequantized().output(hidden, n));
        },
    }
}

/// A block whose codes have no input scales computes the same after its weights were written out
/// as plain numbers, bit for bit.
pub proof fn dequantised_blocks_compute_alike<
    A: Fn(usize, Vec<u32>, &Sight) -> Vec<u32>,
    D: Fn(Vec<u32>, u32, bool) -> Vec<u32>,
    E: Fn(u32) -> u32,
    L: Fn(u32) -> u32,
    G: Fn(u32) -> u32,
    S: Fn(u32, u32) -> u32,
>(
    b: BlockView,
    attn: &A,
    sight: Sight,
    drop: &D,
    training: bool,
    exp: &E,
    ln: &L,
    gelu: &G,
    swiglu: &S,
    layer: usize,
    x: Seq<u32>,
    n: int,
    d: int,
    y: Seq<u32>,
    kept: PassRecord,
)
    requires
        b.ffn matches FfnView::Dense(m) ==> unscaled_block(m),
        forward::passes(b, attn, sight, drop, training, exp, ln, gelu, swiglu, layer, x, n, d, y, kept),
    ensures
        forward::passes(
            b.dequantized(),
            attn,
            sight,
            drop,
            training,
            exp,
            ln,
            gelu,
            swiglu,
            layer,
            x,
            n,
            d,
            y,
            kept,
        ),
{
    let baked = b.dequantized();
    assert(baked.dropout == b.dropout && baked.ln1 == b.ln1);
    let mid = choose|mid: Seq<u32>| #[trigger]
        forward::attended(b, attn, sight, drop, training, layer, x, d, mid) && #[trigger] forward::fed(
            b,
            drop,
            training,
            exp,
            ln,
            gelu,
            swiglu,
            mid,
            n,
            d,
            y,
            kept,
        );
    assert(forward::attended(baked, attn, sight, drop, training, layer, x, d, mid));
    let (f, r) = choose|f: Seq<u32>, r: Seq<u32>| #[trigger]
        forward::feeds(b.ffn, exp, ln, gelu, swiglu, b.ln2.output(mid, d), n, d, f, kept)
            && #[trigger] forward::drops(drop, training, b.dropout, f, r) && y == matrix::total(mid, r);
    match b.ffn {
        FfnView::Dense(m) => {
            lemma_answers_stay(m, gelu, swiglu, b.ln2.output(mid, d), n, f);
        },
        FfnView::Moe(_) => {},
    }
    assert(forward::feeds(
        baked.ffn,
        exp,
        ln,
        gelu,
        swiglu,
        baked.ln2.output(mid, d),
        n,
        d,
        f,
        kept,
    ));
    assert(forward::fed(
        baked,
        drop,
        training,
        exp,
        ln,
        gelu,
        swiglu,
        mid,
        n,
        d,
        y,
        kept,
    ));
}

} // verus!
