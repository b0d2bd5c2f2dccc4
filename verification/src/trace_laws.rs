//! Recorded passes under functions with one value: the same tokens give the same record.

use crate::block::{BlockView, FfnView};
use crate::calib::CalibOpts;
use crate::calibrate;
use crate::calibrate::Captured;
use crate::calibrate_laws;
use crate::forward;
use crate::loss_laws;
use crate::matrix;
use crate::mlp;
use crate::mlp::MlpView;
use crate::model::ModelView;
use crate::model_run::Sight;
use crate::moe;
use crate::moe::RoutePlan;
use crate::moe_forward;
use crate::moe_layer;
use crate::moe_layer::MoeView;
use crate::quant;
use crate::report::CalibStats;
use crate::softmax;
use crate::tracing;
use vstd::prelude::*;

verus! {

/// Whether a curve of two numbers has one value for every pair.
pub open spec fn single_valued_pairs<S: Fn(u32, u32) -> u32>(f: &S) -> bool {
    forall|v: u32, w: u32, a: u32, b: u32| #[trigger]
        call_ensures(f, (v, w), a) && #[trigger] call_ensures(f, (v, w), b) ==> a == b
}

/// Whether two passes see the same.
pub open spec fn same_sight(a: Sight, b: Sight) -> bool {
    a.mask@ == b.mask@ && a.t_total == b.t_total && a.base == b.base
}

/// Whether mixing makes one thing of the same rows.
pub open spec fn steady<M: Fn(usize, Vec<u32>, &Sight) -> Vec<u32>>(mix: &M) -> bool {
    forall|s: Sight, t: Sight, layer: usize, h: Seq<u32>, a: Seq<u32>, b: Seq<u32>|
        same_sight(s, t) && #[trigger] forward::attends(mix, s, layer, h, a)
            && #[trigger] forward::attends(mix, t, layer, h, b) ==> a == b
}

proof fn lemma_activated<G: Fn(u32) -> u32>(gelu: &G, pre: Seq<u32>, a: Seq<u32>, b: Seq<u32>)
    requires
        loss_laws::single_valued(gelu),
        mlp::activated(gelu, pre, a),
        mlp::activated(gelu, pre, b),
    ensures
        a == b,
{
    assert forall|p: int| 0 <= p < a.len() implies a[p] == b[p] by {
        assert(call_ensures(gelu, (pre[p],), a[p]));
        assert(call_ensures(gelu, (pre[p],), b[p]));
    }
    assert(a =~= b);
}

proof fn lemma_gated<S: Fn(u32, u32) -> u32>(
    swiglu: &S,
    gate: Seq<u32>,
    up: Seq<u32>,
    a: Seq<u32>,
    b: Seq<u32>,
)
    requires
        single_valued_pairs(swiglu),
        mlp::gated(swiglu, gate, up, a),
        mlp::gated(swiglu, gate, up, b),
    ensures
        a == b,
{
    assert forall|p: int| 0 <= p < a.len() implies a[p] == b[p] by {
        assert(call_ensures(swiglu, (gate[p], up[p]), a[p]));
        assert(call_ensures(swiglu, (gate[p], up[p]), b[p]));
    }
    assert(a =~= b);
}

proof fn lemma_produces<G: Fn(u32) -> u32, S: Fn(u32, u32) -> u32>(
    m: MlpView,
    gelu: &G,
    swiglu: &S,
    x: Seq<u32>,
    n: int,
    a: Seq<u32>,
    b: Seq<u32>,
)
    requires
        loss_laws::single_valued(gelu),
        single_valued_pairs(swiglu),
        mlp::produces(m, gelu, swiglu, x, n, a),
        mlp::produces(m, gelu, swiglu, x, n, b),
    ensures
        a == b,
{
    match m {
        MlpView::Plain { first, second } => {
            let h = choose|hidden: Seq<u32>|
                #![trigger second.output(hidden, n)]
                mlp::activated(gelu, first.output(x, n), hidden) && a == second.output(hidden, n);
            let k = choose|hidden: Seq<u32>|
                #![trigger second.output(hidden, n)]
                mlp::activated(gelu, first.output(x, n), hidden) && b == second.output(hidden, n);
            lemma_activated(gelu, first.output(x, n), h, k);
        },
        MlpView::Gated { gate, up, down } => {
            let h = choose|hidden: Seq<u32>|
                #![trigger down.output(hidden, n)]
                mlp::gated(swiglu, gate.output(x, n), up.output(x, n), hidden) && a == down.output(
                    hidden,
                    n,
                );
            let k = choose|hidden: Seq<u32>|
                #![trigger down.output(hidden, n)]
                mlp::gated(swiglu, gate.output(x, n), up.output(x, n), hidden) && b == down.output(
                    hidden,
                    n,
                );
            lemma_gated(swiglu, gate.output(x, n), up.output(x, n), h, k);
        },
    }
}

proof fn lemma_softmax<E: Fn(u32) -> u32>(
    exp: &E,
    x: Seq<u32>,
    rows: int,
    d: int,
    p: Seq<u32>,
    q: Seq<u32>,
)
    requires
        rows >= 0,
        d > 0,
        loss_laws::single_valued(exp),
        softmax::is_softmax(exp, x, rows, d, p),
        softmax::is_softmax(exp, x, rows, d, q),
    ensures
        p == q,
{
    let a = choose|e: Seq<u32>| #[trigger]
        softmax::all_exps(exp, x, rows, d, e) && p == softmax::normalised(e, rows, d);
    let b = choose|e: Seq<u32>| #[trigger]
        softmax::all_exps(exp, x, rows, d, e) && q == softmax::normalised(e, rows, d);
    assert forall|i: int| 0 <= i < a.len() implies a[i] == b[i] by {
        quant::flat_position(i, rows, d);
        let t = i / d;
        assert(softmax::row_exps(exp, x, d, t, a));
        assert(softmax::row_exps(exp, x, d, t, b));
        assert(i == t * d + i % d);
        assert(a[t * d + i % d] == b[t * d + i % d]);
    }
    assert(a =~= b);
}

proof fn lemma_same_cell(
    s: Seq<Vec<usize>>,
    t: Seq<Vec<usize>>,
    a: Seq<Seq<u32>>,
    b: Seq<Seq<u32>>,
    w: Seq<u32>,
    n_expert: int,
    d: int,
    i: int,
    c: int,
    upto: nat,
)
    requires
        forall|e: int|
            0 <= e < upto ==> (#[trigger] s[e])@ == t[e]@ && (s[e]@.len() > 0 ==> a[e] == b[e]),
    ensures
        moe_layer::combined_cell(s, a, w, n_expert, d, i, c, upto) == moe_layer::combined_cell(
            t,
            b,
            w,
            n_expert,
            d,
            i,
            c,
            upto,
        ),
    decreases upto,
{
    if upto > 0 {
        let e = upto - 1;
        lemma_same_cell(s, t, a, b, w, n_expert, d, i, c, e as nat);
        assert(s[e]@ == t[e]@);
        assert(moe_layer::processes(s, e, i) == moe_layer::processes(t, e, i));
    }
}

proof fn lemma_answers<E: Fn(u32) -> u32, G: Fn(u32) -> u32, S: Fn(u32, u32) -> u32>(
    m: MoeView,
    exp: &E,
    gelu: &G,
    swiglu: &S,
    x: Seq<u32>,
    n: int,
    d: int,
    y: Seq<u32>,
    z: Seq<u32>,
)
    requires
        n >= 0,
        m.experts.len() > 0,
        loss_laws::single_valued(exp),
        loss_laws::single_valued(gelu),
        single_valued_pairs(swiglu),
        tracing::answers(m, exp, gelu, swiglu, x, n, d, y),
        tracing::answers(m, exp, gelu, swiglu, x, n, d, z),
    ensures
        y == z,
{
    let e = m.experts.len() as int;
    let logits = m.router.output(x, n);
    let capacity = moe::capacity_of(n, e, m.top_k as int, m.capacity_factor) as usize;
    let (p1, q1, w1) = choose|plan: RoutePlan, probs: Seq<u32>, w: Seq<u32>|
        #![trigger moe_forward::are_gates(exp, m.switch_gate, logits, probs, plan, n, e, w)]
        moe::is_routing(plan, logits, n, e, m.top_k as int, capacity) && softmax::is_softmax(
            exp,
            logits,
            n,
            e,
            probs,
        ) && moe_forward::are_gates(exp, m.switch_gate, logits, probs, plan, n, e, w)
            && moe_layer::mixes(m, gelu, swiglu, x, n, d, plan.sel@, w, y);
    let (p2, q2, w2) = choose|plan: RoutePlan, probs: Seq<u32>, w: Seq<u32>|
        #![trigger moe_forward::are_gates(exp, m.switch_gate, logits, probs, plan, n, e, w)]
        moe::is_routing(plan, logits, n, e, m.top_k as int, capacity) && softmax::is_softmax(
            exp,
            logits,
            n,
            e,
            probs,
        ) && moe_forward::are_gates(exp, m.switch_gate, logits, probs, plan, n, e, w)
            && moe_layer::mixes(m, gelu, swiglu, x, n, d, plan.sel@, w, z);
    lemma_softmax(exp, logits, n, e, q1, q2);
    assert(p1.mask@ == p2.mask@ && p1.penalty@ == p2.penalty@);
    if !m.switch_gate {
        lemma_softmax(exp, matrix::total(logits, p1.penalty@), n, e, w1, w2);
    }
    assert(w1 == w2);
    let a = choose|outs: Seq<Seq<u32>>|
        #![trigger moe_layer::are_answers(m, gelu, swiglu, x, d, p1.sel@, outs)]
        moe_layer::are_answers(m, gelu, swiglu, x, d, p1.sel@, outs) && y == moe_layer::combined(
            p1.sel@,
            outs,
            w1,
            e,
            n,
            d,
        );
    let b = choose|outs: Seq<Seq<u32>>|
        #![trigger moe_layer::are_answers(m, gelu, swiglu, x, d, p2.sel@, outs)]
        moe_layer::are_answers(m, gelu, swiglu, x, d, p2.sel@, outs) && z == moe_layer::combined(
            p2.sel@,
            outs,
            w2,
            e,
            n,
            d,
        );
    assert forall|k: int| 0 <= k < e implies (#[trigger] p1.sel@[k])@ == p2.sel@[k]@ && (
    p1.sel@[k]@.len() > 0 ==> a[k] == b[k]) by {
        assert(p2.sel@[k]@ == p1.sel@[k]@);
        if p1.sel@[k]@.len() > 0 {
            lemma_produces(
                m.experts[k],
                gelu,
                swiglu,
                matrix::picked(x, d, p1.sel@[k]@),
                p1.sel@[k]@.len() as int,
                a[k],
                b[k],
            );
        }
    }
    assert forall|p: int| 0 <= p < y.len() implies y[p] == z[p] by {
        lemma_same_cell(p1.sel@, p2.sel@, a, b, w1, e, d, p / d, p % d, e as nat);
    }
    assert(y =~= z);
}

proof fn lemma_ffn<E: Fn(u32) -> u32, G: Fn(u32) -> u32, S: Fn(u32, u32) -> u32>(
    m: FfnView,
    exp: &E,
    gelu: &G,
    swiglu: &S,
    x: Seq<u32>,
    n: int,
    d: int,
    f: Seq<u32>,
    seen: Seq<Seq<u32>>,
    g: Seq<u32>,
    other: Seq<Seq<u32>>,
)
    requires
        n >= 0,
        m matches FfnView::Moe(l) ==> l.experts.len() > 0,
        loss_laws::single_valued(exp),
        loss_laws::single_valued(gelu),
        single_valued_pairs(swiglu),
        tracing::ffn_traced(m, exp, gelu, swiglu, x, n, d, f, seen),
        tracing::ffn_traced(m, exp, gelu, swiglu, x, n, d, g, other),
    ensures
        f == g,
        seen == other,
{
    match m {
        FfnView::Dense(MlpView::Plain { first, second }) => {
            lemma_activated(gelu, first.output(x, n), seen[1], other[1]);
            assert(seen =~= other);
        },
        FfnView::Dense(MlpView::Gated { gate, up, down }) => {
            lemma_gated(swiglu, gate.output(x, n), up.output(x, n), seen[2], other[2]);
            assert(seen =~= other);
        },
        FfnView::Moe(l) => {
            lemma_answers(l, exp, gelu, swiglu, x, n, d, f, g);
            assert(seen =~= other);
        },
    }
}

proof fn lemma_block<
    M: Fn(usize, Vec<u32>, &Sight) -> Vec<u32>,
    E: Fn(u32) -> u32,
    G: Fn(u32) -> u32,
    S: Fn(u32, u32) -> u32,
>(
    b: BlockView,
    mix: &M,
    s: Sight,
    t: Sight,
    exp: &E,
    gelu: &G,
    swiglu: &S,
    layer: usize,
    x: Seq<u32>,
    n: int,
    d: int,
    y: Seq<u32>,
    seen: Seq<Seq<u32>>,
    z: Seq<u32>,
    other: Seq<Seq<u32>>,
)
    requires
        n >= 0,
        b.ffn matches FfnView::Moe(l) ==> l.experts.len() > 0,
        steady(mix),
        same_sight(s, t),
        loss_laws::single_valued(exp),
        loss_laws::single_valued(gelu),
        single_valued_pairs(swiglu),
        tracing::block_traced(b, mix, s, exp, gelu, swiglu, layer, x, n, d, y, seen),
        tracing::block_traced(b, mix, t, exp, gelu, swiglu, layer, x, n, d, z, other),
    ensures
        y == z,
        seen == other,
{
    let (r1, f1, p1) = choose|rows: Seq<u32>, f: Seq<u32>, rest: Seq<Seq<u32>>| #[trigger]
        tracing::halves_traced(
            b,
            mix,
            s,
            exp,
            gelu,
            swiglu,
            layer,
            x,
            n,
            d,
            y,
            seen,
            rows,
            f,
            rest,
        );
    let (r2, f2, p2) = choose|rows: Seq<u32>, f: Seq<u32>, rest: Seq<Seq<u32>>| #[trigger]
        tracing::halves_traced(
            b,
            mix,
            t,
            exp,
            gelu,
            swiglu,
            layer,
            x,
            n,
            d,
            z,
            other,
            rows,
            f,
            rest,
        );
    assert(r1 == r2);
    lemma_ffn(
        b.ffn,
        exp,
        gelu,
        swiglu,
        b.ln2.output(tracing::middle(b, x, r1, n), d),
        n,
        d,
        f1,
        p1,
        f2,
        p2,
    );
}

proof fn lemma_stack<
    M: Fn(usize, Vec<u32>, &Sight) -> Vec<u32>,
    E: Fn(u32) -> u32,
    G: Fn(u32) -> u32,
    S: Fn(u32, u32) -> u32,
>(
    blocks: Seq<BlockView>,
    mix: &M,
    s: Sight,
    t: Sight,
    exp: &E,
    gelu: &G,
    swiglu: &S,
    n: int,
    d: usize,
    states: Seq<Seq<u32>>,
    parts: Seq<Seq<Seq<u32>>>,
    others: Seq<Seq<u32>>,
    pieces: Seq<Seq<Seq<u32>>>,
    k: nat,
)
    requires
        n >= 0,
        k <= blocks.len(),
        forall|i: int| 0 <= i < blocks.len() ==> (#[trigger] blocks[i]).wf(d),
        steady(mix),
        same_sight(s, t),
        loss_laws::single_valued(exp),
        loss_laws::single_valued(gelu),
        single_valued_pairs(swiglu),
        states[0] == others[0],
        tracing::are_traced(
            blocks,
            mix,
            s,
            exp,
            gelu,
            swiglu,
            n,
            d as int,
            states,
            parts,
            blocks.len() as int,
        ),
        tracing::are_traced(
            blocks,
            mix,
            t,
            exp,
            gelu,
            swiglu,
            n,
            d as int,
            others,
            pieces,
            blocks.len() as int,
        ),
    ensures
        states[k as int] == others[k as int],
        tracing::joined(parts, k) == tracing::joined(pieces, k),
    decreases k,
{
    if k > 0 {
        let i = k - 1;
        lemma_stack(
            blocks,
            mix,
            s,
            t,
            exp,
            gelu,
            swiglu,
            n,
            d,
            states,
            parts,
            others,
            pieces,
            i as nat,
        );
        assert(blocks[i].wf(d));
        let part = parts[i];
        let piece = pieces[i];
        lemma_block(
            blocks[i],
            mix,
            s,
            t,
            exp,
            gelu,
            swiglu,
            i as usize,
            states[i],
            n,
            d as int,
            states[i + 1],
            part,
            others[i + 1],
            piece,
        );
    }
}

/// The same tokens give the same record, where every function that is handed in makes one thing of
/// what it is given.
pub proof fn records_are_unique<
    M: Fn(usize, Vec<u32>, &Sight) -> Vec<u32>,
    E: Fn(u32) -> u32,
    G: Fn(u32) -> u32,
    S: Fn(u32, u32) -> u32,
>(
    m: ModelView,
    mix: &M,
    exp: &E,
    gelu: &G,
    swiglu: &S,
    idx: Seq<usize>,
    a: Seq<Captured>,
    b: Seq<Captured>,
)
    requires
        m.wf(),
        steady(mix),
        loss_laws::single_valued(exp),
        loss_laws::single_valued(gelu),
        single_valued_pairs(swiglu),
        tracing::is_trace(m, mix, exp, gelu, swiglu, idx, a),
        tracing::is_trace(m, mix, exp, gelu, swiglu, idx, b),
    ensures
        a.len() == m.linears().len(),
        b.len() == a.len(),
        forall|i: int|
            #![trigger a[i]]
            #![trigger b[i]]
            0 <= i < a.len() ==> a[i].data@ == b[i].data@ && a[i].shape@ == b[i].shape@,
{
    let (s, states, parts) = choose|sight: Sight, states: Seq<Seq<u32>>, parts: Seq<Seq<Seq<u32>>>|
     #[trigger]
        tracing::explains(m, mix, sight, exp, gelu, swiglu, idx, states, parts, a);
    let (t, others, pieces) = choose|
        sight: Sight,
        states: Seq<Seq<u32>>,
        parts: Seq<Seq<Seq<u32>>>,
    | #[trigger]
        tracing::explains(m, mix, sight, exp, gelu, swiglu, idx, states, parts, b);
    lemma_stack(
        m.blocks,
        mix,
        s,
        t,
        exp,
        gelu,
        swiglu,
        idx.len() as int,
        m.cfg.n_embd,
        states,
        parts,
        others,
        pieces,
        m.blocks.len(),
    );
}

/// Two calibrations of a model over the same tokens hand the layers the same inputs, whatever is
/// kept of them.
pub proof fn calibrations_see_the_same<
    M: Fn(usize, Vec<u32>, &Sight) -> Vec<u32>,
    E: Fn(u32) -> u32,
    G: Fn(u32) -> u32,
    S: Fn(u32, u32) -> u32,
>(
    m: ModelView,
    ids: Seq<usize>,
    o1: CalibOpts,
    o2: CalibOpts,
    mix: &M,
    exp: &E,
    gelu: &G,
    swiglu: &S,
    a: Seq<Vec<Captured>>,
    b: Seq<Vec<Captured>>,
    s1: CalibStats,
    s2: CalibStats,
)
    requires
        m.wf(),
        steady(mix),
        loss_laws::single_valued(exp),
        loss_laws::single_valued(gelu),
        single_valued_pairs(swiglu),
        o1.max_seq == o2.max_seq,
        calibrate::is_calibration(m, ids, o1, mix, exp, gelu, swiglu, a, s1),
        calibrate::is_calibration(m, ids, o2, mix, exp, gelu, swiglu, b, s2),
    ensures
        calibrate_laws::same_inputs(a, b),
{
    let len = calibrate::pass_length(o1.max_seq as int, m.cfg.block_size as int);
    assert forall|p: int| 0 <= p < a.len() implies (#[trigger] a[p])@.len() == b[p]@.len() by {
        records_are_unique(
            m,
            mix,
            exp,
            gelu,
            swiglu,
            calibrate::pass_tokens(ids, len, p),
            a[p]@,
            b[p]@,
        );
    }
    assert forall|p: int, layer: int|
        #![trigger a[p]@[layer]]
        #![trigger b[p]@[layer]]
        0 <= p < a.len() && 0 <= layer < a[p]@.len() implies a[p]@[layer].data@
        == b[p]@[layer].data@ && a[p]@[layer].shape@ == b[p]@[layer].shape@ by {
        records_are_unique(
            m,
            mix,
            exp,
            gelu,
            swiglu,
            calibrate::pass_tokens(ids, len, p),
            a[p]@,
            b[p]@,
        );
    }
}

proof fn lemma_layers_in_order(
    m: ModelView,
    opts: CalibOpts,
    passes: Seq<Vec<Captured>>,
    n: nat,
)
    requires
        forall|l: int|
            0 <= l < n ==> (#[trigger] calibrate::layer_sums(m, opts, passes, l)).seen > 0,
    ensures
        calibrate::seen_layers(m, opts, passes, n) == Seq::new(n, |i: int| i),
    decreases n,
{
    if n > 0 {
        lemma_layers_in_order(m, opts, passes, (n - 1) as nat);
        assert(calibrate::layer_sums(m, opts, passes, n - 1).seen > 0);
    }
    assert(calibrate::seen_layers(m, opts, passes, n) =~= Seq::new(n, |i: int| i));
}

/// A calibration that is fed a token reports on every layer of the model, in the order of their
/// names, and every layer has seen every token once.
pub proof fn calibrations_cover_every_layer<
    M: Fn(usize, Vec<u32>, &Sight) -> Vec<u32>,
    E: Fn(u32) -> u32,
    G: Fn(u32) -> u32,
    S: Fn(u32, u32) -> u32,
>(
    m: ModelView,
    ids: Seq<usize>,
    opts: CalibOpts,
    mix: &M,
    exp: &E,
    gelu: &G,
    swiglu: &S,
    passes: Seq<Vec<Captured>>,
    stats: CalibStats,
)
    requires
        ids.len() > 0,
        calibrate::is_calibration(m, ids, opts, mix, exp, gelu, swiglu, passes, stats),
    ensures
        calibrate::seen_layers(m, opts, passes, m.linears().len()) == Seq::new(
            m.linears().len(),
            |i: int| i,
        ),
        stats.per_layer@.len() == m.linears().len(),
        forall|i: int|
            0 <= i < stats.per_layer@.len() ==> (#[trigger] stats.per_layer@[i]).0@
                == m.linears()[i].0 && stats.per_layer@[i].1.n_tokens == ids.len(),
{
    let len = calibrate::pass_length(opts.max_seq as int, m.cfg.block_size as int);
    let n = m.linears().len();
    assert forall|l: int| 0 <= l < n implies (#[trigger] calibrate::layer_sums(
        m,
        opts,
        passes,
        l,
    )).seen == ids.len() by {
        let width = m.linears()[l].1.inputs() as int;
        assert forall|p: int| 0 <= p < passes.len() implies (#[trigger] passes[p])@[l].fits(width)
            && passes[p]@[l].shape@[0] == calibrate::pass_tokens(ids, len, p).len() by {
            let tokens = calibrate::pass_tokens(ids, len, p);
            calibrate_laws::passes_are_short(ids, len, p);
            assert(tracing::is_trace(m, mix, exp, gelu, swiglu, tokens, passes[p]@));
            let (s, states, parts) = choose|
                sight: Sight,
                states: Seq<Seq<u32>>,
                parts: Seq<Seq<Seq<u32>>>,
            | #[trigger]
                tracing::explains(
                    m,
                    mix,
                    sight,
                    exp,
                    gelu,
                    swiglu,
                    tokens,
                    states,
                    parts,
                    passes[p]@,
                );
            assert(passes[p]@[l].shape@ == seq![
                tokens.len() as usize,
                m.linears()[l].1.inputs(),
            ]);
        }
        calibrate_laws::every_token_is_counted(
            width,
            calibrate::keeps_matrix(m, opts, l),
            ids,
            len,
            passes,
            l,
        );
    }
    lemma_layers_in_order(m, opts, passes, n);
}

/// Two calibrations of a model over the same tokens whose options differ in nothing but the largest
/// order of a whole matrix agree, layer by layer, on names, order, diagonals, means and counts of
/// tokens; each keeps the whole matrix of a layer exactly when its input width is within its limit.
/// Every function that is handed in makes one thing of what it is given.
pub proof fn calibrations_differ_in_the_moments_only<
    M: Fn(usize, Vec<u32>, &Sight) -> Vec<u32>,
    E: Fn(u32) -> u32,
    G: Fn(u32) -> u32,
    S: Fn(u32, u32) -> u32,
>(
    m: ModelView,
    ids: Seq<usize>,
    o1: CalibOpts,
    o2: CalibOpts,
    mix: &M,
    exp: &E,
    gelu: &G,
    swiglu: &S,
    a: Seq<Vec<Captured>>,
    b: Seq<Vec<Captured>>,
    s1: CalibStats,
    s2: CalibStats,
)
    requires
        m.wf(),
        ids.len() > 0,
        steady(mix),
        loss_laws::single_valued(exp),
        loss_laws::single_valued(gelu),
        single_valued_pairs(swiglu),
        o1.max_seq == o2.max_seq,
        calibrate::is_calibration(m, ids, o1, mix, exp, gelu, swiglu, a, s1),
        calibrate::is_calibration(m, ids, o2, mix, exp, gelu, swiglu, b, s2),
    ensures
        s1.per_layer@.len() == m.linears().len(),
        s2.per_layer@.len() == m.linears().len(),
        forall|i: int|
            0 <= i < m.linears().len() ==> #[trigger] calibrate_laws::same_entry(
                m,
                o1,
                o2,
                s1,
                s2,
                i,
                i,
            ),
{
    calibrations_see_the_same(m, ids, o1, o2, mix, exp, gelu, swiglu, a, b, s1, s2);
    calibrate_laws::only_the_moments_depend_on_the_limit(
        m,
        ids,
        o1,
        o2,
        mix,
        exp,
        gelu,
        swiglu,
        a,
        b,
        s1,
        s2,
    );
    calibrations_cover_every_layer(m, ids, o1, mix, exp, gelu, swiglu, a, s1);
    let layers = calibrate::seen_layers(m, o1, a, m.linears().len());
    assert forall|i: int| 0 <= i < m.linears().len() implies #[trigger] calibrate_laws::same_entry(
        m,
        o1,
        o2,
        s1,
        s2,
        i,
        i,
    ) by {
        assert(layers[i] == i);
        assert(calibrate_laws::same_entry(m, o1, o2, s1, s2, layers[i], i));
    }
}

} // verus!
