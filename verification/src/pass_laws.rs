//! What the records of a forward pass tell of it.

use crate::block::{BlockView, FfnView, PassRecord};
use crate::forward;
use crate::model::GPT;
use crate::model_run::Sight;
use crate::moe;
use crate::moe::RoutePlan;
use crate::moe_forward;
use crate::moe_laws;
use crate::moe_layer;
use crate::sparse;
use crate::sparse::RouteStats;
use vstd::prelude::*;

verus! {

/// Whether statistics account for all choices of `n` tokens: every one of the `n * k` assignments
/// was processed by one of the `n_expert` experts, or dropped.
pub open spec fn accounts_for(s: RouteStats, n: int, n_expert: int, k: int) -> bool {
    &&& s.n_tokens == n
    &&& s.counts@.len() == n_expert
    &&& sparse::total_of(s.counts@, s.counts@.len()) + s.dropped == n * k
}

proof fn lemma_counts_are_processed(
    s: RouteStats,
    plan: RoutePlan,
    logits: Seq<u32>,
    n: int,
    n_expert: int,
    k: int,
    capacity: usize,
    upto: nat,
)
    requires
        moe::is_routing(plan, logits, n, n_expert, k, capacity),
        moe_layer::is_record(s, plan, n),
        0 <= n <= usize::MAX,
        upto <= n_expert,
    ensures
        sparse::total_of(s.counts@, upto) == moe_laws::processed(
            logits,
            n_expert,
            k,
            n as nat,
            capacity,
            upto,
        ),
    decreases upto,
{
    if upto > 0 {
        lemma_counts_are_processed(
            s,
            plan,
            logits,
            n,
            n_expert,
            k,
            capacity,
            (upto - 1) as nat,
        );
        moe_laws::experts_process_their_takers(logits, n_expert, k, upto - 1, n as nat, capacity);
        assert(plan.sel@[upto - 1]@ == moe::kept(
            moe::takers(logits, n_expert, k, upto - 1, n as nat),
            capacity,
        ));
    }
}

/// The statistics of a routing account for all choices of its tokens.
pub proof fn records_of_routings_are_complete(
    s: RouteStats,
    plan: RoutePlan,
    logits: Seq<u32>,
    n: int,
    n_expert: int,
    k: int,
    capacity: usize,
)
    requires
        moe::is_routing(plan, logits, n, n_expert, k, capacity),
        moe_layer::is_record(s, plan, n),
        0 <= n <= usize::MAX,
        0 <= k <= n_expert <= usize::MAX,
    ensures
        accounts_for(s, n, n_expert, k),
{
    lemma_counts_are_processed(s, plan, logits, n, n_expert, k, capacity, n_expert as nat);
    moe_laws::nothing_is_lost(logits, n_expert, k, n as nat, capacity);
}

/// The tokens that the first `upto` experts processed in the first `n` passes.
pub open spec fn all_processed(stats: Seq<RouteStats>, n: nat, upto: nat) -> int
    decreases upto,
{
    if upto == 0 {
        0
    } else {
        all_processed(stats, n, (upto - 1) as nat) + sparse::counts_sum(stats, upto - 1, n)
    }
}

proof fn lemma_one_more_pass(stats: Seq<RouteStats>, n: nat, upto: nat)
    requires
        n < stats.len(),
        upto <= stats[n as int].counts@.len(),
    ensures
        all_processed(stats, n + 1, upto) == all_processed(stats, n, upto) + sparse::total_of(
            stats[n as int].counts@,
            upto,
        ),
    decreases upto,
{
    if upto > 0 {
        lemma_one_more_pass(stats, n, (upto - 1) as nat);
    }
}

proof fn lemma_no_pass(stats: Seq<RouteStats>, upto: nat)
    ensures
        all_processed(stats, 0, upto) == 0,
    decreases upto,
{
    if upto > 0 {
        lemma_no_pass(stats, (upto - 1) as nat);
    }
}

proof fn lemma_merged_counts(stats: Seq<RouteStats>, n_expert: int, k: int, n: nat)
    requires
        n <= stats.len(),
        n_expert >= 0,
        forall|i: int|
            0 <= i < stats.len() ==> accounts_for(
                #[trigger] stats[i],
                stats[i].n_tokens as int,
                n_expert,
                k,
            ),
    ensures
        all_processed(stats, n, n_expert as nat) + sparse::dropped_sum(stats, n)
            == sparse::tokens_sum(stats, n) * k,
    decreases n,
{
    if n == 0 {
        lemma_no_pass(stats, n_expert as nat);
        assert(0 * k == 0);
    } else {
        let m = (n - 1) as nat;
        lemma_merged_counts(stats, n_expert, k, m);
        assert(accounts_for(stats[m as int], stats[m as int].n_tokens as int, n_expert, k));
        lemma_one_more_pass(stats, m, n_expert as nat);
        let (a, b) = (sparse::tokens_sum(stats, m), stats[m as int].n_tokens as int);
        assert((a + b) * k == a * k + b * k) by (nonlinear_arith);
    }
}

proof fn lemma_total_of_merged(stats: Seq<RouteStats>, counts: Seq<usize>, n: nat, upto: nat)
    requires
        upto <= counts.len(),
        forall|e: int|
            0 <= e < counts.len() ==> #[trigger] counts[e] == sparse::counts_sum(stats, e, n),
    ensures
        sparse::total_of(counts, upto) == all_processed(stats, n, upto),
    decreases upto,
{
    if upto > 0 {
        lemma_total_of_merged(stats, counts, n, (upto - 1) as nat);
    }
}

/// Statistics that were added up over passes account for all choices of all their tokens, if each
/// of them does.
pub proof fn merged_records_are_complete(
    stats: Seq<RouteStats>,
    merged: RouteStats,
    n_expert: int,
    k: int,
)
    requires
        forall|i: int|
            0 <= i < stats.len() ==> accounts_for(
                #[trigger] stats[i],
                stats[i].n_tokens as int,
                n_expert,
                k,
            ),
        merged.n_tokens == sparse::tokens_sum(stats, stats.len()),
        merged.dropped == sparse::dropped_sum(stats, stats.len()),
        merged.counts@.len() == n_expert,
        forall|e: int|
            0 <= e < merged.counts@.len() ==> #[trigger] merged.counts@[e] == sparse::counts_sum(
                stats,
                e,
                stats.len(),
            ),
    ensures
        accounts_for(merged, merged.n_tokens as int, n_expert, k),
{
    lemma_merged_counts(stats, n_expert, k, stats.len());
    lemma_total_of_merged(stats, merged.counts@, stats.len(), n_expert as nat);
}

proof fn lemma_totals_are_not_negative(counts: Seq<usize>, n: nat)
    ensures
        sparse::total_of(counts, n) >= 0,
    decreases n,
{
    if n > 0 {
        lemma_totals_are_not_negative(counts, (n - 1) as nat);
    }
}

/// No more than all assignments are dropped.
pub proof fn dropped_shares_are_at_most_one(s: RouteStats, n_expert: int, k: usize)
    requires
        accounts_for(s, s.n_tokens as int, n_expert, k as int),
    ensures
        sparse::dropped_share(s.dropped as int, s.n_tokens as int, k as int).num
            <= sparse::dropped_share(s.dropped as int, s.n_tokens as int, k as int).den,
{
    lemma_totals_are_not_negative(s.counts@, s.counts@.len());
    let n = s.n_tokens;
    assert(0 <= n * k <= 0xffff_ffff_ffff_ffff * 0xffff_ffff_ffff_ffff) by (nonlinear_arith)
        requires
            0 <= n <= 0xffff_ffff_ffff_ffff,
            0 <= k <= 0xffff_ffff_ffff_ffff,
    ;
}

/// What a block of experts keeps of a forward pass accounts for all choices of its tokens; a dense
/// block keeps nothing.
pub proof fn records_of_blocks_are_complete<
    A: Fn(usize, Vec<u32>, &Sight) -> Vec<u32>,
    D: Fn(Vec<u32>, u32, bool) -> Vec<u32>,
    E: Fn(u32) -> u32,
    L: Fn(u32) -> u32,
    G: Fn(u32) -> u32,
    S: Fn(u32, u32) -> u32,
>(
    b: BlockView,
    attn: &A,
    sight: Sight,
    drop: &D,
    training: bool,
    exp: &E,
    ln: &L,
    gelu: &G,
    swiglu: &S,
    layer: usize,
    x: Seq<u32>,
    n: int,
    d: usize,
    y: Seq<u32>,
    kept: PassRecord,
)
    requires
        b.wf(d),
        0 <= n <= usize::MAX,
        forward::passes(
            b,
            attn,
            sight,
            drop,
            training,
            exp,
            ln,
            gelu,
            swiglu,
            layer,
            x,
            n,
            d as int,
            y,
            kept,
        ),
    ensures
        match b.ffn {
            FfnView::Dense(_) => kept.aux is None && kept.used is None,
            FfnView::Moe(m) => kept.used matches Some(s) && accounts_for(
                s,
                n,
                m.experts.len() as int,
                m.top_k as int,
            ),
        },
{
    let mid = choose|mid: Seq<u32>| #[trigger]
        forward::attended(b, attn, sight, drop, training, layer, x, d as int, mid)
            && #[trigger] forward::fed(
            b,
            drop,
            training,
            exp,
            ln,
            gelu,
            swiglu,
            mid,
            n,
            d as int,
            y,
            kept,
        );
    let rows = b.ln2.output(mid, d as int);
    let (f, r) = choose|f: Seq<u32>, r: Seq<u32>| #[trigger]
        forward::feeds(b.ffn, exp, ln, gelu, swiglu, rows, n, d as int, f, kept)
            && #[trigger] forward::drops(drop, training, b.dropout, f, r);
    match b.ffn {
        FfnView::Dense(_) => {},
        FfnView::Moe(m) => {
            let s = kept.used->0;
            let plan = choose|plan: RoutePlan| #[trigger]
                moe_forward::is_forward(
                    m,
                    exp,
                    ln,
                    gelu,
                    swiglu,
                    rows,
                    n,
                    d as int,
                    plan,
                    f,
                    s.aux,
                    kept.aux,
                ) && moe_layer::is_record(s, plan, n);
            let e = m.experts.len() as int;
            let capacity = moe::capacity_of(n, e, m.top_k as int, m.capacity_factor) as usize;
            records_of_routings_are_complete(
                s,
                plan,
                m.router.output(rows, n),
                n,
                e,
                m.top_k as int,
                capacity,
            );
        },
    }
}

/// What the blocks of a model keep of a forward pass accounts, block by block, for all choices of
/// its tokens.
pub proof fn records_of_models_are_complete<
    A: Fn(usize, Vec<u32>, &Sight) -> Vec<u32>,
    D: Fn(Vec<u32>, u32, bool) -> Vec<u32>,
    E: Fn(u32) -> u32,
    L: Fn(u32) -> u32,
    G: Fn(u32) -> u32,
    S: Fn(u32, u32) -> u32,
>(
    model: GPT,
    idx: Seq<usize>,
    attn: &A,
    sight: Sight,
    drop: &D,
    training: bool,
    exp: &E,
    ln: &L,
    gelu: &G,
    swiglu: &S,
    states: Seq<Seq<u32>>,
    kept: Seq<PassRecord>,
    y: Seq<u32>,
    i: int,
)
    requires
        model@.wf(),
        idx.len() <= usize::MAX,
        forward::is_hidden(
            model,
            idx,
            attn,
            sight,
            drop,
            training,
            exp,
            ln,
            gelu,
            swiglu,
            states,
            kept,
            y,
        ),
        0 <= i < model.blocks@.len(),
    ensures
        match model@.blocks[i].ffn {
            FfnView::Dense(_) => kept[i].aux is None && kept[i].used is None,
            FfnView::Moe(m) => kept[i].used matches Some(s) && accounts_for(
                s,
                idx.len() as int,
                m.experts.len() as int,
                m.top_k as int,
            ),
        },
{
    let d = model.cfg.n_embd;
    assert(model@.blocks[i] == model.blocks@[i]@);
    assert(model@.blocks[i].wf(d));
    records_of_blocks_are_complete(
        model.blocks@[i]@,
        attn,
        sight,
        drop,
        training,
        exp,
        ln,
        gelu,
        swiglu,
        i as usize,
        states[i],
        idx.len() as int,
        d,
        states[i + 1],
        kept[i],
    );
}

} // verus!
