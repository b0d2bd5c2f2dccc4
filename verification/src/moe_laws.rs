//! What holds of every routing.

use crate::gptq;
use crate::moe;
use vstd::prelude::*;

verus! {

/// An expert that is preferred has the lower rank.
pub proof fn preferred_experts_rank_lower(
    logits: Seq<u32>,
    n_expert: int,
    i: int,
    a: int,
    b: int,
)
    requires
        0 <= a < n_expert,
        0 <= b < n_expert,
        moe::beats(logits, n_expert, i, a, b),
    ensures
        moe::rank(logits, n_expert, i, a) < moe::rank(logits, n_expert, i, b),
{
    lemma_fewer_preferred(logits, n_expert, i, a, b, n_expert as nat);
}

proof fn lemma_fewer_preferred(
    logits: Seq<u32>,
    n_expert: int,
    i: int,
    a: int,
    b: int,
    upto: nat,
)
    requires
        moe::beats(logits, n_expert, i, a, b),
        0 <= a,
    ensures
        moe::preferred(logits, n_expert, i, a, upto) <= moe::preferred(
            logits,
            n_expert,
            i,
            b,
            upto,
        ),
        a < upto ==> moe::preferred(logits, n_expert, i, a, upto) < moe::preferred(
            logits,
            n_expert,
            i,
            b,
            upto,
        ),
    decreases upto,
{
    if upto > 0 {
        lemma_fewer_preferred(logits, n_expert, i, a, b, (upto - 1) as nat);
    }
}

proof fn lemma_rank_is_small(logits: Seq<u32>, n_expert: int, i: int, e: int, upto: nat)
    requires
        0 <= e,
    ensures
        moe::preferred(logits, n_expert, i, e, upto) <= upto,
        e < upto ==> moe::preferred(logits, n_expert, i, e, upto) < upto,
    decreases upto,
{
    if upto > 0 {
        lemma_rank_is_small(logits, n_expert, i, e, (upto - 1) as nat);
    }
}

/// A chosen expert is preferred to every expert that is not chosen.
pub proof fn chosen_experts_are_the_best(
    logits: Seq<u32>,
    n_expert: int,
    k: int,
    i: int,
    a: int,
    b: int,
)
    requires
        0 <= a < n_expert,
        0 <= b < n_expert,
        moe::chooses(logits, n_expert, k, i, a),
        !moe::chooses(logits, n_expert, k, i, b),
    ensures
        moe::beats(logits, n_expert, i, a, b),
{
    if !moe::beats(logits, n_expert, i, a, b) {
        assert(a != b);
        preferred_experts_rank_lower(logits, n_expert, i, b, a);
    }
}

/// How many of the first `upto` experts token `i` chooses.
pub open spec fn choices(logits: Seq<u32>, n_expert: int, k: int, i: int, upto: nat) -> nat
    decreases upto,
{
    if upto == 0 {
        0
    } else {
        choices(logits, n_expert, k, i, (upto - 1) as nat) + if moe::chooses(
            logits,
            n_expert,
            k,
            i,
            upto - 1,
        ) {
            1nat
        } else {
            0nat
        }
    }
}

spec fn chosen_set(logits: Seq<u32>, n_expert: int, k: int, i: int, upto: nat) -> Set<int>
    decreases upto,
{
    if upto == 0 {
        Set::empty()
    } else if moe::chooses(logits, n_expert, k, i, upto - 1) {
        chosen_set(logits, n_expert, k, i, (upto - 1) as nat).insert(upto - 1)
    } else {
        chosen_set(logits, n_expert, k, i, (upto - 1) as nat)
    }
}

proof fn lemma_chosen_set(logits: Seq<u32>, n_expert: int, k: int, i: int, upto: nat)
    ensures
        chosen_set(logits, n_expert, k, i, upto).finite(),
        chosen_set(logits, n_expert, k, i, upto).len() == choices(logits, n_expert, k, i, upto),
        forall|e: int| #[trigger]
            chosen_set(logits, n_expert, k, i, upto).contains(e) <==> 0 <= e < upto && moe::chooses(
                logits,
                n_expert,
                k,
                i,
                e,
            ),
    decreases upto,
{
    if upto > 0 {
        lemma_chosen_set(logits, n_expert, k, i, (upto - 1) as nat);
    }
}

/// Every token chooses exactly `k` experts.
pub proof fn every_token_chooses_k(logits: Seq<u32>, n_expert: int, k: int, i: int)
    requires
        0 <= k <= n_expert <= usize::MAX,
    ensures
        choices(logits, n_expert, k, i, n_expert as nat) == k,
{
    let ranks = Seq::new(n_expert as nat, |e: int| moe::rank(logits, n_expert, i, e) as usize);
    assert forall|e: int| 0 <= e < n_expert implies #[trigger] ranks[e] == moe::rank(
        logits,
        n_expert,
        i,
        e,
    ) && 0 <= ranks[e] < n_expert by {
        lemma_rank_is_small(logits, n_expert, i, e, n_expert as nat);
    }
    assert forall|a: int, b: int| 0 <= a < b < ranks.len() implies #[trigger] ranks[a]
        != #[trigger] ranks[b] by {
        if moe::beats(logits, n_expert, i, a, b) {
            preferred_experts_rank_lower(logits, n_expert, i, a, b);
        } else {
            preferred_experts_rank_lower(logits, n_expert, i, b, a);
        }
    }
    assert(gptq::is_permutation(ranks, n_expert));
    let holder = |r: int| choose|e: int| 0 <= e < n_expert && #[trigger] ranks[e] == r;
    assert forall|r: int| 0 <= r < n_expert implies 0 <= #[trigger] holder(r) < n_expert
        && ranks[holder(r)] == r by {
        gptq::permutation_is_onto(ranks, n_expert, r);
    }
    let low = vstd::set_lib::set_int_range(0, k);
    vstd::set_lib::lemma_int_range(0, k);
    let chosen = chosen_set(logits, n_expert, k, i, n_expert as nat);
    lemma_chosen_set(logits, n_expert, k, i, n_expert as nat);
    assert(low.map(holder) =~= chosen) by {
        assert forall|e: int| chosen.contains(e) implies low.map(holder).contains(e) by {
            let r = ranks[e] as int;
            assert(low.contains(r));
            assert(ranks[holder(r)] == r);
            assert(holder(r) == e);
        }
        assert forall|e: int| low.map(holder).contains(e) implies chosen.contains(e) by {
            let r = choose|r: int| low.contains(r) && holder(r) == e;
            assert(ranks[holder(r)] == r);
        }
    }
    assert forall|r: int, t: int|
        low.contains(r) && low.contains(t) && #[trigger] holder(r) == #[trigger] holder(
            t,
        ) implies r == t by {
        assert(ranks[holder(r)] == r);
        assert(ranks[holder(t)] == t);
    }
    vstd::set_lib::lemma_map_size(low, chosen, holder);
}

/// The assignments that the first `upto` experts get from the first `n` tokens.
pub open spec fn assigned(logits: Seq<u32>, n_expert: int, k: int, n: nat, upto: nat) -> nat
    decreases upto,
{
    if upto == 0 {
        0
    } else {
        assigned(logits, n_expert, k, n, (upto - 1) as nat) + moe::takers(
            logits,
            n_expert,
            k,
            upto - 1,
            n,
        ).len()
    }
}

/// The tokens that the first `upto` experts process, counted with repetition.
pub open spec fn processed(
    logits: Seq<u32>,
    n_expert: int,
    k: int,
    n: nat,
    capacity: usize,
    upto: nat,
) -> nat
    decreases upto,
{
    if upto == 0 {
        0
    } else {
        processed(logits, n_expert, k, n, capacity, (upto - 1) as nat) + moe::kept(
            moe::takers(logits, n_expert, k, upto - 1, n),
            capacity,
        ).len()
    }
}

proof fn lemma_one_more_token(logits: Seq<u32>, n_expert: int, k: int, n: nat, upto: nat)
    ensures
        assigned(logits, n_expert, k, n + 1, upto) == assigned(logits, n_expert, k, n, upto)
            + choices(logits, n_expert, k, n as int, upto),
    decreases upto,
{
    if upto > 0 {
        lemma_one_more_token(logits, n_expert, k, n, (upto - 1) as nat);
        assert(moe::takers(logits, n_expert, k, upto - 1, n + 1).len() == moe::takers(
            logits,
            n_expert,
            k,
            upto - 1,
            n,
        ).len() + if moe::chooses(logits, n_expert, k, n as int, upto - 1) {
            1int
        } else {
            0int
        });
    }
}

proof fn lemma_no_tokens(logits: Seq<u32>, n_expert: int, k: int, upto: nat)
    ensures
        assigned(logits, n_expert, k, 0, upto) == 0,
    decreases upto,
{
    if upto > 0 {
        lemma_no_tokens(logits, n_expert, k, (upto - 1) as nat);
    }
}

/// All experts together are chosen `n * k` times.
pub proof fn assignments_add_up(logits: Seq<u32>, n_expert: int, k: int, n: nat)
    requires
        0 <= k <= n_expert <= usize::MAX,
    ensures
        assigned(logits, n_expert, k, n, n_expert as nat) == n * k,
    decreases n,
{
    if n == 0 {
        lemma_no_tokens(logits, n_expert, k, n_expert as nat);
    } else {
        assignments_add_up(logits, n_expert, k, (n - 1) as nat);
        every_token_chooses_k(logits, n_expert, k, n - 1);
        lemma_one_more_token(logits, n_expert, k, (n - 1) as nat, n_expert as nat);
        assert((n - 1) * k + k == n * k) by (nonlinear_arith);
    }
}

proof fn lemma_processed_or_dropped(
    logits: Seq<u32>,
    n_expert: int,
    k: int,
    n: nat,
    capacity: usize,
    upto: nat,
)
    ensures
        processed(logits, n_expert, k, n, capacity, upto) + moe::turned_away(
            logits,
            n_expert,
            k,
            n,
            capacity,
            upto,
        ) == assigned(logits, n_expert, k, n, upto),
    decreases upto,
{
    if upto > 0 {
        lemma_processed_or_dropped(logits, n_expert, k, n, capacity, (upto - 1) as nat);
    }
}

/// Every one of the `n * k` assignments is either processed or dropped.
pub proof fn nothing_is_lost(
    logits: Seq<u32>,
    n_expert: int,
    k: int,
    n: nat,
    capacity: usize,
)
    requires
        0 <= k <= n_expert <= usize::MAX,
    ensures
        processed(logits, n_expert, k, n, capacity, n_expert as nat) + moe::turned_away(
            logits,
            n_expert,
            k,
            n,
            capacity,
            n_expert as nat,
        ) == n * k,
{
    assignments_add_up(logits, n_expert, k, n);
    lemma_processed_or_dropped(logits, n_expert, k, n, capacity, n_expert as nat);
}

/// No expert has more takers than there are tokens.
pub proof fn takers_are_few(logits: Seq<u32>, n_expert: int, k: int, e: int, n: nat)
    requires
        n <= usize::MAX,
    ensures
        moe::takers(logits, n_expert, k, e, n).len() <= n,
        forall|p: int|
            0 <= p < moe::takers(logits, n_expert, k, e, n).len() ==> {
                let t = #[trigger] moe::takers(logits, n_expert, k, e, n)[p];
                t < n && moe::chooses(logits, n_expert, k, t as int, e)
            },
        forall|p: int, q: int|
            0 <= p < q < moe::takers(logits, n_expert, k, e, n).len() ==> #[trigger] moe::takers(
                logits,
                n_expert,
                k,
                e,
                n,
            )[p] < #[trigger] moe::takers(logits, n_expert, k, e, n)[q],
    decreases n,
{
    if n > 0 {
        takers_are_few(logits, n_expert, k, e, (n - 1) as nat);
    }
}

/// An expert processes tokens that chose it, in rising order, each once, and no more than its
/// capacity allows.
pub proof fn experts_process_their_takers(
    logits: Seq<u32>,
    n_expert: int,
    k: int,
    e: int,
    n: nat,
    capacity: usize,
)
    requires
        n <= usize::MAX,
    ensures
        ({
            let own = moe::kept(moe::takers(logits, n_expert, k, e, n), capacity);
            &&& own.len() <= capacity
            &&& own.len() <= n
            &&& forall|p: int|
                0 <= p < own.len() ==> (#[trigger] own[p]) < n && moe::chooses(
                    logits,
                    n_expert,
                    k,
                    own[p] as int,
                    e,
                )
            &&& forall|p: int, q: int|
                0 <= p < q < own.len() ==> #[trigger] own[p] < #[trigger] own[q]
        }),
{
    takers_are_few(logits, n_expert, k, e, n);
    let t = moe::takers(logits, n_expert, k, e, n);
    let own = moe::kept(t, capacity);
    assert forall|p: int| 0 <= p < own.len() implies own[p] == #[trigger] t[p] by {}
    assert forall|p: int| 0 <= p < own.len() implies (#[trigger] own[p]) < n && moe::chooses(
        logits,
        n_expert,
        k,
        own[p] as int,
        e,
    ) by {
        assert(own[p] == t[p]);
    }
    assert forall|p: int, q: int| 0 <= p < q < own.len() implies #[trigger] own[p]
        < #[trigger] own[q] by {
        assert(own[p] == t[p] && own[q] == t[q]);
    }
}

/// Nothing is dropped where every expert could take every token.
pub proof fn enough_capacity_drops_nothing(
    logits: Seq<u32>,
    n_expert: int,
    k: int,
    n: nat,
    capacity: usize,
    upto: nat,
)
    requires
        n <= capacity,
    ensures
        moe::turned_away(logits, n_expert, k, n, capacity, upto) == 0,
    decreases upto,
{
    if upto > 0 {
        enough_capacity_drops_nothing(logits, n_expert, k, n, capacity, (upto - 1) as nat);
        takers_are_few(logits, n_expert, k, upto - 1, n);
    }
}

} // verus!
