//! What a layer of experts gives a single token: the weighted answers of the experts that the
//! token chose, whatever else is in the batch.

use crate::float_bits;
use crate::float_bits::ONE_BITS;
use crate::layer_laws;
use crate::layers::LinearView;
use crate::matrix;
use crate::mlp;
use crate::mlp::MlpView;
use crate::moe;
use crate::moe::{RoutePlan, MINUS_INFINITY};
use crate::moe_forward;
use crate::moe_laws;
use crate::moe_layer;
use crate::moe_layer::MoeView;
use crate::norms;
use crate::quant;
use crate::quant_laws;
use crate::rounding;
use crate::softmax;
use vstd::arithmetic::div_mod::lemma_fundamental_div_mod_converse;
use vstd::arithmetic::power2::{lemma_pow2_pos, pow2};
use vstd::prelude::*;

verus! {

/// Row `i` of a matrix with `d` columns.
pub open spec fn row(x: Seq<u32>, d: int, i: int) -> Seq<u32> {
    Seq::new(d as nat, |c: int| x[i * d + c])
}

/// The places of a single row.
proof fn lemma_single_row(d: int, c: int)
    requires
        0 <= c < d,
    ensures
        0 * d + c == c,
        c / d == 0,
        c % d == c,
        1 * d == d,
{
    quant::cell_position(0, c, 1, d);
}

proof fn lemma_dot_of_row(x: Seq<u32>, w: Seq<u32>, inner: int, cols: int, i: int, c: int, k: nat)
    requires
        k <= inner,
    ensures
        matrix::dot_at(x, w, inner, cols, i, c, k) == matrix::dot_at(
            row(x, inner, i),
            w,
            inner,
            cols,
            0,
            c,
            k,
        ),
    decreases k,
{
    if k > 0 {
        lemma_dot_of_row(x, w, inner, cols, i, c, (k - 1) as nat);
        lemma_single_row(inner, k - 1);
        assert(row(x, inner, i)[0 * inner + (k - 1)] == x[i * inner + (k - 1)]);
    }
}

/// A plain layer treats every row by itself.
proof fn lemma_output_of_row(l: LinearView, x: Seq<u32>, n: int, i: int)
    requires
        l.lora is None,
        l.quant is None,
        0 <= i < n,
    ensures
        l.output(x, n).len() == n * l.outputs(),
        row(l.output(x, n), l.outputs() as int, i) == l.output(
            row(x, l.inputs() as int, i),
            1,
        ),
{
    let (inner, cols) = (l.inputs() as int, l.outputs() as int);
    let big = l.output(x, n);
    let small = l.output(row(x, inner, i), 1);
    assert(n * cols >= 0) by (nonlinear_arith)
        requires
            n >= 0,
            cols >= 0,
    ;
    assert(1 * cols == cols);
    assert forall|c: int| 0 <= c < cols implies #[trigger] row(big, cols, i)[c] == small[c] by {
        quant::cell_position(i, c, n, cols);
        lemma_single_row(cols, c);
        lemma_dot_of_row(x, l.weight.data, inner, cols, i, c, inner as nat);
    }
    assert(row(big, cols, i) =~= small);
}

/// A block without adapters treats every row by itself.
proof fn lemma_answer_of_row<G: Fn(u32) -> u32, S: Fn(u32, u32) -> u32>(
    m: MlpView,
    gelu: &G,
    swiglu: &S,
    d: usize,
    x: Seq<u32>,
    n: int,
    y: Seq<u32>,
    i: int,
)
    requires
        m.wf(d),
        !m.has_lora(),
        !m.has_quant(),
        0 <= i < n,
        mlp::produces(m, gelu, swiglu, x, n, y),
    ensures
        mlp::produces(m, gelu, swiglu, row(x, d as int, i), 1, row(y, d as int, i)),
{
    let xi = row(x, d as int, i);
    match m {
        MlpView::Plain { first, second } => {
            let hidden = choose|hidden: Seq<u32>|
                #![trigger second.output(hidden, n)]
                mlp::activated(gelu, first.output(x, n), hidden) && y == second.output(hidden, n);
            let h = first.outputs() as int;
            lemma_output_of_row(first, x, n, i);
            lemma_output_of_row(second, hidden, n, i);
            let own = row(hidden, h, i);
            assert(mlp::activated(gelu, first.output(xi, 1), own)) by {
                assert forall|p: int| 0 <= p < h implies call_ensures(
                    gelu,
                    (first.output(xi, 1)[p],),
                    #[trigger] own[p],
                ) by {
                    quant::cell_position(i, p, n, h);
                    assert(row(first.output(x, n), h, i)[p] == first.output(x, n)[i * h + p]);
                    assert(own[p] == hidden[i * h + p]);
                }
            }
            assert(row(y, d as int, i) == second.output(own, 1));
        },
        MlpView::Gated { gate, up, down } => {
            let hidden = choose|hidden: Seq<u32>|
                #![trigger down.output(hidden, n)]
                mlp::gated(swiglu, gate.output(x, n), up.output(x, n), hidden) && y == down.output(
                    hidden,
                    n,
                );
            let h = gate.outputs() as int;
            lemma_output_of_row(gate, x, n, i);
            lemma_output_of_row(up, x, n, i);
            lemma_output_of_row(down, hidden, n, i);
            let own = row(hidden, h, i);
            assert(mlp::gated(swiglu, gate.output(xi, 1), up.output(xi, 1), own)) by {
                assert forall|p: int| 0 <= p < h implies call_ensures(
                    swiglu,
                    (gate.output(xi, 1)[p], up.output(xi, 1)[p]),
                    #[trigger] own[p],
                ) by {
                    quant::cell_position(i, p, n, h);
                    assert(row(gate.output(x, n), h, i)[p] == gate.output(x, n)[i * h + p]);
                    assert(row(up.output(x, n), h, i)[p] == up.output(x, n)[i * h + p]);
                    assert(own[p] == hidden[i * h + p]);
                }
            }
            assert(row(y, d as int, i) == down.output(own, 1));
        },
    }
}

proof fn lemma_max_of_row(x: Seq<u32>, d: int, i: int, k: nat)
    requires
        k <= d,
    ensures
        softmax::row_max(x, d, i, k) == softmax::row_max(row(x, d, i), d, 0, k),
    decreases k,
{
    if k > 0 {
        lemma_max_of_row(x, d, i, (k - 1) as nat);
        lemma_single_row(d, k - 1);
        assert(row(x, d, i)[0 * d + (k - 1)] == x[i * d + (k - 1)]);
    }
}

proof fn lemma_sum_of_row(x: Seq<u32>, d: int, i: int, k: nat)
    requires
        k <= d,
    ensures
        norms::row_sum(x, d, i, k) == norms::row_sum(row(x, d, i), d, 0, k),
    decreases k,
{
    if k > 0 {
        lemma_sum_of_row(x, d, i, (k - 1) as nat);
        lemma_single_row(d, k - 1);
        assert(row(x, d, i)[0 * d + (k - 1)] == x[i * d + (k - 1)]);
    }
}

/// Every row of a softmax is the softmax of that row.
pub proof fn softmax_of_a_row<E: Fn(u32) -> u32>(
    exp: &E,
    x: Seq<u32>,
    n: int,
    d: int,
    p: Seq<u32>,
    i: int,
)
    requires
        0 <= i < n,
        d >= 0,
        softmax::is_softmax(exp, x, n, d, p),
    ensures
        softmax::is_softmax(exp, row(x, d, i), 1, d, row(p, d, i)),
{
    let e = choose|e: Seq<u32>| #[trigger]
        softmax::all_exps(exp, x, n, d, e) && p == softmax::normalised(e, n, d);
    let own = row(e, d, i);
    let xi = row(x, d, i);
    assert(1 * d == d);
    lemma_max_of_row(x, d, i, d as nat);
    lemma_sum_of_row(e, d, i, d as nat);
    assert(softmax::row_exps(exp, x, d, i, e));
    assert(softmax::all_exps(exp, xi, 1, d, own)) by {
        assert forall|t: int| 0 <= t < 1 implies #[trigger] softmax::row_exps(exp, xi, d, t, own) by {
            assert forall|k: int| 0 <= k < d implies call_ensures(
                exp,
                (rounding::difference(
                    xi[t * d + k],
                    softmax::row_max(xi, d, t, d as nat),
                ),),
                #[trigger] own[t * d + k],
            ) by {
                lemma_single_row(d, k);
                assert(own[k] == e[i * d + k]);
                assert(xi[k] == x[i * d + k]);
            }
        }
    }
    assert forall|k: int| 0 <= k < d implies #[trigger] row(p, d, i)[k] == softmax::normalised(
        own,
        1,
        d,
    )[k] by {
        quant::cell_position(i, k, n, d);
        lemma_single_row(d, k);
        assert(own[k] == e[i * d + k]);
    }
    assert(row(p, d, i) =~= softmax::normalised(own, 1, d));
}

proof fn lemma_preferred_of_row(
    logits: Seq<u32>,
    n_expert: int,
    i: int,
    e: int,
    upto: nat,
)
    requires
        upto <= n_expert,
        0 <= e < n_expert,
    ensures
        moe::preferred(logits, n_expert, i, e, upto) == moe::preferred(
            row(logits, n_expert, i),
            n_expert,
            0,
            e,
            upto,
        ),
    decreases upto,
{
    if upto > 0 {
        lemma_preferred_of_row(logits, n_expert, i, e, (upto - 1) as nat);
        lemma_single_row(n_expert, upto - 1);
        lemma_single_row(n_expert, e);
        assert(row(logits, n_expert, i)[upto - 1] == logits[i * n_expert + (upto - 1)]);
        assert(row(logits, n_expert, i)[e] == logits[i * n_expert + e]);
    }
}

/// The choice of a token rests on its own scores.
pub proof fn choices_rest_on_the_token(logits: Seq<u32>, n_expert: int, k: int, i: int, e: int)
    requires
        0 <= e < n_expert,
    ensures
        moe::chooses(logits, n_expert, k, i, e) == moe::chooses(
            row(logits, n_expert, i),
            n_expert,
            k,
            0,
            e,
        ),
{
    lemma_preferred_of_row(logits, n_expert, i, e, n_expert as nat);
}

/// Whoever chooses an expert is among its takers.
proof fn lemma_takers_hold(logits: Seq<u32>, n_expert: int, k: int, e: int, n: nat, i: int)
    requires
        0 <= i < n,
        n <= usize::MAX,
        moe::chooses(logits, n_expert, k, i, e),
    ensures
        moe::takers(logits, n_expert, k, e, n).contains(i as usize),
    decreases n,
{
    let t = moe::takers(logits, n_expert, k, e, (n - 1) as nat);
    let all = moe::takers(logits, n_expert, k, e, n);
    if i == n - 1 {
        assert(all == t.push(i as usize));
        assert(all[t.len() as int] == i as usize);
    } else {
        lemma_takers_hold(logits, n_expert, k, e, (n - 1) as nat, i);
        let at = t.index_of(i as usize);
        assert(t[at] == i as usize);
        assert(all[at] == i as usize);
    }
}

/// What the weighted answers of the chosen ones among the first `upto` experts add up to in column
/// `c`, in expert order.
pub open spec fn token_cell(
    logits: Seq<u32>,
    w: Seq<u32>,
    answers: Seq<Seq<u32>>,
    k: int,
    c: int,
    upto: nat,
) -> u32
    decreases upto,
{
    if upto == 0 {
        0
    } else {
        let e = upto - 1;
        let before = token_cell(logits, w, answers, k, c, e as nat);
        if moe::chooses(logits, logits.len() as int, k, 0, e) {
            rounding::sum(before, rounding::product(w[e], answers[e][c]))
        } else {
            before
        }
    }
}

/// Whether `w` may be the weights that a token with these scores gives the experts: the
/// probabilities of the chosen ones, or a softmax over the chosen ones alone.
pub open spec fn token_weights<E: Fn(u32) -> u32>(
    m: MoeView,
    exp: &E,
    logits: Seq<u32>,
    w: Seq<u32>,
) -> bool {
    let e = m.experts.len() as int;
    let k = m.top_k as int;
    if m.switch_gate {
        exists|probs: Seq<u32>| #[trigger]
            softmax::is_softmax(exp, logits, 1, e, probs) && w == Seq::new(
                e as nat,
                |j: int|
                    rounding::product(
                        probs[j],
                        if moe::chooses(logits, e, k, 0, j) {
                            ONE_BITS
                        } else {
                            0u32
                        },
                    ),
            )
    } else {
        softmax::is_softmax(
            exp,
            Seq::new(
                e as nat,
                |j: int|
                    rounding::sum(
                        logits[j],
                        if moe::chooses(logits, e, k, 0, j) {
                            0u32
                        } else {
                            MINUS_INFINITY
                        },
                    ),
            ),
            1,
            e,
            w,
        )
    }
}

/// Whether `answers` holds what the chosen experts may make of one token.
pub open spec fn token_answers<G: Fn(u32) -> u32, S: Fn(u32, u32) -> u32>(
    m: MoeView,
    gelu: &G,
    swiglu: &S,
    x: Seq<u32>,
    logits: Seq<u32>,
    answers: Seq<Seq<u32>>,
) -> bool {
    &&& answers.len() == m.experts.len()
    &&& forall|e: int|
        0 <= e < m.experts.len() && moe::chooses(
            logits,
            m.experts.len() as int,
            m.top_k as int,
            0,
            e,
        ) ==> mlp::produces(m.experts[e], gelu, swiglu, x, 1, #[trigger] answers[e])
}

/// Whether `y` may be what a token gets: the sum of the chosen experts' answers to it, each times
/// the weight that the token gives the expert.
pub open spec fn is_token_output<E: Fn(u32) -> u32, G: Fn(u32) -> u32, S: Fn(u32, u32) -> u32>(
    m: MoeView,
    exp: &E,
    gelu: &G,
    swiglu: &S,
    x: Seq<u32>,
    y: Seq<u32>,
) -> bool {
    let logits = m.router.output(x, 1);
    exists|w: Seq<u32>, answers: Seq<Seq<u32>>|
        #![trigger token_weights(m, exp, logits, w), token_answers(m, gelu, swiglu, x, logits, answers)]
        token_weights(m, exp, logits, w) && token_answers(m, gelu, swiglu, x, logits, answers)
            && y == Seq::new(
            x.len(),
            |c: int| token_cell(logits, w, answers, m.top_k as int, c, m.experts.len()),
        )
}

/// Without a capacity, an expert processes exactly the tokens that chose it.
proof fn lemma_processed_is_chosen(
    plan: RoutePlan,
    logits: Seq<u32>,
    n: int,
    n_expert: int,
    k: int,
    capacity: usize,
    e: int,
    i: int,
)
    requires
        moe::is_routing(plan, logits, n, n_expert, k, capacity),
        0 <= n <= capacity,
        0 <= e < n_expert,
        0 <= i < n,
    ensures
        moe_layer::processes(plan.sel@, e, i) == moe::chooses(logits, n_expert, k, i, e),
        plan.sel@[e]@.len() <= n,
{
    let t = moe::takers(logits, n_expert, k, e, n as nat);
    moe_laws::experts_process_their_takers(logits, n_expert, k, e, n as nat, usize::MAX);
    moe_laws::experts_process_their_takers(logits, n_expert, k, e, n as nat, capacity);
    let own = plan.sel@[e]@;
    assert(own == moe::kept(t, capacity));
    moe_laws::takers_are_few(logits, n_expert, k, e, n as nat);
    assert(own == t);
    if moe::chooses(logits, n_expert, k, i, e) {
        lemma_takers_hold(logits, n_expert, k, e, n as nat, i);
    }
    if own.contains(i as usize) {
        let at = own.index_of(i as usize);
        assert(own[at] == i as usize);
    }
}

/// The rows of an expert's batch are the rows of its tokens.
proof fn lemma_picked_row(x: Seq<u32>, d: int, ids: Seq<usize>, q: int)
    requires
        0 <= q < ids.len(),
        d >= 0,
    ensures
        row(matrix::picked(x, d, ids), d, q) == row(x, d, ids[q] as int),
{
    let a = row(matrix::picked(x, d, ids), d, q);
    let b = row(x, d, ids[q] as int);
    assert forall|c: int| 0 <= c < d implies #[trigger] a[c] == b[c] by {
        quant::cell_position(q, c, ids.len() as int, d);
    }
    assert(a =~= b);
}

proof fn lemma_cells_agree(
    sel: Seq<Vec<usize>>,
    outs: Seq<Seq<u32>>,
    w: Seq<u32>,
    logits: Seq<u32>,
    n_expert: int,
    k: int,
    d: int,
    i: int,
    c: int,
    answers: Seq<Seq<u32>>,
    upto: nat,
)
    requires
        upto <= n_expert,
        0 <= c < d,
        logits.len() == n_expert,
        forall|e: int|
            0 <= e < n_expert ==> #[trigger] moe_layer::processes(sel, e, i) == moe::chooses(
                logits,
                n_expert,
                k,
                0,
                e,
            ),
        answers == Seq::new(
            n_expert as nat,
            |e: int| row(outs[e], d, sel[e]@.index_of(i as usize)),
        ),
    ensures
        moe_layer::combined_cell(sel, outs, w, n_expert, d, i, c, upto) == token_cell(
            logits,
            row(w, n_expert, i),
            answers,
            k,
            c,
            upto,
        ),
    decreases upto,
{
    if upto > 0 {
        lemma_cells_agree(
            sel,
            outs,
            w,
            logits,
            n_expert,
            k,
            d,
            i,
            c,
            answers,
            (upto - 1) as nat,
        );
        let e = upto - 1;
        assert(moe_layer::processes(sel, e, i) == moe::chooses(logits, n_expert, k, 0, e));
        assert(answers[e][c] == outs[e][sel[e]@.index_of(i as usize) * d + c]);
        assert(row(w, n_expert, i)[e] == w[i * n_expert + e]);
    }
}

/// What a layer without a capacity gives a token depends on that token alone, and is the sum of
/// the chosen experts' answers to it, each times the weight that the token gives the expert.
pub proof fn tokens_are_processed_alone<
    E: Fn(u32) -> u32,
    L: Fn(u32) -> u32,
    G: Fn(u32) -> u32,
    S: Fn(u32, u32) -> u32,
>(
    m: MoeView,
    exp: &E,
    ln: &L,
    gelu: &G,
    swiglu: &S,
    x: Seq<u32>,
    n: int,
    d: usize,
    plan: RoutePlan,
    y: Seq<u32>,
    aux_raw: u32,
    aux: Option<u32>,
    i: int,
)
    requires
        m.wf(d),
        float_bits::at_most_zero(m.capacity_factor),
        n <= usize::MAX,
        moe_forward::is_forward(
            m,
            exp,
            ln,
            gelu,
            swiglu,
            x,
            n,
            d as int,
            plan,
            y,
            aux_raw,
            aux,
        ),
        0 <= i < n,
    ensures
        is_token_output(m, exp, gelu, swiglu, row(x, d as int, i), row(y, d as int, i)),
{
    let e = m.experts.len() as int;
    let k = m.top_k as int;
    let all = m.router.output(x, n);
    let xi = row(x, d as int, i);
    let logits = m.router.output(xi, 1);
    lemma_output_of_row(m.router, x, n, i);
    assert(logits == row(all, e, i));
    let (probs, w) = choose|probs: Seq<u32>, w: Seq<u32>|
        #![trigger moe_forward::are_gates(exp, m.switch_gate, all, probs, plan, n, e, w)]
        softmax::is_softmax(exp, all, n, e, probs) && moe_forward::are_gates(
            exp,
            m.switch_gate,
            all,
            probs,
            plan,
            n,
            e,
            w,
        ) && moe_layer::mixes(m, gelu, swiglu, x, n, d as int, plan.sel@, w, y) && aux_raw
            == moe_layer::balance_of(plan.f@, moe_layer::mean_probabilities(probs, n, e));
    let outs = choose|outs: Seq<Seq<u32>>|
        #![trigger moe_layer::are_answers(m, gelu, swiglu, x, d as int, plan.sel@, outs)]
        moe_layer::are_answers(m, gelu, swiglu, x, d as int, plan.sel@, outs) && y
            == moe_layer::combined(plan.sel@, outs, w, e, n, d as int);
    let own = row(w, e, i);
    let capacity = moe::capacity_of(n, e, k, m.capacity_factor) as usize;
    assert forall|j: int| 0 <= j < e implies #[trigger] moe_layer::processes(plan.sel@, j, i)
        == moe::chooses(logits, e, k, 0, j) by {
        lemma_processed_is_chosen(plan, all, n, e, k, capacity, j, i);
        choices_rest_on_the_token(all, e, k, i, j);
    }
    // The weights.
    assert(token_weights(m, exp, logits, own)) by {
        softmax_of_a_row(exp, all, n, e, probs, i);
        if m.switch_gate {
            let pi = row(probs, e, i);
            assert forall|j: int| 0 <= j < e implies #[trigger] own[j] == rounding::product(
                pi[j],
                if moe::chooses(logits, e, k, 0, j) {
                    ONE_BITS
                } else {
                    0u32
                },
            ) by {
                quant::cell_position(i, j, n, e);
                choices_rest_on_the_token(all, e, k, i, j);
            }
            assert(own =~= Seq::new(
                e as nat,
                |j: int|
                    rounding::product(
                        pi[j],
                        if moe::chooses(logits, e, k, 0, j) {
                            ONE_BITS
                        } else {
                            0u32
                        },
                    ),
            ));
        } else {
            let shifted = matrix::total(all, plan.penalty@);
            softmax_of_a_row(exp, shifted, n, e, w, i);
            let want = Seq::new(
                e as nat,
                |j: int|
                    rounding::sum(
                        logits[j],
                        if moe::chooses(logits, e, k, 0, j) {
                            0u32
                        } else {
                            MINUS_INFINITY
                        },
                    ),
            );
            assert forall|j: int| 0 <= j < e implies #[trigger] row(shifted, e, i)[j] == want[j] by {
                quant::cell_position(i, j, n, e);
                choices_rest_on_the_token(all, e, k, i, j);
                assert(logits[j] == all[i * e + j]);
            }
            assert(row(shifted, e, i) =~= want);
        }
    }
    // The answers.
    let answers = Seq::new(
        e as nat,
        |j: int| row(outs[j], d as int, plan.sel@[j]@.index_of(i as usize)),
    );
    assert(token_answers(m, gelu, swiglu, xi, logits, answers)) by {
        assert forall|j: int|
            0 <= j < m.experts.len() && moe::chooses(logits, e, k, 0, j) implies mlp::produces(
            m.experts[j],
            gelu,
            swiglu,
            xi,
            1,
            #[trigger] answers[j],
        ) by {
            let ids = plan.sel@[j]@;
            assert(moe_layer::processes(plan.sel@, j, i));
            let q = ids.index_of(i as usize);
            assert(ids[q] == i as usize);
            lemma_picked_row(x, d as int, ids, q);
            lemma_answer_of_row(
                m.experts[j],
                gelu,
                swiglu,
                d,
                matrix::picked(x, d as int, ids),
                ids.len() as int,
                outs[j],
                q,
            );
        }
    }
    // The sum.
    let want = Seq::new(
        xi.len(),
        |c: int| token_cell(logits, own, answers, k, c, m.experts.len()),
    );
    assert forall|c: int| 0 <= c < d implies #[trigger] row(y, d as int, i)[c] == want[c] by {
        quant::cell_position(i, c, n, d as int);
        lemma_cells_agree(
            plan.sel@,
            outs,
            w,
            logits,
            e,
            k,
            d as int,
            i,
            c,
            answers,
            e as nat,
        );
    }
    assert(row(y, d as int, i) =~= want);
}

/// Experts that a token did not choose have no part in what it gets: another expert in their place
/// would change nothing.
pub proof fn unchosen_experts_do_not_matter<
    E: Fn(u32) -> u32,
    G: Fn(u32) -> u32,
    S: Fn(u32, u32) -> u32,
>(m: MoeView, exp: &E, gelu: &G, swiglu: &S, x: Seq<u32>, y: Seq<u32>, e: int, other: MlpView)
    requires
        is_token_output(m, exp, gelu, swiglu, x, y),
        0 <= e < m.experts.len(),
        !moe::chooses(m.router.output(x, 1), m.experts.len() as int, m.top_k as int, 0, e),
    ensures
        is_token_output(
            (MoeView { experts: m.experts.update(e, other), ..m }),
            exp,
            gelu,
            swiglu,
            x,
            y,
        ),
{
    let changed = MoeView { experts: m.experts.update(e, other), ..m };
    let logits = m.router.output(x, 1);
    let (w, answers) = choose|w: Seq<u32>, answers: Seq<Seq<u32>>|
        #![trigger token_weights(m, exp, logits, w), token_answers(m, gelu, swiglu, x, logits, answers)]
        token_weights(m, exp, logits, w) && token_answers(m, gelu, swiglu, x, logits, answers)
            && y == Seq::new(
            x.len(),
            |c: int| token_cell(logits, w, answers, m.top_k as int, c, m.experts.len()),
        );
    assert(token_weights(changed, exp, logits, w));
    assert(token_answers(changed, gelu, swiglu, x, logits, answers));
}

/// Whether a function maps zero to one and minus infinity to zero.
pub open spec fn fixes_the_ends<E: Fn(u32) -> u32>(exp: &E) -> bool {
    &&& forall|v: u32, r: u32|
        float_bits::magnitude(v) == 0 && #[trigger] call_ensures(exp, (v,), r) ==> r == ONE_BITS
    &&& forall|r: u32| #[trigger] call_ensures(exp, (MINUS_INFINITY,), r) ==> r == 0
}

proof fn lemma_max_of_one(s: Seq<u32>, n_expert: int, e: int, k: nat)
    requires
        s.len() == n_expert,
        0 <= e < n_expert,
        k <= n_expert,
        float_bits::finite(s[e]),
        forall|j: int| 0 <= j < n_expert && j != e ==> #[trigger] s[j] == MINUS_INFINITY,
    ensures
        softmax::row_max(s, n_expert, 0, k) == if e < k {
            s[e]
        } else {
            MINUS_INFINITY
        },
    decreases k,
{
    if k > 0 {
        lemma_max_of_one(s, n_expert, e, (k - 1) as nat);
        lemma_single_row(n_expert, k - 1);
        if k - 1 != e {
            assert(s[k - 1] == MINUS_INFINITY);
        }
    }
}

proof fn lemma_sum_of_one(s: Seq<u32>, n_expert: int, e: int, k: nat)
    requires
        s.len() == n_expert,
        0 <= e < n_expert,
        k <= n_expert,
        s[e] == ONE_BITS,
        forall|j: int| 0 <= j < n_expert && j != e ==> #[trigger] s[j] == 0,
    ensures
        norms::row_sum(s, n_expert, 0, k) == if e < k {
            ONE_BITS
        } else {
            0u32
        },
    decreases k,
{
    if k > 0 {
        lemma_sum_of_one(s, n_expert, e, (k - 1) as nat);
        lemma_single_row(n_expert, k - 1);
        layer_laws::sum_with_zero(0, 0);
        layer_laws::sum_with_zero(ONE_BITS, 0);
        quant_laws::one_is_one();
        assert(float_bits::units(0) == 0) by {
            assert(0 * pow2(float_bits::doublings(0)) == 0);
        }
        lemma_pow2_pos(149);
        assert(rounding::sum(0, ONE_BITS) == ONE_BITS);
        if k - 1 != e {
            assert(s[k - 1] == 0);
        }
    }
}

/// A token that chooses a single expert and weighs the chosen ones only among themselves gives it
/// the weight one, whatever the scores: the router has no say in how much the answer counts.
pub proof fn single_choices_weigh_one<E: Fn(u32) -> u32>(
    m: MoeView,
    exp: &E,
    logits: Seq<u32>,
    w: Seq<u32>,
    e: int,
)
    requires
        m.top_k == 1,
        !m.switch_gate,
        logits.len() == m.experts.len(),
        forall|j: int| 0 <= j < logits.len() ==> float_bits::finite(#[trigger] logits[j]),
        fixes_the_ends(exp),
        token_weights(m, exp, logits, w),
        0 <= e < m.experts.len(),
        moe::chooses(logits, m.experts.len() as int, 1, 0, e),
    ensures
        w[e] == ONE_BITS,
        forall|j: int| 0 <= j < m.experts.len() && j != e ==> #[trigger] w[j] == 0,
{
    let n = m.experts.len() as int;
    let s = Seq::new(
        n as nat,
        |j: int|
            rounding::sum(
                logits[j],
                if moe::chooses(logits, n, 1, 0, j) {
                    0u32
                } else {
                    MINUS_INFINITY
                },
            ),
    );
    assert(1 * n == n);
    assert forall|j: int| 0 <= j < n && j != e implies #[trigger] s[j] == MINUS_INFINITY by {
        if moe::beats(logits, n, 0, e, j) {
            moe_laws::preferred_experts_rank_lower(logits, n, 0, e, j);
        } else {
            moe_laws::preferred_experts_rank_lower(logits, n, 0, j, e);
        }
        assert(float_bits::finite(logits[j]));
    }
    assert(float_bits::finite(s[e])) by {
        assert(float_bits::finite(logits[e]));
        if logits[e] == float_bits::SIGN_BIT {
            assert(float_bits::units(0) == 0 && float_bits::units(float_bits::SIGN_BIT) == 0) by {
                assert(0 * pow2(float_bits::doublings(0)) == 0);
                assert(0 * pow2(float_bits::doublings(float_bits::SIGN_BIT)) == 0);
            }
            assert(rounding::nearest(0, 1) == 0) by {
                assert(0int / 1 == 0 && 0int % 1 == 0);
            }
        } else {
            layer_laws::sum_with_zero(logits[e], 0);
        }
    }
    let es = choose|es: Seq<u32>| #[trigger]
        softmax::all_exps(exp, s, 1, n, es) && w == softmax::normalised(es, 1, n);
    assert(softmax::row_exps(exp, s, n, 0, es));
    lemma_max_of_one(s, n, e, n as nat);
    layer_laws::difference_with_itself(s[e]);
    assert forall|j: int| 0 <= j < n implies #[trigger] es[j] == if j == e {
        ONE_BITS
    } else {
        0u32
    } by {
        lemma_single_row(n, j);
        assert(call_ensures(
            exp,
            (rounding::difference(s[0 * n + j], softmax::row_max(s, n, 0, n as nat)),),
            es[0 * n + j],
        ));
        if j != e {
            assert(s[j] == MINUS_INFINITY);
        }
    }
    lemma_sum_of_one(es, n, e, n as nat);
    quant_laws::one_is_one();
    lemma_pow2_pos(149);
    let o = float_bits::one();
    quant_laws::nearest_ignores_expansion(o, 1, o);
    assert(1 * o == o);
    assert(float_bits::units(0) == 0) by {
        assert(0 * pow2(float_bits::doublings(0)) == 0);
    }
    assert(0 * o == 0);
    assert(rounding::nearest(0, o) == 0) by {
        lemma_fundamental_div_mod_converse(0, o, 0, 0);
    }
    assert forall|j: int| 0 <= j < n implies #[trigger] w[j] == if j == e {
        ONE_BITS
    } else {
        0u32
    } by {
        lemma_single_row(n, j);
        assert(es[j] == if j == e {
            ONE_BITS
        } else {
            0u32
        });
    }
}

} // verus!
