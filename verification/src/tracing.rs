//! Recording passes: what every layer receives while a sequence runs through a model.
//!
//! The mixing of values under attention is handed in, and so are the curves whose last bits depend
//! on the machine.

use crate::block::{BlockView, Ffn, FfnView, PassRecord, TransformerBlock};
use crate::calibrate::Captured;
use crate::float_bits;
use crate::forward;
use crate::layers::{Linear, LinearView};
use crate::matrix;
use crate::mlp;
use crate::mlp::{MLPEnum, MlpView};
use crate::model;
use crate::model::{ModelView, GPT};
use crate::model_run;
use crate::model_run::{CacheState, Sight};
use crate::moe;
use crate::moe::RoutePlan;
use crate::moe_forward;
use crate::moe_layer;
use crate::moe_layer::{MoELayer, MoeView};
use crate::softmax;
use vstd::prelude::*;

verus! {

/// Whether a layer of experts may answer `n` rows `x` with `y`; its losses are left aside.
pub open spec fn answers<E: Fn(u32) -> u32, G: Fn(u32) -> u32, S: Fn(u32, u32) -> u32>(
    m: MoeView,
    exp: &E,
    gelu: &G,
    swiglu: &S,
    x: Seq<u32>,
    n: int,
    d: int,
    y: Seq<u32>,
) -> bool {
    let e = m.experts.len() as int;
    let logits = m.router.output(x, n);
    exists|plan: RoutePlan, probs: Seq<u32>, w: Seq<u32>|
        #![trigger moe_forward::are_gates(exp, m.switch_gate, logits, probs, plan, n, e, w)]
        moe::is_routing(
            plan,
            logits,
            n,
            e,
            m.top_k as int,
            moe::capacity_of(n, e, m.top_k as int, m.capacity_factor) as usize,
        ) && softmax::is_softmax(exp, logits, n, e, probs) && moe_forward::are_gates(
            exp,
            m.switch_gate,
            logits,
            probs,
            plan,
            n,
            e,
            w,
        ) && moe_layer::mixes(m, gelu, swiglu, x, n, d, plan.sel@, w, y)
}

/// Whether a feed-forward layer may make `f` of the rows `x` while its own layers receive `seen`.
/// Experts report nothing.
pub open spec fn ffn_traced<E: Fn(u32) -> u32, G: Fn(u32) -> u32, S: Fn(u32, u32) -> u32>(
    m: FfnView,
    exp: &E,
    gelu: &G,
    swiglu: &S,
    x: Seq<u32>,
    n: int,
    d: int,
    f: Seq<u32>,
    seen: Seq<Seq<u32>>,
) -> bool {
    match m {
        FfnView::Dense(MlpView::Plain { first, second }) => {
            &&& seen.len() == 2
            &&& seen[0] == x
            &&& mlp::activated(gelu, first.output(x, n), seen[1])
            &&& f == second.output(seen[1], n)
        },
        FfnView::Dense(MlpView::Gated { gate, up, down }) => {
            &&& seen.len() == 3
            &&& seen[0] == x
            &&& seen[1] == x
            &&& mlp::gated(swiglu, gate.output(x, n), up.output(x, n), seen[2])
            &&& f == down.output(seen[2], n)
        },
        FfnView::Moe(m) => seen.len() == 0 && answers(m, exp, gelu, swiglu, x, n, d, f),
    }
}

/// The rows between the halves of a block whose output projection received `rows`.
pub open spec fn middle(b: BlockView, x: Seq<u32>, rows: Seq<u32>, n: int) -> Seq<u32> {
    matrix::total(x, b.attn.proj.output(rows, n))
}

/// Whether a block may make `y` of `n` rows `x` while its layers receive `seen`: the three
/// projections the normalised rows, the output projection the mixed `rows`, and the feed-forward
/// layer, which makes `f`, hands on `rest`.
pub open spec fn halves_traced<
    M: Fn(usize, Vec<u32>, &Sight) -> Vec<u32>,
    E: Fn(u32) -> u32,
    G: Fn(u32) -> u32,
    S: Fn(u32, u32) -> u32,
>(
    b: BlockView,
    mix: &M,
    sight: Sight,
    exp: &E,
    gelu: &G,
    swiglu: &S,
    layer: usize,
    x: Seq<u32>,
    n: int,
    d: int,
    y: Seq<u32>,
    seen: Seq<Seq<u32>>,
    rows: Seq<u32>,
    f: Seq<u32>,
    rest: Seq<Seq<u32>>,
) -> bool {
    let a = b.ln1.output(x, d);
    let mid = middle(b, x, rows, n);
    &&& forward::attends(mix, sight, layer, a, rows)
    &&& ffn_traced(b.ffn, exp, gelu, swiglu, b.ln2.output(mid, d), n, d, f, rest)
    &&& y == matrix::total(mid, f)
    &&& seen == seq![a, a, a, rows] + rest
}

/// Whether a block may make `y` of `n` rows `x` while its layers receive `seen`.
pub open spec fn block_traced<
    M: Fn(usize, Vec<u32>, &Sight) -> Vec<u32>,
    E: Fn(u32) -> u32,
    G: Fn(u32) -> u32,
    S: Fn(u32, u32) -> u32,
>(
    b: BlockView,
    mix: &M,
    sight: Sight,
    exp: &E,
    gelu: &G,
    swiglu: &S,
    layer: usize,
    x: Seq<u32>,
    n: int,
    d: int,
    y: Seq<u32>,
    seen: Seq<Seq<u32>>,
) -> bool {
    exists|rows: Seq<u32>, f: Seq<u32>, rest: Seq<Seq<u32>>| #[trigger]
        halves_traced(
            b,
            mix,
            sight,
            exp,
            gelu,
            swiglu,
            layer,
            x,
            n,
            d,
            y,
            seen,
            rows,
            f,
            rest,
        )
}

/// Whether the first `k` blocks may lead from state to state while their layers receive `parts`.
pub open spec fn are_traced<
    M: Fn(usize, Vec<u32>, &Sight) -> Vec<u32>,
    E: Fn(u32) -> u32,
    G: Fn(u32) -> u32,
    S: Fn(u32, u32) -> u32,
>(
    blocks: Seq<BlockView>,
    mix: &M,
    sight: Sight,
    exp: &E,
    gelu: &G,
    swiglu: &S,
    n: int,
    d: int,
    states: Seq<Seq<u32>>,
    parts: Seq<Seq<Seq<u32>>>,
    k: int,
) -> bool {
    forall|i: int|
        0 <= i < k ==> block_traced(
            blocks[i],
            mix,
            sight,
            exp,
            gelu,
            swiglu,
            i as usize,
            states[i],
            n,
            d,
            states[i + 1],
            #[trigger] parts[i],
        )
}

/// The first `k` parts, one after the other.
pub open spec fn joined(parts: Seq<Seq<Seq<u32>>>, k: nat) -> Seq<Seq<u32>>
    decreases k,
{
    if k == 0 {
        Seq::empty()
    } else {
        joined(parts, (k - 1) as nat) + parts[k - 1]
    }
}

/// Whether a record holds these rows as matrices, one per layer and as wide as its inputs.
pub open spec fn are_matrices(
    c: Seq<Captured>,
    rows: Seq<Seq<u32>>,
    ls: Seq<(Seq<char>, LinearView)>,
    n: int,
) -> bool {
    &&& c.len() == rows.len()
    &&& c.len() == ls.len()
    &&& forall|i: int|
        0 <= i < c.len() ==> (#[trigger] c[i]).data@ == rows[i] && c[i].shape@ == seq![
            n as usize,
            ls[i].1.inputs(),
        ] && c[i].data@.len() == n * ls[i].1.inputs()
}

/// Whether these states and parts explain a record.
pub open spec fn explains<
    M: Fn(usize, Vec<u32>, &Sight) -> Vec<u32>,
    E: Fn(u32) -> u32,
    G: Fn(u32) -> u32,
    S: Fn(u32, u32) -> u32,
>(
    m: ModelView,
    mix: &M,
    sight: Sight,
    exp: &E,
    gelu: &G,
    swiglu: &S,
    idx: Seq<usize>,
    states: Seq<Seq<u32>>,
    parts: Seq<Seq<Seq<u32>>>,
    c: Seq<Captured>,
) -> bool {
    let n = idx.len() as int;
    let d = m.cfg.n_embd as int;
    &&& model_run::is_sight(sight, CacheState { seen: 0, window: 0 }, n)
    &&& states.len() == m.blocks.len() + 1
    &&& states[0] == matrix::picked(m.table.data, d, idx)
    &&& parts.len() == m.blocks.len()
    &&& are_traced(
        m.blocks,
        mix,
        sight,
        exp,
        gelu,
        swiglu,
        n,
        d,
        states,
        parts,
        m.blocks.len() as int,
    )
    &&& are_matrices(c, joined(parts, m.blocks.len()), m.linears(), n)
}

/// Whether this may be what the layers of a model receive, in the order of their names, while one
/// sequence runs through it.
pub open spec fn is_trace<
    M: Fn(usize, Vec<u32>, &Sight) -> Vec<u32>,
    E: Fn(u32) -> u32,
    G: Fn(u32) -> u32,
    S: Fn(u32, u32) -> u32,
>(m: ModelView, mix: &M, exp: &E, gelu: &G, swiglu: &S, idx: Seq<usize>, c: Seq<Captured>) -> bool {
    exists|sight: Sight, states: Seq<Seq<u32>>, parts: Seq<Seq<Seq<u32>>>| #[trigger]
        explains(m, mix, sight, exp, gelu, swiglu, idx, states, parts, c)
}

/// Whether a model can take a sequence of `n` tokens at once.
pub open spec fn takes_sequence<M: Fn(usize, Vec<u32>, &Sight) -> Vec<u32>>(
    m: ModelView,
    mix: &M,
    n: int,
) -> bool {
    &&& n * n <= usize::MAX
    &&& n * m.cfg.n_embd <= usize::MAX
    &&& forward::model_fits(m, n)
    &&& forall|i: int|
        0 <= i < m.blocks.len() ==> mlp::rows_fit((#[trigger] m.blocks[i]).attn.proj, n)
    &&& forward::keeps_rows(mix, n * m.cfg.n_embd)
}

/// A copy of some rows as a matrix.
fn captured(rows: &Vec<u32>, n: usize, width: usize) -> (c: Captured)
    ensures
        c.data@ == rows@,
        c.shape@ == seq![n, width],
{
    let c: Captured = Captured { data: rows.clone(), shape: vec![n, width] };
    assert(c.data@ =~= rows@);
    c
}

/// How many rows an input of this shape has: its last dimension is the width of a row.
pub open spec fn row_count(shape: Seq<usize>) -> int {
    if shape.len() == 3 {
        shape[0] * shape[1]
    } else {
        shape[0] as int
    }
}

impl Linear {
    /// The output for an input of two or three dimensions, and the input as a record keeps it: one
    /// row per token. Another number of dimensions is handed back as an error.
    pub fn recorded(&self, x: &Vec<u32>, shape: &[usize]) -> (r: Result<(Vec<u32>, Captured), usize>)
        requires
            self@.wf(),
            shape@.len() == 2 || shape@.len() == 3 ==> {
                &&& shape@.last() == self@.inputs()
                &&& x@.len() == row_count(shape@) * self@.inputs()
                &&& row_count(shape@) <= usize::MAX
                &&& mlp::rows_fit(self@, row_count(shape@))
            },
        ensures
            r is Ok <==> shape@.len() == 2 || shape@.len() == 3,
            r matches Err(rank) ==> rank == shape@.len(),
            r matches Ok((y, c)) ==> {
                &&& y@ == self@.output(x@, row_count(shape@))
                &&& c.data@ == x@
                &&& c.shape@ == seq![row_count(shape@) as usize, self@.inputs()]
            },
    {
        let n: usize = if shape.len() == 2 {
            shape[0]
        } else if shape.len() == 3 {
            shape[0] * shape[1]
        } else {
            return Err(shape.len());
        };
        let (width, _) = self.dims();
        Ok((self.forward(x, n), captured(x, n, width)))
    }
}

impl MoELayer {
    /// The output for `n` rows; nothing is kept of the pass.
    pub fn answer<E: Fn(u32) -> u32, G: Fn(u32) -> u32, S: Fn(u32, u32) -> u32>(
        &self,
        x: &[u32],
        n: usize,
        d: usize,
        exp: &E,
        gelu: &G,
        swiglu: &S,
    ) -> (y: Vec<u32>)
        requires
            self@.wf(d),
            n > 0,
            x@.len() == n * d,
            forward::ffn_fits(FfnView::Moe(self@), n as int),
            forall|v: u32| call_requires(exp, (v,)),
            forall|v: u32| call_requires(gelu, (v,)),
            forall|v: u32, u: u32| call_requires(swiglu, (v, u)),
        ensures
            answers(self@, exp, gelu, swiglu, x@, n as int, d as int, y@),
            y@.len() == n * d,
    {
        let ghost m = self@;
        let n_expert: usize = self.experts.len();
        let logits: Vec<u32> = self.logits(x, n, d);
        let plan: RoutePlan = self.route_plan(x, n, d);
        proof {
            moe_layer::routings_are_selections(
                plan,
                logits@,
                n as int,
                n_expert as int,
                m.top_k as int,
                moe::capacity_of(
                    n as int,
                    n_expert as int,
                    m.top_k as int,
                    m.capacity_factor,
                ) as usize,
            );
        }
        let probs: Vec<u32> = softmax::softmax_rows(exp, &logits, n, n_expert);
        let w: Vec<u32> = moe_forward::gates(self.switch_gate, exp, &logits, &probs, &plan, n, n_expert);
        assert(moe_forward::are_gates(
            exp,
            m.switch_gate,
            logits@,
            probs@,
            plan,
            n as int,
            n_expert as int,
            w@,
        ));
        self.mix(x, n, d, &plan, &w, gelu, swiglu)
    }
}

impl Ffn {
    /// The output for `n` rows, and what the layers received on the way.
    fn traced<E: Fn(u32) -> u32, G: Fn(u32) -> u32, S: Fn(u32, u32) -> u32>(
        &self,
        x: &Vec<u32>,
        n: usize,
        d: usize,
        exp: &E,
        gelu: &G,
        swiglu: &S,
        Ghost(prefix): Ghost<Seq<char>>,
    ) -> (r: (Vec<u32>, Vec<Captured>))
        requires
            self@.wf(d),
            n > 0,
            x@.len() == n * d,
            forward::ffn_fits(self@, n as int),
            forall|v: u32| call_requires(exp, (v,)),
            forall|v: u32| call_requires(gelu, (v,)),
            forall|v: u32, u: u32| call_requires(swiglu, (v, u)),
        ensures
            r.0@.len() == n * d,
            exists|seen: Seq<Seq<u32>>| #[trigger]
                ffn_traced(self@, exp, gelu, swiglu, x@, n as int, d as int, r.0@, seen)
                    && are_matrices(r.1@, seen, self@.linears(prefix), n as int),
    {
        let ghost mut rows: Seq<Seq<u32>> = Seq::empty();
        let r: (Vec<u32>, Vec<Captured>) = match self {
            Ffn::Dense(MLPEnum::GELU { linear1, linear2 }) => {
                let pre: Vec<u32> = linear1.forward(x, n);
                let hidden: Vec<u32> = mlp::activate(gelu, &pre);
                let (width, _) = linear2.dims();
                let f: Vec<u32> = linear2.forward(&hidden, n);
                proof {
                    rows = seq![x@, hidden@];
                }
                (f, vec![captured(x, n, d), captured(&hidden, n, width)])
            },
            Ffn::Dense(MLPEnum::SwiGLU(m)) => {
                let gate: Vec<u32> = m.w_gate.forward(x, n);
                let up: Vec<u32> = m.w_up.forward(x, n);
                let hidden: Vec<u32> = mlp::gate_all(swiglu, &gate, &up);
                let (width, _) = m.w_down.dims();
                let f: Vec<u32> = m.w_down.forward(&hidden, n);
                proof {
                    rows = seq![x@, x@, hidden@];
                }
                (f, vec![captured(x, n, d), captured(x, n, d), captured(&hidden, n, width)])
            },
            Ffn::Moe(m) => (m.answer(x, n, d, exp, gelu, swiglu), Vec::new()),
        };
        assert(ffn_traced(self@, exp, gelu, swiglu, x@, n as int, d as int, r.0@, rows));
        assert(are_matrices(r.1@, rows, self@.linears(prefix), n as int));
        r
    }
}

impl TransformerBlock {
    /// The output for `n` rows, and what the layers received on the way.
    fn traced<
        M: Fn(usize, Vec<u32>, &Sight) -> Vec<u32>,
        E: Fn(u32) -> u32,
        G: Fn(u32) -> u32,
        S: Fn(u32, u32) -> u32,
    >(
        &self,
        x: &Vec<u32>,
        n: usize,
        d: usize,
        layer: usize,
        mix: &M,
        sight: &Sight,
        exp: &E,
        gelu: &G,
        swiglu: &S,
    ) -> (r: (Vec<u32>, Vec<Captured>))
        requires
            self@.wf(d),
            n > 0,
            x@.len() == n * d,
            n * d <= usize::MAX,
            forward::ffn_fits(self@.ffn, n as int),
            mlp::rows_fit(self@.attn.proj, n as int),
            forward::keeps_rows(mix, n * d),
            forall|v: u32| call_requires(exp, (v,)),
            forall|v: u32| call_requires(gelu, (v,)),
            forall|v: u32, u: u32| call_requires(swiglu, (v, u)),
        ensures
            r.0@.len() == n * d,
            exists|seen: Seq<Seq<u32>>| #[trigger]
                block_traced(
                    self@,
                    mix,
                    *sight,
                    exp,
                    gelu,
                    swiglu,
                    layer,
                    x@,
                    n as int,
                    d as int,
                    r.0@,
                    seen,
                ) && are_matrices(
                    r.1@,
                    seen,
                    self@.linears(model::block_name(layer as nat)),
                    n as int,
                ),
    {
        let ghost b = self@;
        let ghost prefix = model::block_name(layer as nat);
        let a: Vec<u32> = self.ln1.forward(x, n, d);
        assert(b.ln1.output(x@, d as int).len() == x@.len());
        let mut seen: Vec<Captured> = vec![
            captured(&a, n, d),
            captured(&a, n, d),
            captured(&a, n, d),
        ];
        let ghost given = a;
        let rows: Vec<u32> = mix(layer, a, sight);
        assert(call_ensures(mix, (layer, given, sight), rows));
        assert(forward::attends(mix, *sight, layer, b.ln1.output(x@, d as int), rows@));
        seen.push(captured(&rows, n, d));
        let h: Vec<u32> = self.attn.c_proj.forward(&rows, n);
        let mid: Vec<u32> = matrix::add_matrices(x, &h);
        assert(mid@ == middle(b, x@, rows@, n as int));
        let a: Vec<u32> = self.ln2.forward(&mid, n, d);
        assert(b.ln2.output(mid@, d as int).len() == mid@.len());
        let ghost first = seen@;
        let (f, mut more) = self.ffn.traced(&a, n, d, exp, gelu, swiglu, Ghost(prefix));
        let ghost rest_data = more@;
        let y: Vec<u32> = matrix::add_matrices(&mid, &f);
        seen.append(&mut more);
        let ghost mut all: Seq<Seq<u32>> = Seq::empty();
        proof {
            let rest = choose|rest: Seq<Seq<u32>>| #[trigger]
                ffn_traced(b.ffn, exp, gelu, swiglu, a@, n as int, d as int, f@, rest)
                    && are_matrices(rest_data, rest, b.ffn.linears(prefix), n as int);
            let n1 = given@;
            all = seq![n1, n1, n1, rows@] + rest;
            assert(halves_traced(
                b,
                mix,
                *sight,
                exp,
                gelu,
                swiglu,
                layer,
                x@,
                n as int,
                d as int,
                y@,
                all,
                rows@,
                f@,
                rest,
            ));
            assert(block_traced(
                b,
                mix,
                *sight,
                exp,
                gelu,
                swiglu,
                layer,
                x@,
                n as int,
                d as int,
                y@,
                all,
            ));
            let ls = b.attn.linears(prefix + ".attn"@);
            assert(b.linears(prefix) == ls + b.ffn.linears(prefix));
            assert(seen@ == first + rest_data);
            assert forall|i: int| 0 <= i < seen@.len() implies (#[trigger] seen@[i]).data@ == all[i]
                && seen@[i].shape@ == seq![n, b.linears(prefix)[i].1.inputs()]
                && seen@[i].data@.len() == n * b.linears(prefix)[i].1.inputs() by {
                if i < 4 {
                    assert(seen@[i] == first[i]);
                    assert(b.linears(prefix)[i] == ls[i]);
                } else {
                    assert(seen@[i] == rest_data[i - 4]);
                    assert(b.linears(prefix)[i] == b.ffn.linears(prefix)[i - 4]);
                    assert(all[i] == rest[i - 4]);
                }
            }
            assert(are_matrices(seen@, all, b.linears(prefix), n as int));
        }
        let r: (Vec<u32>, Vec<Captured>) = (y, seen);
        assert(block_traced(
            self@,
            mix,
            *sight,
            exp,
            gelu,
            swiglu,
            layer,
            x@,
            n as int,
            d as int,
            r.0@,
            all,
        ));
        assert(are_matrices(
            r.1@,
            all,
            self@.linears(model::block_name(layer as nat)),
            n as int,
        ));
        r
    }
}

impl GPT {
    /// Runs one sequence and records what every layer received, in the order of their names. `mix`
    /// is attention up to its output projection: it turns the normalised rows of a block into what
    /// that projection receives.
    #[verifier::rlimit(40)]
    pub fn traced<
        M: Fn(usize, Vec<u32>, &Sight) -> Vec<u32>,
        E: Fn(u32) -> u32,
        G: Fn(u32) -> u32,
        S: Fn(u32, u32) -> u32,
    >(&self, idx: &[usize], mix: &M, exp: &E, gelu: &G, swiglu: &S) -> (c: Vec<Captured>)
        requires
            self@.wf(),
            idx@.len() > 0,
            forall|i: int| 0 <= i < idx@.len() ==> #[trigger] idx@[i] < self@.cfg.vocab_size,
            takes_sequence(self@, mix, idx@.len() as int),
            forall|v: u32| call_requires(exp, (v,)),
            forall|v: u32| call_requires(gelu, (v,)),
            forall|v: u32, u: u32| call_requires(swiglu, (v, u)),
        ensures
            is_trace(self@, mix, exp, gelu, swiglu, idx@, c@),
            c@.len() == self@.linears().len(),
            forall|i: int| 0 <= i < c@.len() ==> (#[trigger] c@[i]).wf(idx@.len() as int),
    {
        let ghost m = self@;
        let d: usize = self.cfg.n_embd;
        let n: usize = idx.len();
        let sight: Sight = model_run::sight(None, n);
        let mut x: Vec<u32> = self.embed(idx, 1, n);
        let mut c: Vec<Captured> = Vec::new();
        let ghost mut states: Seq<Seq<u32>> = seq![x@];
        let ghost mut parts: Seq<Seq<Seq<u32>>> = Seq::empty();
        let layers: usize = self.blocks.len();
        for i in 0..layers
            invariant
                m == self@,
                m.wf(),
                n > 0,
                n == idx@.len(),
                d == m.cfg.n_embd,
                layers == self.blocks@.len(),
                layers == m.blocks.len(),
                takes_sequence(m, mix, n as int),
                forall|v: u32| call_requires(exp, (v,)),
                forall|v: u32| call_requires(gelu, (v,)),
                forall|v: u32, u: u32| call_requires(swiglu, (v, u)),
                x@.len() == n * d,
                states.len() == i + 1,
                states[0] == matrix::picked(m.table.data, d as int, idx@),
                states[i as int] == x@,
                parts.len() == i,
                are_traced(
                    m.blocks,
                    mix,
                    sight,
                    exp,
                    gelu,
                    swiglu,
                    n as int,
                    d as int,
                    states,
                    parts,
                    i as int,
                ),
                are_matrices(
                    c@,
                    joined(parts, i as nat),
                    model::stack_linears(m.blocks, i as nat),
                    n as int,
                ),
        {
            let ghost b = m.blocks[i as int];
            assert(b == self.blocks@[i as int]@);
            assert(b.wf(d));
            let (y, mut more) = self.blocks[i].traced(
                &x,
                n,
                d,
                i,
                mix,
                &sight,
                exp,
                gelu,
                swiglu,
            );
            let ghost before = c@;
            let ghost added = more@;
            c.append(&mut more);
            proof {
                let part = choose|part: Seq<Seq<u32>>| #[trigger]
                    block_traced(
                        b,
                        mix,
                        sight,
                        exp,
                        gelu,
                        swiglu,
                        i,
                        x@,
                        n as int,
                        d as int,
                        y@,
                        part,
                    ) && are_matrices(
                        added,
                        part,
                        b.linears(model::block_name(i as nat)),
                        n as int,
                    );
                let was = states;
                let had = parts;
                states = was.push(y@);
                parts = had.push(part);
                assert forall|j: int| 0 <= j < i + 1 implies block_traced(
                    m.blocks[j],
                    mix,
                    sight,
                    exp,
                    gelu,
                    swiglu,
                    j as usize,
                    states[j],
                    n as int,
                    d as int,
                    states[j + 1],
                    #[trigger] parts[j],
                ) by {
                    if j < i {
                        assert(parts[j] == had[j]);
                        assert(states[j] == was[j]);
                        assert(states[j + 1] == was[j + 1]);
                    } else {
                        assert(states[j] == x@);
                    }
                }
                lemma_joined_is_local(had, part, i as nat);
                let ls = model::stack_linears(m.blocks, i as nat);
                let more_ls = b.linears(model::block_name(i as nat));
                assert(model::stack_linears(m.blocks, (i + 1) as nat) == ls + more_ls);
                let rows = joined(had, i as nat);
                assert(joined(parts, (i + 1) as nat) == rows + part);
                assert(c@ == before + added);
                assert forall|j: int| 0 <= j < c@.len() implies (#[trigger] c@[j]).data@ == (rows
                    + part)[j] && c@[j].shape@ == seq![n, (ls + more_ls)[j].1.inputs()]
                    && c@[j].data@.len() == n * (ls + more_ls)[j].1.inputs() by {
                    if j < before.len() {
                        assert(c@[j] == before[j]);
                        assert((ls + more_ls)[j] == ls[j]);
                        assert((rows + part)[j] == rows[j]);
                    } else {
                        let q = j - before.len();
                        assert(c@[j] == added[q]);
                        assert((ls + more_ls)[j] == more_ls[q]);
                        assert((rows + part)[j] == part[q]);
                    }
                }
            }
            x = y;
        }
        proof {
            assert(explains(m, mix, sight, exp, gelu, swiglu, idx@, states, parts, c@));
        }
        c
    }
}

/// A further part leaves the earlier ones as they are.
proof fn lemma_joined_is_local(parts: Seq<Seq<Seq<u32>>>, part: Seq<Seq<u32>>, k: nat)
    requires
        k <= parts.len(),
    ensures
        joined(parts.push(part), k) == joined(parts, k),
    decreases k,
{
    if k > 0 {
        lemma_joined_is_local(parts, part, (k - 1) as nat);
    }
}

/// A recorded pass through a dense block is a forward pass: where attention is the mixing followed
/// by the output projection and nothing is dropped, the block makes the same rows.
pub proof fn recorded_blocks_run_forward<
    A: Fn(usize, Vec<u32>, &Sight) -> Vec<u32>,
    M: Fn(usize, Vec<u32>, &Sight) -> Vec<u32>,
    D: Fn(Vec<u32>, u32, bool) -> Vec<u32>,
    E: Fn(u32) -> u32,
    L: Fn(u32) -> u32,
    G: Fn(u32) -> u32,
    S: Fn(u32, u32) -> u32,
>(
    b: BlockView,
    attn: &A,
    mix: &M,
    sight: Sight,
    drop: &D,
    training: bool,
    exp: &E,
    ln: &L,
    gelu: &G,
    swiglu: &S,
    layer: usize,
    x: Seq<u32>,
    n: int,
    d: int,
    y: Seq<u32>,
    seen: Seq<Seq<u32>>,
)
    requires
        b.ffn is Dense,
        !float_bits::positive(b.dropout),
        forall|rows: Seq<u32>|
            #![trigger b.attn.proj.output(rows, n)]
            forward::attends(mix, sight, layer, b.ln1.output(x, d), rows) ==> forward::attends(
                attn,
                sight,
                layer,
                b.ln1.output(x, d),
                b.attn.proj.output(rows, n),
            ),
        block_traced(b, mix, sight, exp, gelu, swiglu, layer, x, n, d, y, seen),
    ensures
        forward::passes(
            b,
            attn,
            sight,
            drop,
            training,
            exp,
            ln,
            gelu,
            swiglu,
            layer,
            x,
            n,
            d,
            y,
            (PassRecord { aux: None, used: None }),
        ),
{
    let a = b.ln1.output(x, d);
    let (rows, f, rest) = choose|rows: Seq<u32>, f: Seq<u32>, rest: Seq<Seq<u32>>| #[trigger]
        halves_traced(
            b,
            mix,
            sight,
            exp,
            gelu,
            swiglu,
            layer,
            x,
            n,
            d,
            y,
            seen,
            rows,
            f,
            rest,
        );
    let h = b.attn.proj.output(rows, n);
    let mid = middle(b, x, rows, n);
    let kept = PassRecord { aux: None, used: None };
    assert(forward::attends(attn, sight, layer, a, h));
    assert(forward::drops(drop, training, b.dropout, h, h));
    assert(forward::attended(b, attn, sight, drop, training, layer, x, d, mid));
    let hidden = rest.last();
    match b.ffn->Dense_0 {
        MlpView::Plain { first, second } => {
            assert(f == second.output(hidden, n));
        },
        MlpView::Gated { gate, up, down } => {
            assert(f == down.output(hidden, n));
        },
    }
    assert(forward::feeds(b.ffn, exp, ln, gelu, swiglu, b.ln2.output(mid, d), n, d, f, kept));
    assert(forward::drops(drop, training, b.dropout, f, f));
    assert(forward::fed(b, drop, training, exp, ln, gelu, swiglu, mid, n, d, y, kept));
}

} // verus!
