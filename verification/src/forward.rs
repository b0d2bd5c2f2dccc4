//! Forward passes: blocks with their residual sums, and the whole stack.
//!
//! Attention and dropout are handed in, and so are the curves whose last bits depend on the
//! machine.

use crate::block;
use crate::block::{BlockView, Ffn, FfnView, PassRecord, TransformerBlock};
use crate::float_bits;
use crate::matrix;
use crate::mlp;
use crate::model::{ModelView, GPT};
use crate::model_run;
use crate::model_run::{CacheState, Sight};
use crate::moe::RoutePlan;
use crate::moe_forward;
use crate::moe_forward::Forward;
use crate::moe_layer;
use vstd::prelude::*;

verus! {

/// Whether attention of a layer may make `r` of the rows `h`, seeing what it is told.
pub open spec fn attends<A: Fn(usize, Vec<u32>, &Sight) -> Vec<u32>>(
    attn: &A,
    sight: Sight,
    layer: usize,
    h: Seq<u32>,
    r: Seq<u32>,
) -> bool {
    exists|c: Vec<u32>, o: Vec<u32>|
        c@ == h && o@ == r && #[trigger] call_ensures(attn, (layer, c, &sight), o)
}

/// Attention keeps the number of rows and their width.
pub open spec fn keeps_rows<A: Fn(usize, Vec<u32>, &Sight) -> Vec<u32>>(
    attn: &A,
    size: int,
) -> bool {
    &&& forall|layer: usize, c: Vec<u32>, s: &Sight|
        c@.len() == size ==> #[trigger] call_requires(attn, (layer, c, s))
    &&& forall|layer: usize, c: Vec<u32>, s: &Sight, o: Vec<u32>| #[trigger]
        call_ensures(attn, (layer, c, s), o) && c@.len() == size ==> o@.len() == size
}

/// Whether dropout with rate `p` may make `r` of `h`; a rate of zero leaves all as it is.
pub open spec fn drops<D: Fn(Vec<u32>, u32, bool) -> Vec<u32>>(
    drop: &D,
    training: bool,
    p: u32,
    h: Seq<u32>,
    r: Seq<u32>,
) -> bool {
    if float_bits::positive(p) {
        exists|c: Vec<u32>, o: Vec<u32>|
            c@ == h && o@ == r && #[trigger] call_ensures(drop, (c, p, training), o)
    } else {
        r == h
    }
}

/// Dropout keeps the number of values.
pub open spec fn keeps_size<D: Fn(Vec<u32>, u32, bool) -> Vec<u32>>(drop: &D, size: int) -> bool {
    &&& forall|c: Vec<u32>, p: u32, training: bool|
        c@.len() == size ==> #[trigger] call_requires(drop, (c, p, training))
    &&& forall|c: Vec<u32>, p: u32, training: bool, o: Vec<u32>| #[trigger]
        call_ensures(drop, (c, p, training), o) && c@.len() == size ==> o@.len() == size
}

fn dropped<D: Fn(Vec<u32>, u32, bool) -> Vec<u32>>(
    drop: &D,
    training: bool,
    p: u32,
    h: Vec<u32>,
) -> (r: Vec<u32>)
    requires
        keeps_size(drop, h@.len() as int),
    ensures
        drops(drop, training, p, h@, r@),
        r@.len() == h@.len(),
{
    if float_bits::is_positive(p) {
        let ghost c = h;
        let r: Vec<u32> = drop(h, p, training);
        assert(call_ensures(drop, (c, p, training), r));
        r
    } else {
        h
    }
}

/// Whether the feed-forward layer may make `f` of the rows `x`, keeping `kept` of the pass.
pub open spec fn feeds<
    E: Fn(u32) -> u32,
    L: Fn(u32) -> u32,
    G: Fn(u32) -> u32,
    S: Fn(u32, u32) -> u32,
>(
    m: FfnView,
    exp: &E,
    ln: &L,
    gelu: &G,
    swiglu: &S,
    x: Seq<u32>,
    n: int,
    d: int,
    f: Seq<u32>,
    kept: PassRecord,
) -> bool {
    match m {
        FfnView::Dense(m) => mlp::produces(m, gelu, swiglu, x, n, f) && kept.aux is None
            && kept.used is None,
        FfnView::Moe(m) => kept.used is Some && exists|plan: RoutePlan| #[trigger]
            moe_forward::is_forward(
                m,
                exp,
                ln,
                gelu,
                swiglu,
                x,
                n,
                d,
                plan,
                f,
                kept.used->0.aux,
                kept.aux,
            ) && moe_layer::is_record(kept.used->0, plan, n),
    }
}

/// Whether a feed-forward layer can take `n` rows.
pub open spec fn ffn_fits(m: FfnView, n: int) -> bool {
    match m {
        FfnView::Dense(m) => mlp::block_fits(m, n),
        FfnView::Moe(m) => {
            &&& n * m.experts.len() <= usize::MAX
            &&& forall|e: int|
                0 <= e < m.experts.len() ==> mlp::block_fits(#[trigger] m.experts[e], n)
        },
    }
}

/// The half of a block that attends: `x` plus what attention makes of its normalised rows.
pub open spec fn attended<A: Fn(usize, Vec<u32>, &Sight) -> Vec<u32>, D: Fn(Vec<u32>, u32, bool) -> Vec<u32>>(
    b: BlockView,
    attn: &A,
    sight: Sight,
    drop: &D,
    training: bool,
    layer: usize,
    x: Seq<u32>,
    d: int,
    mid: Seq<u32>,
) -> bool {
    exists|h: Seq<u32>, r: Seq<u32>| #[trigger]
        attends(attn, sight, layer, b.ln1.output(x, d), h) && #[trigger] drops(drop, training, b.dropout, h, r)
            && mid == matrix::total(x, r)
}

/// The half of a block that feeds forward: `mid` plus what the layer makes of its normalised rows.
pub open spec fn fed<
    D: Fn(Vec<u32>, u32, bool) -> Vec<u32>,
    E: Fn(u32) -> u32,
    L: Fn(u32) -> u32,
    G: Fn(u32) -> u32,
    S: Fn(u32, u32) -> u32,
>(
    b: BlockView,
    drop: &D,
    training: bool,
    exp: &E,
    ln: &L,
    gelu: &G,
    swiglu: &S,
    mid: Seq<u32>,
    n: int,
    d: int,
    y: Seq<u32>,
    kept: PassRecord,
) -> bool {
    exists|f: Seq<u32>, r: Seq<u32>| #[trigger]
        feeds(b.ffn, exp, ln, gelu, swiglu, b.ln2.output(mid, d), n, d, f, kept) && #[trigger] drops(
            drop,
            training,
            b.dropout,
            f,
            r,
        ) && y == matrix::total(mid, r)
}

/// Whether a block may make `y` of `n` rows `x`, keeping `kept` of the pass.
pub open spec fn passes<
    A: Fn(usize, Vec<u32>, &Sight) -> Vec<u32>,
    D: Fn(Vec<u32>, u32, bool) -> Vec<u32>,
    E: Fn(u32) -> u32,
    L: Fn(u32) -> u32,
    G: Fn(u32) -> u32,
    S: Fn(u32, u32) -> u32,
>(
    b: BlockView,
    attn: &A,
    sight: Sight,
    drop: &D,
    training: bool,
    exp: &E,
    ln: &L,
    gelu: &G,
    swiglu: &S,
    layer: usize,
    x: Seq<u32>,
    n: int,
    d: int,
    y: Seq<u32>,
    kept: PassRecord,
) -> bool {
    exists|mid: Seq<u32>| #[trigger]
        attended(b, attn, sight, drop, training, layer, x, d, mid) && #[trigger] fed(
            b,
            drop,
            training,
            exp,
            ln,
            gelu,
            swiglu,
            mid,
            n,
            d,
            y,
            kept,
        )
}

impl Ffn {
    /// The output for `n` rows and the loss that keeps experts balanced; a dense layer has none.
    pub fn forward_with_aux<
        E: Fn(u32) -> u32,
        L: Fn(u32) -> u32,
        G: Fn(u32) -> u32,
        S: Fn(u32, u32) -> u32,
    >(
        &mut self,
        x: &[u32],
        n: usize,
        d: usize,
        exp: &E,
        ln: &L,
        gelu: &G,
        swiglu: &S,
    ) -> (r: (Vec<u32>, Option<u32>))
        requires
            old(self)@.wf(d),
            n > 0,
            x@.len() == n * d,
            ffn_fits(old(self)@, n as int),
            forall|v: u32| call_requires(exp, (v,)),
            forall|v: u32| call_requires(ln, (v,)),
            forall|v: u32| call_requires(gelu, (v,)),
            forall|v: u32, u: u32| call_requires(swiglu, (v, u)),
        ensures
            final(self)@ == old(self)@,
            feeds(
                old(self)@,
                exp,
                ln,
                gelu,
                swiglu,
                x@,
                n as int,
                d as int,
                r.0@,
                (PassRecord { aux: r.1, used: final(self).usage() }),
            ),
            r.0@.len() == n * d,
    {
        let ghost before = self@;
        let ghost mut plan: Option<RoutePlan> = None;
        let r: (Vec<u32>, Option<u32>) = match self {
            Ffn::Dense(m) => (m.forward(x, n, d, gelu, swiglu), None),
            Ffn::Moe(m) => {
                let f: Forward = m.forward_with_aux(x, n, d, exp, ln, gelu, swiglu);
                proof {
                    plan = Some(f.plan);
                }
                (f.y, f.aux)
            },
        };
        proof {
            if before is Moe {
                let kept = PassRecord { aux: r.1, used: self.usage() };
                assert(moe_layer::is_record(kept.used->0, plan->0, n as int));
                assert(moe_forward::is_forward(
                    before->Moe_0,
                    exp,
                    ln,
                    gelu,
                    swiglu,
                    x@,
                    n as int,
                    d as int,
                    plan->0,
                    r.0@,
                    kept.used->0.aux,
                    kept.aux,
                ));
            }
        }
        r
    }
}

impl TransformerBlock {
    /// The output of a block for `n` rows: each half adds to what it was given. The loss of its
    /// experts is kept.
    pub fn forward<
        A: Fn(usize, Vec<u32>, &Sight) -> Vec<u32>,
        D: Fn(Vec<u32>, u32, bool) -> Vec<u32>,
        E: Fn(u32) -> u32,
        L: Fn(u32) -> u32,
        G: Fn(u32) -> u32,
        S: Fn(u32, u32) -> u32,
    >(
        &mut self,
        x: &[u32],
        n: usize,
        d: usize,
        layer: usize,
        training: bool,
        attn: &A,
        sight: &Sight,
        drop: &D,
        exp: &E,
        ln: &L,
        gelu: &G,
        swiglu: &S,
    ) -> (y: Vec<u32>)
        requires
            old(self)@.wf(d),
            n > 0,
            x@.len() == n * d,
            ffn_fits(old(self)@.ffn, n as int),
            keeps_rows(attn, n * d),
            keeps_size(drop, n * d),
            forall|v: u32| call_requires(exp, (v,)),
            forall|v: u32| call_requires(ln, (v,)),
            forall|v: u32| call_requires(gelu, (v,)),
            forall|v: u32, u: u32| call_requires(swiglu, (v, u)),
        ensures
            final(self)@ == old(self)@,
            passes(
                old(self)@,
                attn,
                *sight,
                drop,
                training,
                exp,
                ln,
                gelu,
                swiglu,
                layer,
                x@,
                n as int,
                d as int,
                y@,
                final(self).record(),
            ),
            y@.len() == n * d,
    {
        let ghost b = self@;
        let p: u32 = self.dropout;
        assert(p == b.dropout);
        let a: Vec<u32> = self.ln1.forward(x, n, d);
        assert(b.ln1.output(x@, d as int).len() == x@.len());
        let ghost given = a;
        let h: Vec<u32> = attn(layer, a, sight);
        assert(call_ensures(attn, (layer, given, sight), h));
        assert(attends(attn, *sight, layer, b.ln1.output(x@, d as int), h@));
        let h: Vec<u32> = dropped(drop, training, p, h);
        let mid: Vec<u32> = matrix::add_matrices(x, &h);
        assert(attended(b, attn, *sight, drop, training, layer, x@, d as int, mid@));
        let a: Vec<u32> = self.ln2.forward(&mid, n, d);
        assert(b.ln2.output(mid@, d as int).len() == mid@.len());
        let (f, aux) = self.ffn.forward_with_aux(&a, n, d, exp, ln, gelu, swiglu);
        let ghost raw = f@;
        let f: Vec<u32> = dropped(drop, training, p, f);
        let y: Vec<u32> = matrix::add_matrices(&mid, &f);
        self.aux = aux;
        proof {
            assert(feeds(
                b.ffn,
                exp,
                ln,
                gelu,
                swiglu,
                b.ln2.output(mid@, d as int),
                n as int,
                d as int,
                raw,
                self.record(),
            ));
            assert(drops(drop, training, p, raw, f@));
            assert(fed(
                b,
                drop,
                training,
                exp,
                ln,
                gelu,
                swiglu,
                mid@,
                n as int,
                d as int,
                y@,
                self.record(),
            ));
        }
        y
    }
}

/// Whether `states` may be what the rows are before, between and after the first `k` blocks.
pub open spec fn are_states<
    A: Fn(usize, Vec<u32>, &Sight) -> Vec<u32>,
    D: Fn(Vec<u32>, u32, bool) -> Vec<u32>,
    E: Fn(u32) -> u32,
    L: Fn(u32) -> u32,
    G: Fn(u32) -> u32,
    S: Fn(u32, u32) -> u32,
>(
    blocks: Seq<TransformerBlock>,
    attn: &A,
    sight: Sight,
    drop: &D,
    training: bool,
    exp: &E,
    ln: &L,
    gelu: &G,
    swiglu: &S,
    n: int,
    d: int,
    states: Seq<Seq<u32>>,
    kept: Seq<PassRecord>,
    k: int,
) -> bool {
    forall|i: int|
        0 <= i < k ==> passes(
            (#[trigger] blocks[i])@,
            attn,
            sight,
            drop,
            training,
            exp,
            ln,
            gelu,
            swiglu,
            i as usize,
            states[i],
            n,
            d,
            states[i + 1],
            kept[i],
        )
}

/// Whether every block of a model can take `n` rows.
pub open spec fn model_fits(m: ModelView, n: int) -> bool {
    forall|i: int| 0 <= i < m.blocks.len() ==> ffn_fits((#[trigger] m.blocks[i]).ffn, n)
}

impl GPT {
    /// The hidden rows after the last normalisation, for `b` sequences of `t` new tokens. Attention
    /// is told what they see.
    #[verifier::rlimit(40)]
    fn forward_core<
        A: Fn(usize, Vec<u32>, &Sight) -> Vec<u32>,
        D: Fn(Vec<u32>, u32, bool) -> Vec<u32>,
        E: Fn(u32) -> u32,
        L: Fn(u32) -> u32,
        G: Fn(u32) -> u32,
        S: Fn(u32, u32) -> u32,
    >(
        &mut self,
        idx: &[usize],
        b: usize,
        t: usize,
        cache: Option<CacheState>,
        training: bool,
        attn: &A,
        drop: &D,
        exp: &E,
        ln: &L,
        gelu: &G,
        swiglu: &S,
    ) -> (y: Vec<u32>)
        requires
            old(self)@.wf(),
            idx@.len() > 0,
            idx@.len() == b * t,
            model_run::admits(model_run::state_of(cache), t as int),
            idx@.len() * old(self)@.cfg.n_embd <= usize::MAX,
            forall|i: int| 0 <= i < idx@.len() ==> #[trigger] idx@[i] < old(self)@.cfg.vocab_size,
            model_fits(old(self)@, idx@.len() as int),
            keeps_rows(attn, idx@.len() * old(self)@.cfg.n_embd),
            keeps_size(drop, idx@.len() * old(self)@.cfg.n_embd),
            forall|v: u32| call_requires(exp, (v,)),
            forall|v: u32| call_requires(ln, (v,)),
            forall|v: u32| call_requires(gelu, (v,)),
            forall|v: u32, u: u32| call_requires(swiglu, (v, u)),
        ensures
            final(self)@ == old(self)@,
            y@.len() == idx@.len() * old(self)@.cfg.n_embd,
            exists|sight: Sight, states: Seq<Seq<u32>>| #[trigger]
                is_hidden(
                    *old(self),
                    idx@,
                    attn,
                    sight,
                    drop,
                    training,
                    exp,
                    ln,
                    gelu,
                    swiglu,
                    states,
                    block::records(final(self).blocks@),
                    y@,
                ) && model_run::is_sight(sight, model_run::state_of(cache), t as int),
    {
        let ghost before = *self;
        let d: usize = self.cfg.n_embd;
        let n: usize = idx.len();
        let layers: usize = self.blocks.len();
        let sight: Sight = model_run::sight(cache, t);
        let x: Vec<u32> = self.embed(idx, b, t);
        let mut x: Vec<u32> = dropped(drop, training, self.dropout, x);
        let ghost mut states: Seq<Seq<u32>> = seq![x@];
        for i in 0..layers
            invariant
                layers == self.blocks@.len(),
                layers == before.blocks@.len(),
                n > 0,
                d == before.cfg.n_embd,
                before@.wf(),
                self.cfg == before.cfg,
                self.tok_emb.table@ == before.tok_emb.table@,
                self.ln_f@ == before.ln_f@,
                self.lora == before.lora,
                self.quant == before.quant,
                self.dropout == before.dropout,
                forall|j: int| 0 <= j < layers ==> (#[trigger] self.blocks@[j])@ == before.blocks@[j]@,
                forall|j: int| i <= j < layers ==> #[trigger] self.blocks@[j] == before.blocks@[j],
                model_fits(before@, n as int),
                keeps_rows(attn, n * d),
                keeps_size(drop, n * d),
                forall|v: u32| call_requires(exp, (v,)),
                forall|v: u32| call_requires(ln, (v,)),
                forall|v: u32| call_requires(gelu, (v,)),
                forall|v: u32, u: u32| call_requires(swiglu, (v, u)),
                x@.len() == n * d,
                states.len() == i + 1,
                states[i as int] == x@,
                drops(
                    drop,
                    training,
                    before.dropout,
                    matrix::picked(before@.table.data, d as int, idx@),
                    states[0],
                ),
                are_states(
                    before.blocks@,
                    attn,
                    sight,
                    drop,
                    training,
                    exp,
                    ln,
                    gelu,
                    swiglu,
                    n as int,
                    d as int,
                    states,
                    block::records(self.blocks@),
                    i as int,
                ),
        {
            proof {
                assert(before@.blocks[i as int] == before.blocks@[i as int]@);
                assert(before@.blocks[i as int].wf(d));
                assert(self.blocks@[i as int] == before.blocks@[i as int]);
                assert(ffn_fits(before@.blocks[i as int].ffn, n as int));
            }
            let ghost earlier = self.blocks@;
            let ghost was = states;
            let y: Vec<u32> = self.blocks[i].forward(
                &x,
                n,
                d,
                i,
                training,
                attn,
                &sight,
                drop,
                exp,
                ln,
                gelu,
                swiglu,
            );
            proof {
                states = was.push(y@);
                let kept = block::records(self.blocks@);
                assert forall|j: int| 0 <= j < i + 1 implies passes(
                    (#[trigger] before.blocks@[j])@,
                    attn,
                    sight,
                    drop,
                    training,
                    exp,
                    ln,
                    gelu,
                    swiglu,
                    j as usize,
                    states[j],
                    n as int,
                    d as int,
                    states[j + 1],
                    kept[j],
                ) by {
                    if j < i {
                        assert(self.blocks@[j] == earlier[j]);
                        assert(states[j] == was[j]);
                        assert(states[j + 1] == was[j + 1]);
                    } else {
                        assert(states[j] == x@);
                        assert(states[j + 1] == y@);
                    }
                }
            }
            x = y;
        }
        let y: Vec<u32> = self.ln_f.forward(&x, n, d);
        proof {
            assert(self@.blocks =~= before@.blocks);
            assert(is_hidden(
                before,
                idx@,
                attn,
                sight,
                drop,
                training,
                exp,
                ln,
                gelu,
                swiglu,
                states,
                block::records(self.blocks@),
                y@,
            ));
        }
        y
    }

    /// The hidden rows after the last normalisation, for `b` sequences of `t` tokens.
    pub fn forward_hidden<
        A: Fn(usize, Vec<u32>, &Sight) -> Vec<u32>,
        D: Fn(Vec<u32>, u32, bool) -> Vec<u32>,
        E: Fn(u32) -> u32,
        L: Fn(u32) -> u32,
        G: Fn(u32) -> u32,
        S: Fn(u32, u32) -> u32,
    >(
        &mut self,
        idx: &[usize],
        b: usize,
        t: usize,
        training: bool,
        attn: &A,
        drop: &D,
        exp: &E,
        ln: &L,
        gelu: &G,
        swiglu: &S,
    ) -> (y: Vec<u32>)
        requires
            old(self)@.wf(),
            idx@.len() > 0,
            idx@.len() == b * t,
            model_run::admits(model_run::state_of(None), t as int),
            idx@.len() * old(self)@.cfg.n_embd <= usize::MAX,
            forall|i: int| 0 <= i < idx@.len() ==> #[trigger] idx@[i] < old(self)@.cfg.vocab_size,
            model_fits(old(self)@, idx@.len() as int),
            keeps_rows(attn, idx@.len() * old(self)@.cfg.n_embd),
            keeps_size(drop, idx@.len() * old(self)@.cfg.n_embd),
            forall|v: u32| call_requires(exp, (v,)),
            forall|v: u32| call_requires(ln, (v,)),
            forall|v: u32| call_requires(gelu, (v,)),
            forall|v: u32, u: u32| call_requires(swiglu, (v, u)),
        ensures
            final(self)@ == old(self)@,
            y@.len() == idx@.len() * old(self)@.cfg.n_embd,
            exists|sight: Sight, states: Seq<Seq<u32>>| #[trigger]
                is_hidden(
                    *old(self),
                    idx@,
                    attn,
                    sight,
                    drop,
                    training,
                    exp,
                    ln,
                    gelu,
                    swiglu,
                    states,
                    block::records(final(self).blocks@),
                    y@,
                ) && model_run::is_sight(sight, model_run::state_of(None), t as int),
    {
        self.forward_core(idx, b, t, None, training, attn, drop, exp, ln, gelu, swiglu)
    }

    /// The hidden rows after the last normalisation, for `b` sequences of `t` tokens that follow what
    /// the caches have seen.
    pub fn forward_hidden_cached<
        A: Fn(usize, Vec<u32>, &Sight) -> Vec<u32>,
        D: Fn(Vec<u32>, u32, bool) -> Vec<u32>,
        E: Fn(u32) -> u32,
        L: Fn(u32) -> u32,
        G: Fn(u32) -> u32,
        S: Fn(u32, u32) -> u32,
    >(
        &mut self,
        idx: &[usize],
        b: usize,
        t: usize,
        cache: Option<CacheState>,
        training: bool,
        attn: &A,
        drop: &D,
        exp: &E,
        ln: &L,
        gelu: &G,
        swiglu: &S,
    ) -> (y: Vec<u32>)
        requires
            old(self)@.wf(),
            idx@.len() > 0,
            idx@.len() == b * t,
            model_run::admits(model_run::state_of(cache), t as int),
            idx@.len() * old(self)@.cfg.n_embd <= usize::MAX,
            forall|i: int| 0 <= i < idx@.len() ==> #[trigger] idx@[i] < old(self)@.cfg.vocab_size,
            model_fits(old(self)@, idx@.len() as int),
            keeps_rows(attn, idx@.len() * old(self)@.cfg.n_embd),
            keeps_size(drop, idx@.len() * old(self)@.cfg.n_embd),
            forall|v: u32| call_requires(exp, (v,)),
            forall|v: u32| call_requires(ln, (v,)),
            forall|v: u32| call_requires(gelu, (v,)),
            forall|v: u32, u: u32| call_requires(swiglu, (v, u)),
        ensures
            final(self)@ == old(self)@,
            y@.len() == idx@.len() * old(self)@.cfg.n_embd,
            exists|sight: Sight, states: Seq<Seq<u32>>| #[trigger]
                is_hidden(
                    *old(self),
                    idx@,
                    attn,
                    sight,
                    drop,
                    training,
                    exp,
                    ln,
                    gelu,
                    swiglu,
                    states,
                    block::records(final(self).blocks@),
                    y@,
                ) && model_run::is_sight(sight, model_run::state_of(cache), t as int),
    {
        self.forward_core(idx, b, t, cache, training, attn, drop, exp, ln, gelu, swiglu)
    }
}

impl GPT {
    /// The scores of all tokens of the vocabulary, for `b` sequences of `t` tokens that follow what
    /// the caches have seen: the hidden rows times the transposed table.
    pub fn forward<
        A: Fn(usize, Vec<u32>, &Sight) -> Vec<u32>,
        D: Fn(Vec<u32>, u32, bool) -> Vec<u32>,
        E: Fn(u32) -> u32,
        L: Fn(u32) -> u32,
        G: Fn(u32) -> u32,
        S: Fn(u32, u32) -> u32,
    >(
        &mut self,
        idx: &[usize],
        b: usize,
        t: usize,
        cache: Option<CacheState>,
        training: bool,
        attn: &A,
        drop: &D,
        exp: &E,
        ln: &L,
        gelu: &G,
        swiglu: &S,
    ) -> (logits: Vec<u32>)
        requires
            old(self)@.wf(),
            idx@.len() > 0,
            idx@.len() == b * t,
            model_run::admits(model_run::state_of(cache), t as int),
            idx@.len() * old(self)@.cfg.n_embd <= usize::MAX,
            idx@.len() * old(self)@.cfg.vocab_size <= usize::MAX,
            forall|i: int| 0 <= i < idx@.len() ==> #[trigger] idx@[i] < old(self)@.cfg.vocab_size,
            model_fits(old(self)@, idx@.len() as int),
            keeps_rows(attn, idx@.len() * old(self)@.cfg.n_embd),
            keeps_size(drop, idx@.len() * old(self)@.cfg.n_embd),
            forall|v: u32| call_requires(exp, (v,)),
            forall|v: u32| call_requires(ln, (v,)),
            forall|v: u32| call_requires(gelu, (v,)),
            forall|v: u32, u: u32| call_requires(swiglu, (v, u)),
        ensures
            final(self)@ == old(self)@,
            exists|sight: Sight, states: Seq<Seq<u32>>, y: Seq<u32>| #[trigger]
                is_hidden(
                    *old(self),
                    idx@,
                    attn,
                    sight,
                    drop,
                    training,
                    exp,
                    ln,
                    gelu,
                    swiglu,
                    states,
                    block::records(final(self).blocks@),
                    y,
                ) && model_run::is_sight(sight, model_run::state_of(cache), t as int) && logits@ == matrix::product_of(
                    y,
                    matrix::transposed(
                        old(self)@.table.data,
                        old(self)@.cfg.vocab_size as int,
                        old(self)@.cfg.n_embd as int,
                    ),
                    idx@.len() as int,
                    old(self)@.cfg.n_embd as int,
                    old(self)@.cfg.vocab_size as int,
                ),
    {
        let y: Vec<u32> = self.forward_core(
            idx,
            b,
            t,
            cache,
            training,
            attn,
            drop,
            exp,
            ln,
            gelu,
            swiglu,
        );
        self.output_head(&y, idx.len())
    }
}

/// Whether `y` may be the hidden rows of a model for these tokens, by way of these states.
pub open spec fn is_hidden<
    A: Fn(usize, Vec<u32>, &Sight) -> Vec<u32>,
    D: Fn(Vec<u32>, u32, bool) -> Vec<u32>,
    E: Fn(u32) -> u32,
    L: Fn(u32) -> u32,
    G: Fn(u32) -> u32,
    S: Fn(u32, u32) -> u32,
>(
    m: GPT,
    idx: Seq<usize>,
    attn: &A,
    sight: Sight,
    drop: &D,
    training: bool,
    exp: &E,
    ln: &L,
    gelu: &G,
    swiglu: &S,
    states: Seq<Seq<u32>>,
    kept: Seq<PassRecord>,
    y: Seq<u32>,
) -> bool {
    let d = m.cfg.n_embd as int;
    &&& states.len() == m.blocks@.len() + 1
    &&& drops(drop, training, m.dropout, matrix::picked(m@.table.data, d, idx), states[0])
    &&& are_states(
        m.blocks@,
        attn,
        sight,
        drop,
        training,
        exp,
        ln,
        gelu,
        swiglu,
        idx.len() as int,
        d,
        states,
        kept,
        m.blocks@.len() as int,
    )
    &&& y == m@.ln_f.output(states.last(), d)
}

} // verus!
