//! Names of parameters: they follow the parameters, and no two are the same.

use crate::attention::AttnView;
use crate::block::{BlockView, FfnView};
use crate::layers::LinearView;
use crate::mlp::MlpView;
use crate::model;
use crate::model::ModelView;
use crate::moe_layer;
use crate::moe_layer::MoeView;
use crate::norms::NormView;
use crate::params;
use crate::params::ParamView;
use crate::text;
use vstd::prelude::*;

verus! {

/// Whether two texts differ at a place that both have.
pub open spec fn splits(a: Seq<char>, b: Seq<char>) -> bool {
    exists|k: int| #![trigger a[k], b[k]] 0 <= k < a.len() && k < b.len() && a[k] != b[k]
}

/// Whether every name of a list begins with `start`.
pub open spec fn all_start(ps: Seq<(Seq<char>, ParamView)>, start: Seq<char>) -> bool {
    forall|i: int| 0 <= i < ps.len() ==> start.is_prefix_of((#[trigger] ps[i]).0)
}

/// Whether no two entries of a list have one name.
pub open spec fn distinct(ps: Seq<(Seq<char>, ParamView)>) -> bool {
    forall|i: int, j: int|
        0 <= i < j < ps.len() ==> (#[trigger] ps[i]).0 != (#[trigger] ps[j]).0
}

/// Whether no name is in both lists.
pub open spec fn apart(a: Seq<(Seq<char>, ParamView)>, b: Seq<(Seq<char>, ParamView)>) -> bool {
    forall|i: int, j: int|
        0 <= i < a.len() && 0 <= j < b.len() ==> (#[trigger] a[i]).0 != (#[trigger] b[j]).0
}

proof fn lemma_starts_apart(
    a: Seq<(Seq<char>, ParamView)>,
    s: Seq<char>,
    b: Seq<(Seq<char>, ParamView)>,
    t: Seq<char>,
)
    requires
        all_start(a, s),
        all_start(b, t),
        splits(s, t),
    ensures
        apart(a, b),
{
    let k = choose|k: int| #![trigger s[k], t[k]] 0 <= k < s.len() && k < t.len() && s[k] != t[k];
    assert forall|i: int, j: int| 0 <= i < a.len() && 0 <= j < b.len() implies (
    #[trigger] a[i]).0 != (#[trigger] b[j]).0 by {
        assert(s.is_prefix_of(a[i].0));
        assert(t.is_prefix_of(b[j].0));
        assert(a[i].0[k] == s[k]);
        assert(b[j].0[k] == t[k]);
    }
}

proof fn lemma_join(a: Seq<(Seq<char>, ParamView)>, b: Seq<(Seq<char>, ParamView)>)
    requires
        distinct(a),
        distinct(b),
        apart(a, b),
    ensures
        distinct(a + b),
{
    let c = a + b;
    assert forall|i: int, j: int| 0 <= i < j < c.len() implies (#[trigger] c[i]).0 != (
    #[trigger] c[j]).0 by {
        if j < a.len() {
            assert(c[i] == a[i] && c[j] == a[j]);
        } else if i >= a.len() {
            assert(c[i] == b[i - a.len()] && c[j] == b[j - a.len()]);
        } else {
            assert(c[i] == a[i] && c[j] == b[j - a.len()]);
        }
    }
}

proof fn lemma_apart_join(
    a: Seq<(Seq<char>, ParamView)>,
    b: Seq<(Seq<char>, ParamView)>,
    c: Seq<(Seq<char>, ParamView)>,
)
    requires
        apart(a, c),
        apart(b, c),
    ensures
        apart(a + b, c),
{
    let d = a + b;
    assert forall|i: int, j: int| 0 <= i < d.len() && 0 <= j < c.len() implies (
    #[trigger] d[i]).0 != (#[trigger] c[j]).0 by {
        if i < a.len() {
            assert(d[i] == a[i]);
        } else {
            assert(d[i] == b[i - a.len()]);
        }
    }
}

proof fn lemma_all_start_join(
    a: Seq<(Seq<char>, ParamView)>,
    b: Seq<(Seq<char>, ParamView)>,
    s: Seq<char>,
)
    requires
        all_start(a, s),
        all_start(b, s),
    ensures
        all_start(a + b, s),
{
    let d = a + b;
    assert forall|i: int| 0 <= i < d.len() implies s.is_prefix_of((#[trigger] d[i]).0) by {
        if i < a.len() {
            assert(d[i] == a[i]);
        } else {
            assert(d[i] == b[i - a.len()]);
        }
    }
}

/// What begins with the longer text begins with the shorter one.
proof fn lemma_shorter_start(ps: Seq<(Seq<char>, ParamView)>, s: Seq<char>, t: Seq<char>)
    requires
        all_start(ps, s + t),
    ensures
        all_start(ps, s),
{
    assert forall|i: int| 0 <= i < ps.len() implies s.is_prefix_of((#[trigger] ps[i]).0) by {
        assert((s + t).is_prefix_of(ps[i].0));
        assert(ps[i].0.subrange(0, s.len() as int) =~= s) by {
            assert forall|k: int| 0 <= k < s.len() implies ps[i].0[k] == s[k] by {
                assert((s + t)[k] == s[k]);
            }
        }
    }
}

/// A common beginning does not matter.
proof fn lemma_splits_after(p: Seq<char>, a: Seq<char>, b: Seq<char>, k: int)
    requires
        0 <= k < a.len(),
        k < b.len(),
        a[k] != b[k],
    ensures
        splits(p + a, p + b),
        splits(p + b, p + a),
{
    let i = p.len() + k;
    assert((p + a)[i] == a[k]);
    assert((p + b)[i] == b[k]);
}

/// The names of a linear layer.
proof fn lemma_linear(l: LinearView, prefix: Seq<char>)
    ensures
        distinct(l.named(prefix)),
        all_start(l.named(prefix), prefix),
        params::contents(l.named(prefix)) == l.params(),
{
    reveal_strlit(".weight");
    reveal_strlit(".bias");
    reveal_strlit(".lora_a");
    reveal_strlit(".lora_b");
    let n = prefix.len() as int;
    let (w, b, x, y) = (".weight"@, ".bias"@, ".lora_a"@, ".lora_b"@);
    assert((prefix + w)[n + 1] == 'w');
    assert((prefix + b)[n + 1] == 'b');
    assert((prefix + x)[n + 1] == 'l');
    assert((prefix + y)[n + 1] == 'l');
    assert((prefix + x)[n + 6] == 'a');
    assert((prefix + y)[n + 6] == 'b');
    assert(params::contents(l.named(prefix)) =~= l.params());
    let ps = l.named(prefix);
    assert forall|i: int| 0 <= i < ps.len() implies prefix.is_prefix_of((#[trigger] ps[i]).0) by {
        assert((prefix + w).subrange(0, n) =~= prefix);
        assert((prefix + b).subrange(0, n) =~= prefix);
        assert((prefix + x).subrange(0, n) =~= prefix);
        assert((prefix + y).subrange(0, n) =~= prefix);
    }
}

proof fn lemma_norm(m: NormView, prefix: Seq<char>)
    ensures
        distinct(m.named(prefix)),
        all_start(m.named(prefix), prefix),
        params::contents(m.named(prefix)) == m.params(),
{
    reveal_strlit(".gamma");
    reveal_strlit(".beta");
    let n = prefix.len() as int;
    let (g, b) = (".gamma"@, ".beta"@);
    assert((prefix + g)[n + 1] == 'g');
    assert((prefix + b)[n + 1] == 'b');
    assert(params::contents(m.named(prefix)) =~= m.params());
    let ps = m.named(prefix);
    assert forall|i: int| 0 <= i < ps.len() implies prefix.is_prefix_of((#[trigger] ps[i]).0) by {
        assert((prefix + g).subrange(0, n) =~= prefix);
        assert((prefix + b).subrange(0, n) =~= prefix);
    }
}

/// Two lists under different stems of one prefix.
proof fn lemma_siblings(
    p: Seq<char>,
    a: Seq<(Seq<char>, ParamView)>,
    s: Seq<char>,
    b: Seq<(Seq<char>, ParamView)>,
    t: Seq<char>,
    k: int,
)
    requires
        all_start(a, p + s),
        all_start(b, p + t),
        0 <= k < s.len(),
        k < t.len(),
        s[k] != t[k],
    ensures
        apart(a, b),
{
    lemma_splits_after(p, s, t, k);
    lemma_starts_apart(a, p + s, b, p + t);
}

proof fn lemma_mlp(m: MlpView, prefix: Seq<char>)
    ensures
        distinct(m.named(prefix)),
        all_start(m.named(prefix), prefix),
        params::contents(m.named(prefix)) == m.params(),
{
    match m {
        MlpView::Plain { first, second } => {
            reveal_strlit(".mlp_linear1");
            reveal_strlit(".mlp_linear2");
            let (s, t) = (".mlp_linear1"@, ".mlp_linear2"@);
            let (a, b) = (first.named(prefix + s), second.named(prefix + t));
            lemma_linear(first, prefix + s);
            lemma_linear(second, prefix + t);
            lemma_siblings(prefix, a, s, b, t, 11);
            lemma_join(a, b);
            lemma_shorter_start(a, prefix, s);
            lemma_shorter_start(b, prefix, t);
            lemma_all_start_join(a, b, prefix);
            params::contents_of_concat(a, b);
        },
        MlpView::Gated { gate, up, down } => {
            reveal_strlit(".w_gate");
            reveal_strlit(".w_up");
            reveal_strlit(".w_down");
            let (s, t, u) = (".w_gate"@, ".w_up"@, ".w_down"@);
            let (a, b, c) = (
                gate.named(prefix + s),
                up.named(prefix + t),
                down.named(prefix + u),
            );
            lemma_linear(gate, prefix + s);
            lemma_linear(up, prefix + t);
            lemma_linear(down, prefix + u);
            lemma_siblings(prefix, a, s, b, t, 3);
            lemma_siblings(prefix, a, s, c, u, 3);
            lemma_siblings(prefix, b, t, c, u, 3);
            lemma_join(a, b);
            lemma_apart_join(a, b, c);
            lemma_join(a + b, c);
            lemma_shorter_start(a, prefix, s);
            lemma_shorter_start(b, prefix, t);
            lemma_shorter_start(c, prefix, u);
            lemma_all_start_join(a, b, prefix);
            lemma_all_start_join(a + b, c, prefix);
            params::contents_of_concat(a, b);
            params::contents_of_concat(a + b, c);
        },
    }
}

proof fn lemma_attention(m: AttnView, prefix: Seq<char>)
    ensures
        distinct(m.named(prefix)),
        all_start(m.named(prefix), prefix),
        params::contents(m.named(prefix)) == m.params(),
{
    reveal_strlit(".c_q");
    reveal_strlit(".c_k");
    reveal_strlit(".c_v");
    reveal_strlit(".c_proj");
    let (s, t, u, v) = (".c_q"@, ".c_k"@, ".c_v"@, ".c_proj"@);
    let (a, b) = (m.q.named(prefix + s), m.k.named(prefix + t));
    let (c, d) = (m.v.named(prefix + u), m.proj.named(prefix + v));
    lemma_linear(m.q, prefix + s);
    lemma_linear(m.k, prefix + t);
    lemma_linear(m.v, prefix + u);
    lemma_linear(m.proj, prefix + v);
    lemma_siblings(prefix, a, s, b, t, 3);
    lemma_siblings(prefix, a, s, c, u, 3);
    lemma_siblings(prefix, a, s, d, v, 3);
    lemma_siblings(prefix, b, t, c, u, 3);
    lemma_siblings(prefix, b, t, d, v, 3);
    lemma_siblings(prefix, c, u, d, v, 3);
    lemma_join(a, b);
    lemma_apart_join(a, b, c);
    lemma_join(a + b, c);
    lemma_apart_join(a, b, d);
    lemma_apart_join(a + b, c, d);
    lemma_join(a + b + c, d);
    lemma_shorter_start(a, prefix, s);
    lemma_shorter_start(b, prefix, t);
    lemma_shorter_start(c, prefix, u);
    lemma_shorter_start(d, prefix, v);
    lemma_all_start_join(a, b, prefix);
    lemma_all_start_join(a + b, c, prefix);
    lemma_all_start_join(a + b + c, d, prefix);
    params::contents_of_concat(a, b);
    params::contents_of_concat(a + b, c);
    params::contents_of_concat(a + b + c, d);
}

/// Names that go on with a dot.
proof fn lemma_dotted(ps: Seq<(Seq<char>, ParamView)>, prefix: Seq<char>, s: Seq<char>)
    requires
        all_start(ps, prefix + s),
        s.len() > 0,
        s[0] == '.',
    ensures
        all_start(ps, prefix.push('.')),
{
    let rest = s.subrange(1, s.len() as int);
    assert(prefix + s =~= prefix.push('.') + rest);
    lemma_shorter_start(ps, prefix.push('.'), rest);
}

/// Different numbers followed by a dot differ at a place that both have.
proof fn lemma_numbers_split(i: nat, j: nat)
    requires
        i != j,
    ensures
        splits(text::digits(i).push('.'), text::digits(j).push('.')),
{
    text::decimal_forms_differ(i, j);
    text::decimal_forms_differ(j, i);
    let (a, b) = (text::digits(i), text::digits(j));
    let (x, y) = (a.push('.'), b.push('.'));
    if a.len() == b.len() {
        if forall|k: int| 0 <= k < a.len() ==> a[k] == b[k] {
            assert(a =~= b);
        }
        let k = choose|k: int| 0 <= k < a.len() && a[k] != b[k];
        assert(x[k] != y[k]);
    } else if a.len() < b.len() {
        let k = a.len() as int;
        assert(x[k] == '.');
        assert(y[k] == b[k]);
        assert(x[k] != y[k]);
    } else {
        let k = b.len() as int;
        assert(y[k] == '.');
        assert(x[k] == a[k]);
        assert(x[k] != y[k]);
    }
}

/// Two lists under different numbers of one stem.
proof fn lemma_numbered(
    p: Seq<char>,
    a: Seq<(Seq<char>, ParamView)>,
    i: nat,
    b: Seq<(Seq<char>, ParamView)>,
    j: nat,
)
    requires
        i != j,
        all_start(a, (p + text::digits(i)).push('.')),
        all_start(b, (p + text::digits(j)).push('.')),
    ensures
        apart(a, b),
{
    lemma_numbers_split(i, j);
    let (x, y) = (text::digits(i).push('.'), text::digits(j).push('.'));
    let k = choose|k: int| #![trigger x[k], y[k]] 0 <= k < x.len() && k < y.len() && x[k] != y[k];
    assert((p + text::digits(i)).push('.') =~= p + x);
    assert((p + text::digits(j)).push('.') =~= p + y);
    lemma_siblings(p, a, x, b, y, k);
}

proof fn lemma_mlp_dotted(m: MlpView, prefix: Seq<char>)
    ensures
        all_start(m.named(prefix), prefix.push('.')),
{
    match m {
        MlpView::Plain { first, second } => {
            reveal_strlit(".mlp_linear1");
            reveal_strlit(".mlp_linear2");
            let (s, t) = (".mlp_linear1"@, ".mlp_linear2"@);
            let (a, b) = (first.named(prefix + s), second.named(prefix + t));
            lemma_linear(first, prefix + s);
            lemma_linear(second, prefix + t);
            lemma_dotted(a, prefix, s);
            lemma_dotted(b, prefix, t);
            lemma_all_start_join(a, b, prefix.push('.'));
        },
        MlpView::Gated { gate, up, down } => {
            reveal_strlit(".w_gate");
            reveal_strlit(".w_up");
            reveal_strlit(".w_down");
            let (s, t, u) = (".w_gate"@, ".w_up"@, ".w_down"@);
            let (a, b, c) = (
                gate.named(prefix + s),
                up.named(prefix + t),
                down.named(prefix + u),
            );
            lemma_linear(gate, prefix + s);
            lemma_linear(up, prefix + t);
            lemma_linear(down, prefix + u);
            lemma_dotted(a, prefix, s);
            lemma_dotted(b, prefix, t);
            lemma_dotted(c, prefix, u);
            lemma_all_start_join(a, b, prefix.push('.'));
            lemma_all_start_join(a + b, c, prefix.push('.'));
        },
    }
}

/// The names of the first `n` experts, all of them before number `later`.
proof fn lemma_experts(es: Seq<MlpView>, prefix: Seq<char>, n: nat, later: nat)
    requires
        n <= later,
        n <= es.len(),
    ensures
        distinct(moe_layer::expert_named(es, prefix, n)),
        all_start(moe_layer::expert_named(es, prefix, n), prefix + ".experts."@),
        params::contents(moe_layer::expert_named(es, prefix, n)) == moe_layer::expert_params(
            es,
            n,
        ),
        later < es.len() ==> apart(
            moe_layer::expert_named(es, prefix, n),
            es[later as int].named(prefix + ".experts."@ + text::digits(later)),
        ),
    decreases n,
{
    let stem = prefix + ".experts."@;
    if later < es.len() {
        lemma_mlp(es[later as int], stem + text::digits(later));
        lemma_mlp_dotted(es[later as int], stem + text::digits(later));
    }
    if n > 0 {
        let k = (n - 1) as nat;
        lemma_experts(es, prefix, k, k);
        lemma_experts(es, prefix, k, later);
        let head = moe_layer::expert_named(es, prefix, k);
        let own = es[k as int].named(stem + text::digits(k));
        lemma_mlp(es[k as int], stem + text::digits(k));
        lemma_mlp_dotted(es[k as int], stem + text::digits(k));
        lemma_join(head, own);
        lemma_shorter_start(own, stem, text::digits(k));
        lemma_all_start_join(head, own, stem);
        params::contents_of_concat(head, own);
        if later < es.len() {
            let far = es[later as int].named(stem + text::digits(later));
            lemma_numbered(stem, own, k, far, later);
            lemma_apart_join(head, own, far);
        }
    } else {
        assert(params::contents(moe_layer::expert_named(es, prefix, 0)) =~= Seq::empty());
    }
}

proof fn lemma_moe(m: MoeView, prefix: Seq<char>)
    ensures
        distinct(m.named(prefix)),
        all_start(m.named(prefix), prefix),
        params::contents(m.named(prefix)) == m.params(),
{
    reveal_strlit(".router");
    reveal_strlit(".experts.");
    let (s, t) = (".router"@, ".experts."@);
    let a = m.router.named(prefix + s);
    let b = moe_layer::expert_named(m.experts, prefix, m.experts.len());
    lemma_linear(m.router, prefix + s);
    lemma_experts(m.experts, prefix, m.experts.len(), m.experts.len());
    lemma_siblings(prefix, a, s, b, t, 1);
    lemma_join(a, b);
    lemma_shorter_start(a, prefix, s);
    lemma_shorter_start(b, prefix, t);
    lemma_all_start_join(a, b, prefix);
    params::contents_of_concat(a, b);
}

/// The stem of a feed-forward layer.
spec fn ffn_stem(f: FfnView) -> Seq<char> {
    match f {
        FfnView::Dense(_) => ".mlp"@,
        FfnView::Moe(_) => ".moe"@,
    }
}

proof fn lemma_ffn(f: FfnView, prefix: Seq<char>)
    ensures
        distinct(f.named(prefix)),
        all_start(f.named(prefix), prefix + ffn_stem(f)),
        params::contents(f.named(prefix)) == f.params(),
{
    match f {
        FfnView::Dense(m) => lemma_mlp(m, prefix + ".mlp"@),
        FfnView::Moe(m) => lemma_moe(m, prefix + ".moe"@),
    }
}

proof fn lemma_block(b: BlockView, prefix: Seq<char>)
    ensures
        distinct(b.named(prefix)),
        all_start(b.named(prefix), prefix.push('.')),
        params::contents(b.named(prefix)) == b.params(),
{
    reveal_strlit(".ln1");
    reveal_strlit(".attn");
    reveal_strlit(".ln2");
    reveal_strlit(".mlp");
    reveal_strlit(".moe");
    let (s, t, u, v) = (".ln1"@, ".attn"@, ".ln2"@, ffn_stem(b.ffn));
    let (x, y) = (b.ln1.named(prefix + s), b.attn.named(prefix + t));
    let (z, w) = (b.ln2.named(prefix + u), b.ffn.named(prefix));
    lemma_norm(b.ln1, prefix + s);
    lemma_attention(b.attn, prefix + t);
    lemma_norm(b.ln2, prefix + u);
    lemma_ffn(b.ffn, prefix);
    lemma_siblings(prefix, x, s, y, t, 1);
    lemma_siblings(prefix, x, s, z, u, 3);
    lemma_siblings(prefix, x, s, w, v, 1);
    lemma_siblings(prefix, y, t, z, u, 1);
    lemma_siblings(prefix, y, t, w, v, 1);
    lemma_siblings(prefix, z, u, w, v, 1);
    lemma_join(x, y);
    lemma_apart_join(x, y, z);
    lemma_join(x + y, z);
    lemma_apart_join(x, y, w);
    lemma_apart_join(x + y, z, w);
    lemma_join(x + y + z, w);
    lemma_dotted(x, prefix, s);
    lemma_dotted(y, prefix, t);
    lemma_dotted(z, prefix, u);
    lemma_dotted(w, prefix, v);
    lemma_all_start_join(x, y, prefix.push('.'));
    lemma_all_start_join(x + y, z, prefix.push('.'));
    lemma_all_start_join(x + y + z, w, prefix.push('.'));
    params::contents_of_concat(x, y);
    params::contents_of_concat(x + y, z);
    params::contents_of_concat(x + y + z, w);
}

/// The names of the first `n` blocks, all of them before number `later`.
proof fn lemma_stack(bs: Seq<BlockView>, n: nat, later: nat)
    requires
        n <= later,
        n <= bs.len(),
    ensures
        distinct(model::stack_named(bs, n)),
        all_start(model::stack_named(bs, n), "blocks."@),
        params::contents(model::stack_named(bs, n)) == model::stack_params(bs, n),
        later < bs.len() ==> apart(
            model::stack_named(bs, n),
            bs[later as int].named(model::block_name(later)),
        ),
    decreases n,
{
    let stem = "blocks."@;
    if later < bs.len() {
        lemma_block(bs[later as int], model::block_name(later));
    }
    if n > 0 {
        let k = (n - 1) as nat;
        lemma_stack(bs, k, k);
        lemma_stack(bs, k, later);
        let head = model::stack_named(bs, k);
        let own = bs[k as int].named(model::block_name(k));
        lemma_block(bs[k as int], model::block_name(k));
        lemma_join(head, own);
        let rest = seq!['.'];
        assert(model::block_name(k).push('.') =~= stem + (text::digits(k) + rest));
        lemma_shorter_start(own, stem, text::digits(k) + rest);
        lemma_all_start_join(head, own, stem);
        params::contents_of_concat(head, own);
        if later < bs.len() {
            let far = bs[later as int].named(model::block_name(later));
            lemma_numbered(stem, own, k, far, later);
            lemma_apart_join(head, own, far);
        }
    } else {
        assert(params::contents(model::stack_named(bs, 0)) =~= Seq::empty());
    }
}

/// The named parameters of a model are its parameters, in the same order.
pub proof fn names_follow_parameters(m: ModelView)
    ensures
        params::contents(m.named()) == m.params(),
{
    lemma_model(m);
}

/// No two parameters of a model have one name, so that a checkpoint can match them by name.
pub proof fn names_are_distinct(m: ModelView)
    ensures
        distinct(m.named()),
{
    lemma_model(m);
}

proof fn lemma_model(m: ModelView)
    ensures
        distinct(m.named()),
        params::contents(m.named()) == m.params(),
{
    reveal_strlit("tok_emb");
    reveal_strlit("blocks.");
    reveal_strlit("ln_f");
    let (s, t, u) = ("tok_emb"@, "blocks."@, "ln_f"@);
    let a = seq![(s + ".table"@, m.table)];
    let b = model::stack_named(m.blocks, m.blocks.len());
    let c = m.ln_f.named(u);
    assert(all_start(a, s)) by {
        assert((s + ".table"@).subrange(0, s.len() as int) =~= s);
    }
    lemma_stack(m.blocks, m.blocks.len(), m.blocks.len());
    lemma_norm(m.ln_f, u);
    assert(s[0] == 't' && t[0] == 'b' && u[0] == 'l');
    assert(splits(s, t) && splits(s, u) && splits(t, u));
    lemma_starts_apart(a, s, b, t);
    lemma_starts_apart(a, s, c, u);
    lemma_starts_apart(b, t, c, u);
    lemma_join(a, b);
    lemma_apart_join(a, b, c);
    lemma_join(a + b, c);
    params::contents_of_concat(a, b);
    params::contents_of_concat(a + b, c);
    assert(params::contents(a) =~= seq![m.table]);
}

} // verus!
