//! Routing statistics, and what a sparse layer costs in parameters and work.

use crate::layers;

use crate::rounding;
use vstd::prelude::*;

verus! {

/// An exact ratio of two counts.
#[derive(Clone, Copy, Debug, PartialEq, Eq, Structural)]
pub struct Ratio {
    pub num: u128,
    pub den: u128,
}

/// Routing statistics of one forward pass.
#[derive(Clone, Debug)]
pub struct RouteStats {
    /// Tokens that each expert processed.
    pub counts: Vec<usize>,
    /// Assignments that full experts turned away.
    pub dropped: usize,
    pub n_tokens: usize,
    /// The balance loss, without its coefficient.
    pub aux: u32,
}

impl Default for RouteStats {
    fn default() -> (s: Self)
        ensures
            s.counts@ == Seq::<usize>::empty(),
            s.dropped == 0,
            s.n_tokens == 0,
            s.aux == 0,
    {
        RouteStats { counts: Vec::new(), dropped: 0, n_tokens: 0, aux: 0 }
    }
}

/// The sum of the first `n` counts.
pub open spec fn total_of(counts: Seq<usize>, n: nat) -> int
    decreases n,
{
    if n == 0 {
        0
    } else {
        total_of(counts, (n - 1) as nat) + counts[n - 1]
    }
}

/// The largest of the first `n` counts, zero without any.
pub open spec fn largest_of(counts: Seq<usize>, n: nat) -> int
    decreases n,
{
    if n == 0 {
        0
    } else {
        let m = largest_of(counts, (n - 1) as nat);
        if counts[n - 1] > m {
            counts[n - 1] as int
        } else {
            m
        }
    }
}

/// Largest load over mean load: `max / (total / experts)`.
pub open spec fn imbalance_of(counts: Seq<usize>) -> Ratio {
    let total = total_of(counts, counts.len());
    if total == 0 {
        Ratio { num: 0, den: 1 }
    } else {
        Ratio {
            num: (largest_of(counts, counts.len()) * counts.len()) as u128,
            den: total as u128,
        }
    }
}

/// Dropped assignments over all assignments.
pub open spec fn dropped_share(dropped: int, n_tokens: int, top_k: int) -> Ratio {
    if n_tokens * top_k == 0 {
        Ratio { num: 0, den: 1 }
    } else {
        Ratio { num: dropped as u128, den: (n_tokens * top_k) as u128 }
    }
}

impl RouteStats {
    /// How uneven the load is: one when even, the number of experts when all of it is on one.
    pub fn imbalance(&self) -> (r: Ratio)
        ensures
            r == imbalance_of(self.counts@),
            r.den > 0,
    {
        let n: usize = self.counts.len();
        let mut total: u128 = 0;
        let mut most: usize = 0;
        for i in 0..n
            invariant
                n == self.counts@.len(),
                total == total_of(self.counts@, i as nat),
                most == largest_of(self.counts@, i as nat),
                0 <= total <= i * usize::MAX,
        {
            let c: usize = self.counts[i];
            assert(i * usize::MAX + c <= (i + 1) * usize::MAX && (i + 1) * usize::MAX < u128::MAX)
                by (nonlinear_arith)
                requires
                    0 <= i < usize::MAX,
                    c <= usize::MAX,
                    usize::MAX <= 0xffff_ffff_ffff_ffff,
            ;
            total = total + c as u128;
            if c > most {
                most = c;
            }
        }
        if total == 0 {
            Ratio { num: 0, den: 1 }
        } else {
            assert(0 <= most * n <= u128::MAX) by (nonlinear_arith)
                requires
                    0 <= most <= 0xffff_ffff_ffff_ffff,
                    0 <= n <= 0xffff_ffff_ffff_ffff,
            ;
            Ratio { num: (most as u128) * (n as u128), den: total }
        }
    }

    /// The share of assignments that were dropped.
    pub fn dropped_ratio(&self, top_k: usize) -> (r: Ratio)
        ensures
            r == dropped_share(self.dropped as int, self.n_tokens as int, top_k as int),
            r.den > 0,
    {
        let n: usize = self.n_tokens;
        assert(0 <= n * top_k <= u128::MAX) by (nonlinear_arith)
            requires
                0 <= n <= 0xffff_ffff_ffff_ffff,
                0 <= top_k <= 0xffff_ffff_ffff_ffff,
        ;
        let total: u128 = (n as u128) * (top_k as u128);
        if total == 0 {
            Ratio { num: 0, den: 1 }
        } else {
            Ratio { num: self.dropped as u128, den: total }
        }
    }
}

proof fn lemma_largest_is_part(counts: Seq<usize>, n: nat)
    requires
        n <= counts.len(),
    ensures
        0 <= largest_of(counts, n) <= total_of(counts, n),
        total_of(counts, n) <= largest_of(counts, n) * n,
    decreases n,
{
    if n > 0 {
        lemma_largest_is_part(counts, (n - 1) as nat);
        let a = largest_of(counts, (n - 1) as nat);
        let b = largest_of(counts, n);
        assert(a * (n - 1) + b <= b * n) by (nonlinear_arith)
            requires
                0 <= a <= b,
                n >= 1,
        ;
    }
}

/// The imbalance lies between one, reached by an even load, and the number of experts, reached
/// when one expert takes everything.
pub proof fn imbalance_is_bounded(counts: Seq<usize>)
    requires
        counts.len() <= usize::MAX,
        total_of(counts, counts.len()) > 0,
        total_of(counts, counts.len()) <= u128::MAX,
    ensures
        imbalance_of(counts).den <= imbalance_of(counts).num,
        imbalance_of(counts).num <= imbalance_of(counts).den * counts.len(),
        (forall|i: int| 0 <= i < counts.len() ==> #[trigger] counts[i] == counts[0])
            ==> imbalance_of(counts).num == imbalance_of(counts).den,
        (exists|e: int| is_only(counts, e)) ==> imbalance_of(counts).num == imbalance_of(counts).den
            * counts.len(),
{
    let n = counts.len();
    let most = largest_of(counts, n);
    let total = total_of(counts, n);
    lemma_largest_is_part(counts, n);
    lemma_largest_is_a_count(counts, n);
    assert(0 <= most * n <= u128::MAX) by (nonlinear_arith)
        requires
            0 <= most <= 0xffff_ffff_ffff_ffff,
            0 <= n <= 0xffff_ffff_ffff_ffff,
    ;
    assert(most * n <= total * n) by (nonlinear_arith)
        requires
            0 <= most <= total,
    ;
    if forall|i: int| 0 <= i < counts.len() ==> #[trigger] counts[i] == counts[0] {
        lemma_even_total(counts, n);
    }
    if exists|e: int| is_only(counts, e) {
        let e = choose|e: int| is_only(counts, e);
        lemma_only_total(counts, e, n);
        assert(most == total);
    }
}

/// Whether expert `e` has the whole load.
pub open spec fn is_only(counts: Seq<usize>, e: int) -> bool {
    &&& 0 <= e < counts.len()
    &&& forall|i: int| 0 <= i < counts.len() && i != e ==> #[trigger] counts[i] == 0
}

proof fn lemma_largest_is_a_count(counts: Seq<usize>, n: nat)
    requires
        n <= counts.len(),
    ensures
        largest_of(counts, n) <= usize::MAX,
    decreases n,
{
    if n > 0 {
        lemma_largest_is_a_count(counts, (n - 1) as nat);
    }
}

proof fn lemma_even_total(counts: Seq<usize>, n: nat)
    requires
        n <= counts.len(),
        forall|i: int| 0 <= i < counts.len() ==> #[trigger] counts[i] == counts[0],
    ensures
        total_of(counts, n) == counts[0] * n,
        n > 0 ==> largest_of(counts, n) == counts[0],
    decreases n,
{
    if n > 0 {
        lemma_even_total(counts, (n - 1) as nat);
        let c = counts[0] as int;
        assert(counts[n - 1] == c);
        assert(c * (n - 1) + c == c * n) by (nonlinear_arith);
        assert(largest_of(counts, 0) == 0);
    } else {
        assert(counts[0] * 0 == 0);
    }
}

proof fn lemma_only_total(counts: Seq<usize>, e: int, n: nat)
    requires
        n <= counts.len(),
        is_only(counts, e),
    ensures
        total_of(counts, n) == if e < n {
            counts[e] as int
        } else {
            0
        },
        largest_of(counts, n) == total_of(counts, n),
    decreases n,
{
    if n > 0 {
        lemma_only_total(counts, e, (n - 1) as nat);
        if n - 1 != e {
            assert(counts[n - 1] == 0);
        }
    }
}

/// Sums over the first `n` statistics.
pub open spec fn tokens_sum(stats: Seq<RouteStats>, n: nat) -> int
    decreases n,
{
    if n == 0 {
        0
    } else {
        tokens_sum(stats, (n - 1) as nat) + stats[n - 1].n_tokens
    }
}

pub open spec fn dropped_sum(stats: Seq<RouteStats>, n: nat) -> int
    decreases n,
{
    if n == 0 {
        0
    } else {
        dropped_sum(stats, (n - 1) as nat) + stats[n - 1].dropped
    }
}

/// The count of expert `e`, zero where a statistic has fewer experts.
pub open spec fn count_of(s: RouteStats, e: int) -> int {
    if 0 <= e < s.counts@.len() {
        s.counts@[e] as int
    } else {
        0
    }
}

pub open spec fn counts_sum(stats: Seq<RouteStats>, e: int, n: nat) -> int
    decreases n,
{
    if n == 0 {
        0
    } else {
        counts_sum(stats, e, (n - 1) as nat) + count_of(stats[n - 1], e)
    }
}

/// The balance losses added up in order, in single precision.
pub open spec fn aux_sum(stats: Seq<RouteStats>, n: nat) -> u32
    decreases n,
{
    if n == 0 {
        0
    } else {
        rounding::sum(aux_sum(stats, (n - 1) as nat), stats[n - 1].aux)
    }
}

/// Whether the sums of `stats` fit a count.
pub open spec fn sums_fit(stats: Seq<RouteStats>) -> bool {
    &&& tokens_sum(stats, stats.len()) <= usize::MAX
    &&& dropped_sum(stats, stats.len()) <= usize::MAX
    &&& forall|e: int| #[trigger] counts_sum(stats, e, stats.len()) <= usize::MAX
}

proof fn lemma_sums_grow(stats: Seq<RouteStats>, e: int, i: nat, n: nat)
    requires
        i <= n,
    ensures
        0 <= tokens_sum(stats, i) <= tokens_sum(stats, n),
        0 <= dropped_sum(stats, i) <= dropped_sum(stats, n),
        0 <= counts_sum(stats, e, i) <= counts_sum(stats, e, n),
    decreases n,
{
    if i < n {
        lemma_sums_grow(stats, e, i, (n - 1) as nat);
    } else if n > 0 {
        lemma_sums_grow(stats, e, (n - 1) as nat, (n - 1) as nat);
    }
}

/// Merges the statistics of all layers: loads and drops are summed, the balance loss is averaged.
pub fn merge_stats(stats: &[RouteStats]) -> (r: RouteStats)
    requires
        sums_fit(stats@),
    ensures
        stats@.len() == 0 ==> r.counts@ == Seq::<usize>::empty() && r.dropped == 0 && r.n_tokens
            == 0 && r.aux == 0,
        stats@.len() > 0 ==> {
            &&& r.n_tokens == tokens_sum(stats@, stats@.len())
            &&& r.dropped == dropped_sum(stats@, stats@.len())
            &&& r.aux == rounding::quotient(
                aux_sum(stats@, stats@.len()),
                rounding::count_value(stats@.len() as int),
            )
            &&& r.counts@.len() == stats@[0].counts@.len()
            &&& forall|e: int|
                0 <= e < r.counts@.len() ==> #[trigger] r.counts@[e] == counts_sum(
                    stats@,
                    e,
                    stats@.len(),
                )
        },
{
    let n: usize = stats.len();
    if n == 0 {
        return RouteStats::default();
    }
    let mut n_tokens: usize = 0;
    let mut dropped: usize = 0;
    let mut aux: u32 = 0;
    for i in 0..n
        invariant
            n == stats@.len(),
            sums_fit(stats@),
            n_tokens == tokens_sum(stats@, i as nat),
            dropped == dropped_sum(stats@, i as nat),
            aux == aux_sum(stats@, i as nat),
    {
        proof {
            lemma_sums_grow(stats@, 0, (i + 1) as nat, n as nat);
        }
        n_tokens = n_tokens + stats[i].n_tokens;
        dropped = dropped + stats[i].dropped;
        aux = rounding::plus(aux, stats[i].aux);
    }
    let width: usize = stats[0].counts.len();
    let mut counts: Vec<usize> = Vec::new();
    for e in 0..width
        invariant
            n == stats@.len(),
            sums_fit(stats@),
            counts@.len() == e,
            forall|a: int|
                0 <= a < e ==> #[trigger] counts@[a] == counts_sum(stats@, a, n as nat),
    {
        let mut c: usize = 0;
        for i in 0..n
            invariant
                n == stats@.len(),
                sums_fit(stats@),
                c == counts_sum(stats@, e as int, i as nat),
        {
            proof {
                lemma_sums_grow(stats@, e as int, (i + 1) as nat, n as nat);
                assert(counts_sum(stats@, e as int, stats@.len()) <= usize::MAX);
            }
            if e < stats[i].counts.len() {
                c = c + stats[i].counts[e];
            }
        }
        counts.push(c);
    }
    RouteStats {
        counts,
        dropped,
        n_tokens,
        aux: rounding::divide(aux, rounding::from_count(n as u64)),
    }
}

/// Parameters of one expert, which is an ordinary feed-forward block: three linear layers of a
/// gated block, or two linear layers with a fourfold hidden width.
pub open spec fn expert_size(d: int, gated: bool) -> int {
    if gated {
        let h = layers::gated_width(d);
        (d * h + h) + (d * h + h) + (h * d + d)
    } else {
        (d * (4 * d) + 4 * d) + (4 * d * d + d)
    }
}

/// The parameters of one expert.
pub fn expert_param_count(d: usize, use_swiglu: bool) -> (n: usize)
    requires
        8 * d + 2 <= usize::MAX,
        expert_size(d as int, use_swiglu) <= usize::MAX,
    ensures
        n == expert_size(d as int, use_swiglu),
{
    if use_swiglu {
        let h: usize = layers::swiglu_hidden(d);
        let ghost a = d * h;
        assert(h * d == a && 3 * d * h == 3 * a && 0 <= a) by (nonlinear_arith)
            requires
                a == d * h,
                d >= 0,
                h >= 0,
        ;
        assert(3 * d <= usize::MAX);
        3 * d * h + 2 * h + d
    } else {
        let ghost a = d * d;
        assert(d * (4 * d) == 4 * a && 4 * d * d == 4 * a && 8 * d * d == 8 * a && 0 <= a)
            by (nonlinear_arith)
            requires
                a == d * d,
        ;
        8 * d * d + 5 * d
    }
}

/// The parameters of a router: its weight and its bias.
pub fn router_param_count(d: usize, n_expert: usize) -> (n: usize)
    requires
        d * n_expert + n_expert <= usize::MAX,
    ensures
        n == d * n_expert + n_expert,
{
    assert(0 <= d * n_expert) by (nonlinear_arith)
        requires
            d >= 0,
            n_expert >= 0,
    ;
    d * n_expert + n_expert
}

/// Parameters and work of a sparse layer. All experts are held in memory; a token uses only
/// `top_k` of them.
#[derive(Clone, Copy, Debug, PartialEq, Eq, Structural)]
pub struct SparseStats {
    pub n_expert: usize,
    pub top_k: usize,
    /// Parameters of one expert.
    pub expert_params: usize,
    pub router_params: usize,
}

impl SparseStats {
    /// All parameters, as a number.
    pub open spec fn total(self) -> int {
        self.n_expert * self.expert_params + self.router_params
    }

    /// The parameters that one token uses, as a number.
    pub open spec fn active(self) -> int {
        self.top_k * self.expert_params + self.router_params
    }

    /// All parameters.
    pub fn total_params(&self) -> (n: usize)
        requires
            self.total() <= usize::MAX,
        ensures
            n == self.total(),
    {
        assert(0 <= self.n_expert * self.expert_params) by (nonlinear_arith);
        self.n_expert * self.expert_params + self.router_params
    }

    /// The parameters that one token uses.
    pub fn active_params(&self) -> (n: usize)
        requires
            self.active() <= usize::MAX,
        ensures
            n == self.active(),
    {
        assert(0 <= self.top_k * self.expert_params) by (nonlinear_arith);
        self.top_k * self.expert_params + self.router_params
    }

    /// All parameters over those that one token uses.
    pub fn param_ratio(&self) -> (r: Ratio)
        requires
            self.total() <= usize::MAX,
            self.active() <= usize::MAX,
        ensures
            r.num == self.total(),
            r.den == self.active(),
    {
        Ratio { num: self.total_params() as u128, den: self.active_params() as u128 }
    }

    /// The share of work saved against a dense block with as many parameters.
    pub fn flops_saving(&self) -> (r: Ratio)
        requires
            self.total() <= usize::MAX,
            self.top_k <= self.n_expert,
        ensures
            r.num == self.total() - self.active(),
            r.den == self.total(),
    {
        proof {
            let (k, e, x) = (self.top_k as int, self.n_expert as int, self.expert_params as int);
            assert(k * x <= e * x) by (nonlinear_arith)
                requires
                    0 <= k <= e,
                    x >= 0,
            ;
        }
        let total: usize = self.total_params();
        let active: usize = self.active_params();
        Ratio { num: (total - active) as u128, den: total as u128 }
    }
}

/// At least one expert.
pub open spec fn experts_in_use(n_expert: int) -> int {
    if n_expert < 1 {
        1
    } else {
        n_expert
    }
}

/// `top_k` brought into `1..=e`.
pub open spec fn clamped(top_k: int, e: int) -> int {
    if top_k < 1 {
        1
    } else if top_k > e {
        e
    } else {
        top_k
    }
}

/// What a layer of this configuration costs; up to one expert it is dense and has no router.
pub fn sparse_stats(n_expert: usize, top_k: usize, d: usize, use_swiglu: bool) -> (s: SparseStats)
    requires
        8 * d + 2 <= usize::MAX,
        expert_size(d as int, use_swiglu) <= usize::MAX,
        d * n_expert + n_expert <= usize::MAX,
    ensures
        s.n_expert == experts_in_use(n_expert as int),
        s.top_k == clamped(top_k as int, experts_in_use(n_expert as int)),
        s.expert_params == expert_size(d as int, use_swiglu),
        s.router_params == if n_expert > 1 {
            d * n_expert + n_expert
        } else {
            0
        },
{
    let e: usize = if n_expert < 1 {
        1
    } else {
        n_expert
    };
    let k: usize = if top_k < 1 {
        1
    } else if top_k > e {
        e
    } else {
        top_k
    };
    SparseStats {
        n_expert: e,
        top_k: k,
        expert_params: expert_param_count(d, use_swiglu),
        router_params: if n_expert > 1 {
            router_param_count(d, e)
        } else {
            0
        },
    }
}

/// A token never uses more parameters than there are, and all of them only when every expert is
/// active.
pub proof fn active_is_part_of_total(s: SparseStats)
    requires
        s.top_k <= s.n_expert,
    ensures
        s.active() <= s.total(),
        s.expert_params > 0 && s.top_k < s.n_expert ==> s.active() < s.total(),
        s.top_k == s.n_expert ==> s.active() == s.total(),
{
    let (k, e, x) = (s.top_k as int, s.n_expert as int, s.expert_params as int);
    assert(k * x <= e * x && (x > 0 && k < e ==> k * x < e * x)) by (nonlinear_arith)
        requires
            0 <= k <= e,
            x >= 0,
    ;
}

/// The sum of the squares of the first `n` counts.
pub open spec fn square_total(counts: Seq<usize>, n: nat) -> int
    decreases n,
{
    if n == 0 {
        0
    } else {
        square_total(counts, (n - 1) as nat) + counts[n - 1] * counts[n - 1]
    }
}

proof fn lemma_spread(counts: Seq<usize>, c: int, n: nat)
    requires
        n <= counts.len(),
    ensures
        square_total(counts, n) - 2 * c * total_of(counts, n) + n * (c * c) >= 0,
    decreases n,
{
    if n > 0 {
        lemma_spread(counts, c, (n - 1) as nat);
        let x = counts[n - 1] as int;
        let (q, t, m) = (
            square_total(counts, (n - 1) as nat),
            total_of(counts, (n - 1) as nat),
            n - 1,
        );
        assert((q + x * x) - 2 * c * (t + x) + (m + 1) * (c * c) >= 0) by (nonlinear_arith)
            requires
                q - 2 * c * t + m * (c * c) >= 0,
        ;
    } else {
        assert(2 * c * 0 == 0 && 0 * (c * c) == 0) by (nonlinear_arith);
    }
}

/// Where the router's probabilities are the shares of the load themselves, the balance
/// `experts * sum(share^2)` is at least one, and one where the load is even.
pub proof fn matched_shares_cost_at_least_one(counts: Seq<usize>, n: nat)
    requires
        n <= counts.len(),
    ensures
        total_of(counts, n) * total_of(counts, n) <= n * square_total(counts, n),
        (forall|i: int| 0 <= i < counts.len() ==> #[trigger] counts[i] == counts[0])
            ==> total_of(counts, n) * total_of(counts, n) == n * square_total(counts, n),
    decreases n,
{
    if n > 0 {
        matched_shares_cost_at_least_one(counts, (n - 1) as nat);
        let x = counts[n - 1] as int;
        lemma_spread(counts, x, (n - 1) as nat);
        let (q, t, m) = (
            square_total(counts, (n - 1) as nat),
            total_of(counts, (n - 1) as nat),
            n - 1,
        );
        assert((t + x) * (t + x) <= (m + 1) * (q + x * x)) by (nonlinear_arith)
            requires
                t * t <= m * q,
                q - 2 * x * t + m * (x * x) >= 0,
        ;
        if forall|i: int| 0 <= i < counts.len() ==> #[trigger] counts[i] == counts[0] {
            lemma_even_total(counts, n);
            lemma_even_squares(counts, n);
            let c = counts[0] as int;
            assert((c * n) * (c * n) == n * ((c * c) * n)) by (nonlinear_arith);
        }
    } else {
        assert(0 * square_total(counts, 0) == 0);
    }
}

proof fn lemma_even_squares(counts: Seq<usize>, n: nat)
    requires
        n <= counts.len(),
        forall|i: int| 0 <= i < counts.len() ==> #[trigger] counts[i] == counts[0],
    ensures
        square_total(counts, n) == (counts[0] * counts[0]) * n,
    decreases n,
{
    let c = counts[0] as int;
    if n > 0 {
        lemma_even_squares(counts, (n - 1) as nat);
        assert(counts[n - 1] == c);
        assert((c * c) * (n - 1) + c * c == (c * c) * n) by (nonlinear_arith);
    } else {
        assert((c * c) * 0 == 0) by (nonlinear_arith);
    }
}

} // verus!
