//! Routing of tokens to experts, and what a sparse layer costs.

use crate::float_bits;
use crate::float_bits::{INFINITY_BITS, ONE_BITS};
use crate::quant;
use crate::rounding;
use vstd::arithmetic::div_mod::{lemma_fundamental_div_mod, lemma_fundamental_div_mod_converse};
use vstd::arithmetic::power2::{lemma2_to64, lemma_pow2_adds, lemma_pow2_pos, pow2};
use vstd::prelude::*;

verus! {

/// The bit pattern of minus infinity.
pub const MINUS_INFINITY: u32 = 0xff80_0000;

/// Whether expert `a` is preferred to expert `b` by token `i`: the larger logit in the total order
/// of numbers, the lower index among equals.
pub open spec fn beats(logits: Seq<u32>, n_expert: int, i: int, a: int, b: int) -> bool {
    let x = float_bits::order_key(logits[i * n_expert + a]);
    let y = float_bits::order_key(logits[i * n_expert + b]);
    x > y || (x == y && a < b)
}

/// How many of the first `upto` experts token `i` prefers to expert `e`.
pub open spec fn preferred(logits: Seq<u32>, n_expert: int, i: int, e: int, upto: nat) -> nat
    decreases upto,
{
    if upto == 0 {
        0
    } else {
        preferred(logits, n_expert, i, e, (upto - 1) as nat) + if beats(
            logits,
            n_expert,
            i,
            upto - 1,
            e,
        ) {
            1nat
        } else {
            0nat
        }
    }
}

/// The place of expert `e` in the preferences of token `i`, counted from zero.
pub open spec fn rank(logits: Seq<u32>, n_expert: int, i: int, e: int) -> nat {
    preferred(logits, n_expert, i, e, n_expert as nat)
}

/// Whether token `i` is routed to expert `e`: the expert is among its `k` best.
pub open spec fn chooses(logits: Seq<u32>, n_expert: int, k: int, i: int, e: int) -> bool {
    rank(logits, n_expert, i, e) < k
}

/// The first `n` tokens' choices of expert `e`, in token order.
pub open spec fn takers(logits: Seq<u32>, n_expert: int, k: int, e: int, n: nat) -> Seq<usize>
    decreases n,
{
    if n == 0 {
        Seq::empty()
    } else {
        let t = takers(logits, n_expert, k, e, (n - 1) as nat);
        if chooses(logits, n_expert, k, n - 1, e) {
            t.push((n - 1) as usize)
        } else {
            t
        }
    }
}

/// The tokens that an expert of limited capacity keeps: the first ones.
pub open spec fn kept(t: Seq<usize>, capacity: usize) -> Seq<usize> {
    if t.len() <= capacity {
        t
    } else {
        t.take(capacity as int)
    }
}

/// The assignments that the first `upto` experts turn away.
pub open spec fn turned_away(
    logits: Seq<u32>,
    n_expert: int,
    k: int,
    n: nat,
    capacity: usize,
    upto: nat,
) -> int
    decreases upto,
{
    if upto == 0 {
        0
    } else {
        let t = takers(logits, n_expert, k, upto - 1, n);
        turned_away(logits, n_expert, k, n, capacity, (upto - 1) as nat) + (t.len() - kept(
            t,
            capacity,
        ).len())
    }
}

/// Where every token goes.
#[derive(Clone, Debug)]
pub struct RoutePlan {
    /// For every expert the tokens that it processes, ascending.
    pub sel: Vec<Vec<usize>>,
    /// Zero at chosen experts, minus infinity elsewhere; `[tokens, experts]`.
    pub penalty: Vec<u32>,
    /// One at chosen experts, zero elsewhere; `[tokens, experts]`.
    pub mask: Vec<u32>,
    /// Share of all assignments that each expert was chosen for.
    pub f: Vec<u32>,
    /// Assignments turned away by full experts.
    pub dropped: usize,
    /// Assignments that each expert was chosen for, turned away or not.
    pub routed: Vec<usize>,
}

/// Whether `plan` is the routing of `n` tokens by their logits.
pub open spec fn is_routing(
    plan: RoutePlan,
    logits: Seq<u32>,
    n: int,
    n_expert: int,
    k: int,
    capacity: usize,
) -> bool {
    &&& plan.sel@.len() == n_expert
    &&& plan.routed@.len() == n_expert
    &&& plan.f@.len() == n_expert
    &&& forall|e: int|
        0 <= e < n_expert ==> (#[trigger] plan.sel@[e])@ == kept(
            takers(logits, n_expert, k, e, n as nat),
            capacity,
        )
    &&& forall|e: int|
        0 <= e < n_expert ==> #[trigger] plan.routed@[e] == takers(
            logits,
            n_expert,
            k,
            e,
            n as nat,
        ).len()
    &&& forall|e: int|
        0 <= e < n_expert ==> #[trigger] plan.f@[e] == rounding::quotient(
            rounding::count_value(plan.routed@[e] as int),
            rounding::count_value(n * k),
        )
    &&& plan.dropped == turned_away(logits, n_expert, k, n as nat, capacity, n_expert as nat)
    &&& plan.penalty@ == Seq::new(
        (n * n_expert) as nat,
        |p: int|
            if chooses(logits, n_expert, k, p / n_expert, p % n_expert) {
                0u32
            } else {
                MINUS_INFINITY
            },
    )
    &&& plan.mask@ == Seq::new(
        (n * n_expert) as nat,
        |p: int|
            if chooses(logits, n_expert, k, p / n_expert, p % n_expert) {
                ONE_BITS
            } else {
                0u32
            },
    )
}

/// A number rounded up to a count; what is no number, or negative, counts as zero, and a number
/// beyond the range as the largest count.
pub open spec fn ceiling(x: u32) -> int {
    if float_bits::nan(x) || float_bits::negative(x) {
        0
    } else if float_bits::infinite(x) {
        usize::MAX as int
    } else {
        let c = (float_bits::units(x) + float_bits::one() - 1) / float_bits::one();
        if c < usize::MAX {
            c
        } else {
            usize::MAX as int
        }
    }
}

/// The most tokens an expert takes: unlimited for a factor that is not positive, otherwise the
/// factor times the mean load, rounded up and at least one.
pub open spec fn capacity_of(n_tokens: int, n_expert: int, top_k: int, factor: u32) -> int {
    if float_bits::at_most_zero(factor) {
        usize::MAX as int
    } else {
        let avg = rounding::quotient(
            rounding::count_value(n_tokens * top_k),
            rounding::count_value(n_expert),
        );
        let c = ceiling(rounding::product(factor, avg));
        if c < 1 {
            1
        } else {
            c
        }
    }
}

/// Rounds a number up to a count.
pub fn round_up(x: u32) -> (c: usize)
    ensures
        c == ceiling(x),
{
    if float_bits::is_nan(x) || float_bits::is_negative(x) {
        return 0;
    }
    if x == INFINITY_BITS {
        return usize::MAX;
    }
    let parts: (u32, u32) = float_bits::split_bits(x);
    let m: u64 = parts.0 as u64;
    let p: u32 = parts.1;
    let ghost one = float_bits::one();
    let ghost u = float_bits::units(x);
    proof {
        lemma_pow2_pos(149);
        lemma_pow2_pos(p as nat);
    }
    if p >= 149 {
        let d: u32 = p - 149;
        proof {
            lemma_pow2_adds(d as nat, 149);
            lemma_pow2_pos(d as nat);
            let t = pow2(d as nat) as int;
            assert(m * pow2(p as nat) == (m * t) * one) by (nonlinear_arith)
                requires
                    pow2(p as nat) == t * one,
            ;
            lemma_fundamental_div_mod_converse(u + one - 1, one, m * t, one - 1);
        }
        if d >= 41 {
            proof {
                vstd::arithmetic::power2::lemma_pow2_adds(41, (d - 41) as nat);
                lemma_pow2_pos((d - 41) as nat);
                vstd::arithmetic::power2::lemma2_to64_rest();
                let t = pow2(d as nat) as int;
                assert(m * t >= 0x80_0000 * 0x200_0000_0000) by (nonlinear_arith)
                    requires
                        m >= 0x80_0000,
                        t >= 0x200_0000_0000,
                ;
            }
            return usize::MAX;
        }
        proof {
            if d < 40 {
                vstd::arithmetic::power2::lemma_pow2_strictly_increases(d as nat, 40);
            }
            vstd::arithmetic::power2::lemma2_to64_rest();
            let t = pow2(d as nat) as int;
            assert(0 <= m * t <= 0xff_ffff * 0x100_0000_0000) by (nonlinear_arith)
                requires
                    0 <= m <= 0xff_ffff,
                    0 < t <= 0x100_0000_0000,
            ;
            vstd::bits::lemma_u64_shl_is_mul(m, d as u64);
        }
        let wide: u64 = m << (d as u64);
        if wide >= usize::MAX as u64 {
            usize::MAX
        } else {
            wide as usize
        }
    } else {
        let n: u32 = 149 - p;
        proof {
            lemma_pow2_adds(n as nat, p as nat);
            lemma_pow2_pos(n as nat);
        }
        if n >= 24 {
            proof {
                lemma2_to64();
                if n > 24 {
                    vstd::arithmetic::power2::lemma_pow2_strictly_increases(24, n as nat);
                }
                let t = pow2(n as nat) as int;
                let s = pow2(p as nat) as int;
                assert(u < one && (m > 0 ==> u >= 1) && (m == 0 ==> u == 0)) by (nonlinear_arith)
                    requires
                        u == m * s,
                        one == t * s,
                        0 <= m < t,
                        s >= 1,
                ;
                if m > 0 {
                    lemma_fundamental_div_mod_converse(u + one - 1, one, 1, u - 1);
                } else {
                    lemma_fundamental_div_mod_converse(u + one - 1, one, 0, one - 1);
                }
            }
            return if m == 0 {
                0
            } else {
                1
            };
        }
        proof {
            lemma2_to64();
            if n < 24 {
                vstd::arithmetic::power2::lemma_pow2_strictly_increases(n as nat, 24);
            }
            vstd::bits::lemma_u64_pow2_no_overflow(n as nat);
            vstd::bits::lemma_u64_shl_is_mul(1, n as u64);
            let t = pow2(n as nat) as int;
            let s = pow2(p as nat) as int;
            let a = m + t - 1;
            lemma_fundamental_div_mod(a, t);
            let q = a / t;
            let r = a % t;
            assert(u + one - 1 == q * one + (r * s + s - 1) && 0 <= r * s + s - 1 < one)
                by (nonlinear_arith)
                requires
                    u == m * s,
                    one == t * s,
                    m + t - 1 == t * q + r,
                    0 <= r < t,
                    s >= 1,
            ;
            lemma_fundamental_div_mod_converse(u + one - 1, one, q, r * s + s - 1);
            assert(0 <= q < 0x200_0001) by (nonlinear_arith)
                requires
                    m + t - 1 == t * q + r,
                    0 <= r < t,
                    t >= 1,
                    0 <= m < 0x100_0000,
                    t <= 0x100_0000,
            ;
        }
        let step: u64 = 1u64 << (n as u64);
        ((m + step - 1) / step) as usize
    }
}

/// The most tokens that one expert takes.
pub fn expert_capacity(n_tokens: usize, n_expert: usize, top_k: usize, capacity_factor: u32) -> (c:
    usize)
    requires
        n_tokens * top_k <= usize::MAX,
    ensures
        c == capacity_of(n_tokens as int, n_expert as int, top_k as int, capacity_factor),
{
    if float_bits::is_at_most_zero(capacity_factor) {
        usize::MAX
    } else {
        let avg: u32 = rounding::divide(
            rounding::from_count((n_tokens * top_k) as u64),
            rounding::from_count(n_expert as u64),
        );
        let c: usize = round_up(rounding::multiply(capacity_factor, avg));
        if c < 1 {
            1
        } else {
            c
        }
    }
}

/// The place of expert `e` in the preferences of token `i`.
fn rank_of(logits: &[u32], n_tokens: usize, n_expert: usize, i: usize, e: usize) -> (r: usize)
    requires
        logits@.len() == n_tokens * n_expert,
        i < n_tokens,
        e < n_expert,
    ensures
        r == rank(logits@, n_expert as int, i as int, e as int),
        r <= n_expert,
{
    let total: usize = logits.len();
    proof {
        quant::cell_position(i as int, e as int, n_tokens as int, n_expert as int);
    }
    let own: i64 = float_bits::total_order_key(logits[i * n_expert + e]);
    let mut r: usize = 0;
    for a in 0..n_expert
        invariant
            total == logits@.len(),
            logits@.len() == n_tokens * n_expert,
            i < n_tokens,
            e < n_expert,
            own == float_bits::order_key(logits@[i * n_expert + e]),
            r == preferred(logits@, n_expert as int, i as int, e as int, a as nat),
            r <= a,
    {
        proof {
            quant::cell_position(i as int, a as int, n_tokens as int, n_expert as int);
        }
        let other: i64 = float_bits::total_order_key(logits[i * n_expert + a]);
        if other > own || (other == own && a < e) {
            r = r + 1;
        }
    }
    r
}

/// Routes every token to its `top_k` experts.
///
/// Ties go to the lower index, so that the routing is deterministic. Capacity is handed out in
/// token order; an assignment to a full expert is dropped, not redirected.
pub fn top_k_gate(
    logits: &[u32],
    n_tokens: usize,
    n_expert: usize,
    top_k: usize,
    capacity: usize,
) -> (plan: RoutePlan)
    requires
        logits@.len() == n_tokens * n_expert,
        1 <= top_k <= n_expert,
    ensures
        is_routing(plan, logits@, n_tokens as int, n_expert as int, top_k as int, capacity),
{
    let total: usize = logits.len();
    let mut penalty: Vec<u32> = Vec::new();
    let mut mask: Vec<u32> = Vec::new();
    for p in 0..total
        invariant
            total == logits@.len(),
            logits@.len() == n_tokens * n_expert,
            penalty@ =~= Seq::new(
                p as nat,
                |p: int|
                    if chooses(
                        logits@,
                        n_expert as int,
                        top_k as int,
                        p / (n_expert as int),
                        p % (n_expert as int),
                    ) {
                        0u32
                    } else {
                        MINUS_INFINITY
                    },
            ),
            mask@ =~= Seq::new(
                p as nat,
                |p: int|
                    if chooses(
                        logits@,
                        n_expert as int,
                        top_k as int,
                        p / (n_expert as int),
                        p % (n_expert as int),
                    ) {
                        ONE_BITS
                    } else {
                        0u32
                    },
            ),
    {
        proof {
            quant::flat_position(p as int, n_tokens as int, n_expert as int);
        }
        let r: usize = rank_of(logits, n_tokens, n_expert, p / n_expert, p % n_expert);
        if r < top_k {
            penalty.push(0);
            mask.push(ONE_BITS);
        } else {
            penalty.push(MINUS_INFINITY);
            mask.push(0);
        }
    }
    assert(n_tokens * top_k <= total) by (nonlinear_arith)
        requires
            total == n_tokens * n_expert,
            0 <= top_k <= n_expert,
            n_tokens >= 0,
    ;
    let assigned: u32 = rounding::from_count((n_tokens * top_k) as u64);
    let mut sel: Vec<Vec<usize>> = Vec::new();
    let mut routed: Vec<usize> = Vec::new();
    let mut f: Vec<u32> = Vec::new();
    let mut dropped: usize = 0;
    for e in 0..n_expert
        invariant
            total == logits@.len(),
            logits@.len() == n_tokens * n_expert,
            mask@ == Seq::new(
                (n_tokens * n_expert) as nat,
                |p: int|
                    if chooses(
                        logits@,
                        n_expert as int,
                        top_k as int,
                        p / (n_expert as int),
                        p % (n_expert as int),
                    ) {
                        ONE_BITS
                    } else {
                        0u32
                    },
            ),
            assigned == rounding::count_value(n_tokens * top_k),
            sel@.len() == e,
            routed@.len() == e,
            f@.len() == e,
            forall|a: int|
                0 <= a < e ==> (#[trigger] sel@[a])@ == kept(
                    takers(logits@, n_expert as int, top_k as int, a, n_tokens as nat),
                    capacity,
                ),
            forall|a: int|
                0 <= a < e ==> #[trigger] routed@[a] == takers(
                    logits@,
                    n_expert as int,
                    top_k as int,
                    a,
                    n_tokens as nat,
                ).len(),
            forall|a: int|
                0 <= a < e ==> #[trigger] f@[a] == rounding::quotient(
                    rounding::count_value(routed@[a] as int),
                    rounding::count_value(n_tokens * top_k),
                ),
            dropped == turned_away(
                logits@,
                n_expert as int,
                top_k as int,
                n_tokens as nat,
                capacity,
                e as nat,
            ),
            dropped <= e * n_tokens,
    {
        let mut list: Vec<usize> = Vec::new();
        let mut count: usize = 0;
        let before: usize = dropped;
        assert((e + 1) * n_tokens == e * n_tokens + n_tokens && (e + 1) * n_tokens <= total)
            by (nonlinear_arith)
            requires
                total == n_tokens * n_expert,
                e + 1 <= n_expert,
                n_tokens >= 0,
        ;
        for i in 0..n_tokens
            invariant
                total == logits@.len(),
                logits@.len() == n_tokens * n_expert,
                e < n_expert,
                mask@ == Seq::new(
                    (n_tokens * n_expert) as nat,
                    |p: int|
                        if chooses(
                            logits@,
                            n_expert as int,
                            top_k as int,
                            p / (n_expert as int),
                            p % (n_expert as int),
                        ) {
                            ONE_BITS
                        } else {
                            0u32
                        },
                ),
                list@ == kept(
                    takers(logits@, n_expert as int, top_k as int, e as int, i as nat),
                    capacity,
                ),
                count == takers(
                    logits@,
                    n_expert as int,
                    top_k as int,
                    e as int,
                    i as nat,
                ).len(),
                count <= i,
                dropped == before + count - list@.len(),
                before + n_tokens <= total,
        {
            proof {
                quant::cell_position(i as int, e as int, n_tokens as int, n_expert as int);
            }
            let ghost t = takers(logits@, n_expert as int, top_k as int, e as int, i as nat);
            assert(takers(logits@, n_expert as int, top_k as int, e as int, (i + 1) as nat) == if chooses(
                logits@,
                n_expert as int,
                top_k as int,
                i as int,
                e as int,
            ) {
                t.push(i)
            } else {
                t
            });
            if mask[i * n_expert + e] == ONE_BITS {
                count = count + 1;
                if list.len() < capacity {
                    list.push(i);
                } else {
                    dropped = dropped + 1;
                    assert(kept(t.push(i), capacity) =~= kept(t, capacity));
                }
            }
        }
        proof {
            let t = takers(logits@, n_expert as int, top_k as int, e as int, n_tokens as nat);
            assert(t.len() - kept(t, capacity).len() <= n_tokens);
        }
        sel.push(list);
        routed.push(count);
        f.push(rounding::divide(rounding::from_count(count as u64), assigned));
    }
    RoutePlan { sel, penalty, mask, f, dropped, routed }
}

} // verus!
