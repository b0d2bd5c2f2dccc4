//! Channel scales from activations: how strongly a channel is used decides how finely its weights
//! are stored.
//!
//! The logarithm and the exponential are handed in: their last bits depend on the machine.

use crate::rounding;
use crate::softmax;
use vstd::prelude::*;

verus! {

/// The bit pattern of `1e-8`, which stands for a channel that was never used.
pub const USE_FLOOR: u32 = 0x322b_cc77;

/// The `n` values from `start` on, added in order.
pub open spec fn span_sum(v: Seq<u32>, start: int, n: nat) -> u32
    decreases n,
{
    if n == 0 {
        0
    } else {
        rounding::sum(span_sum(v, start, (n - 1) as nat), v[start + n - 1])
    }
}

/// Adds the `n` values from `start` on.
pub fn sum_span(v: &[u32], start: usize, n: usize) -> (s: u32)
    requires
        start + n <= v@.len(),
    ensures
        s == span_sum(v@, start as int, n as nat),
{
    let len: usize = v.len();
    let mut s: u32 = 0;
    for i in 0..n
        invariant
            len == v@.len(),
            start + n <= len,
            s == span_sum(v@, start as int, i as nat),
    {
        s = rounding::plus(s, v[start + i]);
    }
    s
}

/// Whether `l` holds what `ln` may make of the uses, each at least the floor.
pub open spec fn are_logs<L: Fn(u32) -> u32>(ln: &L, uses: Seq<u32>, l: Seq<u32>) -> bool {
    &&& l.len() == uses.len()
    &&& forall|j: int|
        0 <= j < uses.len() ==> call_ensures(
            ln,
            (softmax::larger(uses[j], USE_FLOOR),),
            #[trigger] l[j],
        )
}

/// Every logarithm times the exponent.
pub open spec fn weighted(l: Seq<u32>, alpha: u32) -> Seq<u32> {
    Seq::new(l.len(), |j: int| rounding::product(alpha, l[j]))
}

/// Where the group of channel `j` begins.
pub open spec fn group_start(j: int, group: int) -> int {
    j - j % group
}

/// How many channels the group that begins at `start` has.
pub open spec fn group_len(start: int, group: int, n: int) -> int {
    if start + group <= n {
        group
    } else {
        n - start
    }
}

/// The mean of the weighted logarithms of a group.
pub open spec fn group_mean(w: Seq<u32>, start: int, group: int) -> u32 {
    let n = group_len(start, group, w.len() as int);
    rounding::quotient(span_sum(w, start, n as nat), rounding::count_value(n))
}

/// The weighted logarithm of a channel less the mean of its group.
pub open spec fn centred(w: Seq<u32>, group: int, j: int) -> u32 {
    rounding::difference(w[j], group_mean(w, group_start(j, group), group))
}

/// The group size, at least one.
pub open spec fn at_least_one(group: usize) -> int {
    if group < 1 {
        1
    } else {
        group as int
    }
}

/// Whether `s` may be the scales of the channels.
pub open spec fn are_scales<L: Fn(u32) -> u32, E: Fn(u32) -> u32>(
    ln: &L,
    exp: &E,
    uses: Seq<u32>,
    alpha: u32,
    group: usize,
    s: Seq<u32>,
) -> bool {
    &&& s.len() == uses.len()
    &&& exists|l: Seq<u32>| #[trigger]
        are_logs(ln, uses, l) && forall|j: int|
            0 <= j < s.len() ==> call_ensures(
                exp,
                (centred(weighted(l, alpha), at_least_one(group), j),),
                #[trigger] s[j],
            )
}

/// The scales of the channels: `use^alpha`, with a geometric mean of one in every group.
pub fn awq_scales<L: Fn(u32) -> u32, E: Fn(u32) -> u32>(
    uses: &[u32],
    alpha: u32,
    group_size: usize,
    ln: &L,
    exp: &E,
) -> (s: Vec<u32>)
    requires
        forall|v: u32| call_requires(ln, (v,)),
        forall|v: u32| call_requires(exp, (v,)),
    ensures
        are_scales(ln, exp, uses@, alpha, group_size, s@),
{
    let n: usize = uses.len();
    let g: usize = if group_size < 1 {
        1
    } else {
        group_size
    };
    let mut l: Vec<u32> = Vec::new();
    let mut w: Vec<u32> = Vec::new();
    for j in 0..n
        invariant
            n == uses@.len(),
            forall|v: u32| call_requires(ln, (v,)),
            l@.len() == j,
            w@.len() == j,
            forall|i: int|
                0 <= i < j ==> call_ensures(
                    ln,
                    (softmax::larger(uses@[i], USE_FLOOR),),
                    #[trigger] l@[i],
                ),
            forall|i: int| 0 <= i < j ==> #[trigger] w@[i] == rounding::product(alpha, l@[i]),
    {
        let v: u32 = ln(softmax::larger_of(uses[j], USE_FLOOR));
        l.push(v);
        w.push(rounding::multiply(alpha, v));
    }
    assert(w@ =~= weighted(l@, alpha));
    assert(are_logs(ln, uses@, l@));
    let mut s: Vec<u32> = Vec::new();
    let mut start: usize = 0;
    while start < n
        invariant
            n == w@.len(),
            g >= 1,
            forall|v: u32| call_requires(exp, (v,)),
            start <= n,
            start % g == 0 || start == n,
            s@.len() == start,
            forall|j: int|
                0 <= j < start ==> call_ensures(exp, (centred(w@, g as int, j),), #[trigger] s@[j]),
        decreases n - start,
    {
        let len: usize = if n - start < g {
            n - start
        } else {
            g
        };
        let mean: u32 = rounding::divide(
            sum_span(&w, start, len),
            rounding::from_count(len as u64),
        );
        assert(mean == group_mean(w@, start as int, g as int));
        for i in 0..len
            invariant
                n == w@.len(),
                g >= 1,
                len <= g,
                start + len <= n,
                start % g == 0,
                mean == group_mean(w@, start as int, g as int),
                forall|v: u32| call_requires(exp, (v,)),
                s@.len() == start + i,
                forall|j: int|
                    0 <= j < start + i ==> call_ensures(
                        exp,
                        (centred(w@, g as int, j),),
                        #[trigger] s@[j],
                    ),
        {
            proof {
                lemma_in_group(start as int, i as int, g as int);
            }
            s.push(exp(rounding::minus(w[start + i], mean)));
        }
        proof {
            if len == g {
                lemma_next_group(start as int, g as int);
            }
        }
        start = start + len;
    }
    s
}

proof fn lemma_in_group(start: int, i: int, g: int)
    requires
        g >= 1,
        start >= 0,
        start % g == 0,
        0 <= i < g,
    ensures
        group_start(start + i, g) == start,
{
    vstd::arithmetic::div_mod::lemma_fundamental_div_mod(start, g);
    let q = start / g;
    assert(start == q * g) by (nonlinear_arith)
        requires
            start == g * q,
    ;
    vstd::arithmetic::div_mod::lemma_fundamental_div_mod_converse(start + i, g, q, i);
}

proof fn lemma_next_group(start: int, g: int)
    requires
        g >= 1,
        start >= 0,
        start % g == 0,
    ensures
        (start + g) % g == 0,
{
    vstd::arithmetic::div_mod::lemma_mod_add_multiples_vanish(start, g);
    assert((start + g) % g == start % g);
}

} // verus!
