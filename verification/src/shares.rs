//! Even shares: which columns of a matrix and which parameters a rank holds.

use crate::dist;
use vstd::prelude::*;

verus! {

/// The numbers from `lo` up to `hi`.
pub open spec fn run(lo: int, hi: int) -> Seq<usize> {
    Seq::new((hi - lo) as nat, |j: int| (lo + j) as usize)
}

/// Shares out the columns of a matrix among ranks: equal runs, in order.
pub fn even_columns(width: usize, ranks: usize) -> (r: Vec<Vec<usize>>)
    requires
        ranks > 0,
        width % ranks == 0,
    ensures
        r@.len() == ranks,
        forall|k: int|
            0 <= k < ranks ==> (#[trigger] r@[k])@ == run(
                k * (width as int / ranks as int),
                (k + 1) * (width as int / ranks as int),
            ),
{
    let each: usize = width / ranks;
    proof {
        assert(width == each * ranks) by (nonlinear_arith)
            requires
                ranks > 0,
                width % ranks == 0,
                each == width / ranks,
        ;
    }
    let mut parts: Vec<Vec<usize>> = Vec::new();
    for k in 0..ranks
        invariant
            ranks > 0,
            each == width as int / ranks as int,
            width == each * ranks,
            parts@.len() == k,
            forall|q: int|
                0 <= q < k ==> (#[trigger] parts@[q])@ == run(q * each, (q + 1) * each),
    {
        assert(k * each + each == (k + 1) * each && (k + 1) * each <= width) by (nonlinear_arith)
            requires
                k + 1 <= ranks,
                width == each * ranks,
        ;
        let lo: usize = k * each;
        let mut part: Vec<usize> = Vec::new();
        for j in 0..each
            invariant
                lo + each <= width,
                part@ =~= run(lo as int, lo + j),
        {
            part.push(lo + j);
        }
        parts.push(part);
    }
    parts
}

proof fn lemma_occurrences_in_run(list: Seq<usize>, lo: int, c: int, n: nat)
    requires
        n <= list.len(),
        forall|j: int| 0 <= j < list.len() ==> #[trigger] list[j] == lo + j,
    ensures
        dist::occurrences(list, c, n) == if lo <= c < lo + n {
            1nat
        } else {
            0nat
        },
    decreases n,
{
    if n > 0 {
        lemma_occurrences_in_run(list, lo, c, (n - 1) as nat);
    }
}

proof fn lemma_ownership_of_runs(parts: Seq<Vec<usize>>, each: int, c: int, n: nat)
    requires
        n <= parts.len(),
        each >= 0,
        parts.len() * each <= usize::MAX,
        c >= 0,
        forall|k: int|
            0 <= k < parts.len() ==> (#[trigger] parts[k])@ == run(k * each, (k + 1) * each),
    ensures
        dist::ownership(parts, c, n) == if c < n * each {
            1nat
        } else {
            0nat
        },
    decreases n,
{
    if n > 0 {
        let m = (n - 1) as nat;
        lemma_ownership_of_runs(parts, each, c, m);
        let list = parts[m as int]@;
        let lo = m * each;
        assert(lo >= 0 && (m + 1) * each == lo + each && lo + each <= parts.len() * each)
            by (nonlinear_arith)
            requires
                m + 1 <= parts.len(),
                each >= 0,
                lo == m * each,
        ;
        assert(list == run(lo, lo + each));
        lemma_occurrences_in_run(list, lo, c, list.len());
    } else {
        assert(0 * each == 0);
    }
}

/// Equal runs give every column one owner.
pub proof fn even_columns_have_one_owner(parts: Seq<Vec<usize>>, width: int, each: int, c: int)
    requires
        width == parts.len() * each,
        each >= 0,
        width <= usize::MAX,
        forall|k: int|
            0 <= k < parts.len() ==> (#[trigger] parts[k])@ == run(k * each, (k + 1) * each),
        0 <= c < width,
    ensures
        dist::ownership(parts, c, parts.len()) == 1,
{
    lemma_ownership_of_runs(parts, each, c, parts.len());
}

/// The share of each of `ranks` ranks in `n` things, rounded up.
pub open spec fn share_of(n: int, ranks: int) -> int {
    if n % ranks == 0 {
        n / ranks
    } else {
        n / ranks + 1
    }
}

/// The end of the first `k` shares.
pub open spec fn reach(n: int, each: int, k: int) -> int {
    if k * each < n {
        k * each
    } else {
        n
    }
}

/// Shares out `n` parameters among ranks: runs of one length, in order; the last ones may be
/// shorter or empty.
pub fn even_ranges(n: usize, ranks: usize) -> (r: Vec<(usize, usize)>)
    requires
        ranks > 0,
    ensures
        r@ == Seq::new(
            ranks as nat,
            |k: int|
                (
                    reach(n as int, share_of(n as int, ranks as int), k) as usize,
                    reach(n as int, share_of(n as int, ranks as int), k + 1) as usize,
                ),
        ),
{
    let ghost each = share_of(n as int, ranks as int);
    let step: usize = if n % ranks == 0 {
        n / ranks
    } else {
        assert(n / ranks < n) by (nonlinear_arith)
            requires
                ranks > 0,
                n % ranks != 0,
        ;
        n / ranks + 1
    };
    let mut ranges: Vec<(usize, usize)> = Vec::new();
    let mut lo: usize = 0;
    assert(0 * each == 0);
    for k in 0..ranks
        invariant
            ranks > 0,
            each == share_of(n as int, ranks as int),
            step == each,
            lo == reach(n as int, each, k as int),
            ranges@ =~= Seq::new(
                k as nat,
                |k: int|
                    (reach(n as int, each, k) as usize, reach(n as int, each, k + 1) as usize),
            ),
    {
        assert((k + 1) * each == k * each + each) by (nonlinear_arith);
        assert(each >= 0);
        let hi: usize = if n - lo > step {
            lo + step
        } else {
            n
        };
        ranges.push((lo, hi));
        lo = hi;
    }
    ranges
}

proof fn lemma_holders_of_runs(ranges: Seq<(usize, usize)>, total: int, each: int, k: int, n: nat)
    requires
        0 <= total <= usize::MAX,
        each >= 0,
        0 <= k < total,
        n <= ranges.len(),
        forall|i: int|
            0 <= i < ranges.len() ==> #[trigger] ranges[i] == (
                reach(total, each, i) as usize,
                reach(total, each, i + 1) as usize,
            ),
    ensures
        dist::holders(ranges, k, n) == if k < reach(total, each, n as int) {
            1nat
        } else {
            0nat
        },
    decreases n,
{
    if n > 0 {
        let m = n - 1;
        lemma_holders_of_runs(ranges, total, each, k, m as nat);
        assert(0 <= m * each && (m + 1) * each == m * each + each) by (nonlinear_arith)
            requires
                m >= 0,
                each >= 0,
        ;
        assert(ranges[m] == (
            reach(total, each, m) as usize,
            reach(total, each, m + 1) as usize,
        ));
    } else {
        assert(0 * each == 0);
    }
}

/// Equal runs give every parameter one holder.
pub proof fn even_ranges_share_out(ranges: Seq<(usize, usize)>, total: int, ranks: int, k: int)
    requires
        0 <= total <= usize::MAX,
        ranks > 0,
        ranges == Seq::new(
            ranks as nat,
            |i: int|
                (
                    reach(total, share_of(total, ranks), i) as usize,
                    reach(total, share_of(total, ranks), i + 1) as usize,
                ),
        ),
        0 <= k < total,
    ensures
        dist::holders(ranges, k, ranges.len()) == 1,
{
    let each = share_of(total, ranks);
    assert(each >= 0 && total <= ranks * each) by (nonlinear_arith)
        requires
            total >= 0,
            ranks > 0,
            each == if total % ranks == 0 {
                total / ranks
            } else {
                total / ranks + 1
            },
    ;
    lemma_holders_of_runs(ranges, total, each, k, ranges.len());
}

} // verus!
