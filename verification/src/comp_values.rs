//! What error compensation passes on, as real numbers.

use crate::float_bits;
use crate::gptq::Problem;
use crate::rounding;
use crate::values;
use crate::values::{grain, size, speck, value};
use vstd::prelude::*;

verus! {

/// Whether row `i` passes its error on to row `k`.
pub open spec fn passes_on(g: Problem, i: int, k: int) -> bool {
    g.shares(i) && float_bits::magnitude(g.factor(i, k)) != 0
}

/// The exact sum of what rows `from..to` pass on to row `k`: the error of each, times the factor
/// between the two rows.
pub open spec fn passed(g: Problem, done: Seq<Seq<u32>>, k: int, c: int, from: int, to: int) -> real
    decreases to - from,
{
    if to <= from {
        0real
    } else {
        passed(g, done, k, c, from, to - 1) + if passes_on(g, to - 1, k) {
            value(g.error(to - 1, done[to - 1], c)) * value(g.factor(to - 1, k))
        } else {
            0real
        }
    }
}

/// How large the parts are that rows `from..to` pass on.
pub open spec fn passed_size(
    g: Problem,
    done: Seq<Seq<u32>>,
    k: int,
    c: int,
    from: int,
    to: int,
) -> real
    decreases to - from,
{
    if to <= from {
        0real
    } else {
        passed_size(g, done, k, c, from, to - 1) + if passes_on(g, to - 1, k) {
            size(value(g.error(to - 1, done[to - 1], c)) * value(g.factor(to - 1, k)))
        } else {
            0real
        }
    }
}

/// One more step of a sum that is off by `t` and gets a part of size `b`.
pub proof fn lemma_one_more(t: real, a: real, b: real, j: real, slope: real)
    requires
        a >= 0real,
        b >= 0real,
        j >= 0real,
        slope >= 4real,
        t == slope * (j * (grain() * a + speck())),
    ensures
        slope * ((j + 1real) * (grain() * (a + b) + speck())) >= t + 4real * (grain() * a) + 4real
            * (grain() * b) + 4real * speck(),
{
    let (g, s) = (grain(), speck());
    values::specks_are_small();
    values::grains(a);
    values::grains(b);
    let (x, y) = (g * a + s, g * (a + b) + s);
    assert(g * (a + b) == g * a + g * b) by (nonlinear_arith);
    assert((j + 1real) * y == j * y + y) by (nonlinear_arith);
    values::factors_keep_order(x, y, j);
    let z = j * x + y;
    values::factors_keep_order(z, (j + 1real) * y, slope);
    assert(slope * (j * x + y) == slope * (j * x) + slope * y) by (nonlinear_arith);
    values::factors_keep_order(4real, slope, y);
}

/// A running error of so many steps is no larger than what it is an error of.
pub proof fn lemma_error_is_small(t: real, a: real, j: real, slope: real)
    requires
        a >= 0real,
        j >= 0real,
        slope >= 0real,
        slope * j <= 16777216real,
        t == slope * (j * (grain() * a + speck())),
    ensures
        0real <= t <= a + 16777216real * speck(),
        grain() * t <= grain() * a + speck(),
        grain() * t >= 0real,
{
    let (g, s) = (grain(), speck());
    values::specks_are_small();
    values::grains(a);
    values::grains(s);
    let x = g * a + s;
    assert(slope * (j * x) == (slope * j) * x) by (nonlinear_arith);
    let w = slope * j;
    values::factors_keep_order(w, 16777216real, x);
    values::factors_keep_order(0real, slope, j);
    assert(0real * j == 0real && 0real * x == 0real) by (nonlinear_arith);
    values::factors_keep_order(0real, w, x);
    assert(16777216real * x == a + 16777216real * s);
    values::grains(t);
    values::factors_keep_order(t, a + 16777216real * s, g);
    assert(g * (a + 16777216real * s) == g * a + 16777216real * (g * s)) by (nonlinear_arith);
}

/// A number that stands for `exact` and has one more product taken away.
pub proof fn lemma_taken_away(p: u32, e: u32, f: u32, exact: real, a: real, j: real)
    requires
        float_bits::finite(rounding::difference(p, rounding::product(e, f))),
        0real <= j <= 4194304real,
        size(exact) <= a,
        size(value(p) - exact) <= 4real * (j * (grain() * a + speck())),
    ensures
        float_bits::finite(p),
        size(
            value(rounding::difference(p, rounding::product(e, f))) - (exact - value(e) * value(f)),
        ) <= 4real * ((j + 1real) * (grain() * (a + size(value(e) * value(f))) + speck())),
{
    let (gr, s) = (grain(), speck());
    let q = rounding::product(e, f);
    values::specks_are_small();
    values::opposites_are_exact(q);
    values::products_are_close(e, f);
    values::differences_are_close(p, q);
    let t = 4real * (j * (gr * a + s));
    let b = size(value(e) * value(f));
    values::grains(a);
    values::grains(b);
    lemma_one_more(t, a, b, j, 4real);
    lemma_error_is_small(t, a, j, 4real);
    let y = size(value(p) - value(q));
    let top = a + t + b + gr * b + s;
    assert(y <= top);
    values::factors_keep_order(y, top, gr);
    assert(gr * (a + t + b + gr * b + s) == gr * a + gr * t + gr * b + gr * (gr * b) + gr * s)
        by (nonlinear_arith);
    values::grains(gr * b);
    values::grains(s);
}

/// Two numbers that stand for others, added up.
proof fn lemma_joined(p: u32, q: u32, x: real, y: real, a: real, z: real, l: real, m: real)
    requires
        float_bits::finite(rounding::sum(p, q)),
        0real <= l <= 2097152real,
        1real <= m <= 2097152real,
        size(x) <= a,
        size(y) <= z,
        size(value(p) - x) <= 8real * (l * (grain() * a + speck())),
        size(value(q) - y) <= 4real * (m * (grain() * z + speck())),
    ensures
        size(value(rounding::sum(p, q)) - (x + y)) <= 8real * ((l + m) * (grain() * (a + z)
            + speck())),
{
    let (gr, s) = (grain(), speck());
    values::specks_are_small();
    values::sums_are_close(p, q);
    let (t, u) = (8real * (l * (gr * a + s)), 4real * (m * (gr * z + s)));
    values::grains(a);
    values::grains(z);
    lemma_error_is_small(t, a, l, 8real);
    lemma_error_is_small(u, z, m, 4real);
    let w = size(value(p) + value(q));
    let top = a + t + z + u;
    assert(w <= top);
    values::factors_keep_order(w, top, gr);
    assert(gr * (a + t + z + u) == gr * a + gr * t + gr * z + gr * u) by (nonlinear_arith);
    let all = gr * (a + z) + s;
    assert(gr * (a + z) == gr * a + gr * z) by (nonlinear_arith);
    values::factors_keep_order(gr * a + s, all, l);
    values::factors_keep_order(gr * z + s, all, m);
    values::factors_keep_order(1real, m, all);
    assert((l + m) * all == l * all + m * all) by (nonlinear_arith);
    assert(1real * all == all) by (nonlinear_arith);
}

/// The value after the shares of rows `from..to` are taken away.
#[verifier::spinoff_prover]
proof fn lemma_compensated(
    g: Problem,
    done: Seq<Seq<u32>>,
    k: int,
    c: int,
    v: u32,
    from: int,
    to: int,
)
    requires
        from <= to <= 0x10_0000,
        0 <= from,
        float_bits::finite(g.compensated(done, k, c, v, from, to)),
    ensures
        float_bits::finite(v),
        size(
            value(g.compensated(done, k, c, v, from, to)) - (value(v) - passed(
                g,
                done,
                k,
                c,
                from,
                to,
            )),
        ) <= 4real * ((to - from) as real * (grain() * (size(value(v)) + passed_size(
            g,
            done,
            k,
            c,
            from,
            to,
        )) + speck())),
        size(passed(g, done, k, c, from, to)) <= passed_size(g, done, k, c, from, to),
    decreases to - from,
{
    let (gr, s) = (grain(), speck());
    values::specks_are_small();
    if to <= from {
        let v1 = value(v);
        assert(4real * (0real * (gr * (size(v1) + 0real) + s)) == 0real) by (nonlinear_arith);
    } else {
        lemma_compensated(g, done, k, c, v, from, to - 1);
        let p = g.compensated(done, k, c, v, from, to - 1);
        let part = passed(g, done, k, c, from, to - 1);
        let a = size(value(v)) + passed_size(g, done, k, c, from, to - 1);
        let j = (to - 1 - from) as real;
        values::grains(a);
        assert((to - from) as real == j + 1real);
        if passes_on(g, to - 1, k) {
            let (e, f) = (g.error(to - 1, done[to - 1], c), g.factor(to - 1, k));
            lemma_taken_away(p, e, f, value(v) - part, a, j);
        } else {
            lemma_one_more(4real * (j * (gr * a + s)), a, 0real, j, 4real);
            assert(a + 0real == a);
            assert(gr * 0real == 0real) by (nonlinear_arith);
        }
    }
}

/// What two stretches of rows pass on.
proof fn lemma_passed_in_parts(
    g: Problem,
    done: Seq<Seq<u32>>,
    k: int,
    c: int,
    from: int,
    mid: int,
    to: int,
)
    requires
        from <= mid <= to,
    ensures
        passed(g, done, k, c, from, to) == passed(g, done, k, c, from, mid) + passed(
            g,
            done,
            k,
            c,
            mid,
            to,
        ),
        passed_size(g, done, k, c, from, to) == passed_size(g, done, k, c, from, mid)
            + passed_size(g, done, k, c, mid, to),
        passed_size(g, done, k, c, mid, to) >= 0real,
    decreases to - mid,
{
    if to > mid {
        lemma_passed_in_parts(g, done, k, c, from, mid, to - 1);
    }
}

/// The weight after whole blocks.
#[verifier::spinoff_prover]
proof fn lemma_after_blocks(g: Problem, done: Seq<Seq<u32>>, k: int, c: int, blocks: nat)
    requires
        g.block >= 1,
        blocks * g.block <= 0x10_0000,
        float_bits::finite(g.after_blocks(done, k, c, blocks)),
    ensures
        ({
            let w = value(g.w[g.perm[k] * g.cols + c]);
            let to = blocks * g.block;
            size(value(g.after_blocks(done, k, c, blocks)) - (w - passed(g, done, k, c, 0, to)))
                <= 8real * (to as real * (grain() * (size(w) + passed_size(g, done, k, c, 0, to))
                + speck()))
        }),
        size(passed(g, done, k, c, 0, blocks * g.block)) <= passed_size(
            g,
            done,
            k,
            c,
            0,
            blocks * g.block,
        ),
        blocks * g.block >= 0,
    decreases blocks,
{
    let (gr, s) = (grain(), speck());
    values::specks_are_small();
    let w = value(g.w[g.perm[k] * g.cols + c]);
    if blocks == 0 {
        assert(0 * g.block == 0);
        assert(8real * (0real * (gr * (size(w) + 0real) + s)) == 0real) by (nonlinear_arith);
    } else {
        let b = (blocks - 1) as nat;
        let (lo, hi) = (b * g.block, blocks * g.block);
        assert(hi == lo + g.block && lo >= 0) by (nonlinear_arith)
            requires
                lo == b * g.block,
                hi == (b + 1) * g.block,
                b >= 0,
                g.block >= 1,
        ;
        lemma_after_blocks(g, done, k, c, b);
        lemma_compensated(g, done, k, c, 0, lo, hi);
        lemma_passed_in_parts(g, done, k, c, 0, lo, hi);
        values::one_has_value_one();
        let (p, q) = (g.after_blocks(done, k, c, b), g.compensated(done, k, c, 0, lo, hi));
        let (a, z) = (size(w) + passed_size(g, done, k, c, 0, lo), passed_size(g, done, k, c, lo, hi));
        let (x, y) = (w - passed(g, done, k, c, 0, lo), 0real - passed(g, done, k, c, lo, hi));
        let (lr, m) = (lo as real, g.block as real);
        assert((hi - lo) as real == m);
        assert(size(0real) + z == z);
        lemma_joined(p, q, x, y, a, z, lr, m);
        assert(hi as real == lr + m);
        assert(a + z == size(w) + passed_size(g, done, k, c, 0, hi));
        assert(x + y == w - passed(g, done, k, c, 0, hi));
    }
}

/// A weight is rounded after all rows before it have passed their errors on: whatever the size of
/// the blocks, it is the weight less the errors of the rows before it, each times the factor
/// between the two rows.
pub proof fn rows_take_all_errors_before_them(g: Problem, done: Seq<Seq<u32>>, c: int)
    requires
        g.block >= 1,
        done.len() <= 0x10_0000,
        float_bits::finite(g.entering(done, c)),
    ensures
        ({
            let k = done.len() as int;
            let w = value(g.w[g.perm[k] * g.cols + c]);
            size(value(g.entering(done, c)) - (w - passed(g, done, k, c, 0, k))) <= 16real * (
            k as real * (grain() * (size(w) + passed_size(g, done, k, c, 0, k)) + speck()))
        }),
{
    let (gr, s) = (grain(), speck());
    values::specks_are_small();
    let k = done.len() as int;
    let w = value(g.w[g.perm[k] * g.cols + c]);
    let b = k / g.block;
    let lo = b * g.block;
    vstd::arithmetic::div_mod::lemma_fundamental_div_mod(k, g.block);
    vstd::arithmetic::div_mod::lemma_mod_bound(k, g.block);
    vstd::arithmetic::div_mod::lemma_div_pos_is_pos(k, g.block);
    assert(g.block * b == lo) by (nonlinear_arith)
        requires
            lo == b * g.block,
    ;
    assert(lo >= 0) by (nonlinear_arith)
        requires
            lo == b * g.block,
            b >= 0,
            g.block >= 1,
    ;
    let start = g.after_blocks(done, k, c, b as nat);
    lemma_compensated(g, done, k, c, start, lo, k);
    lemma_after_blocks(g, done, k, c, b as nat);
    lemma_passed_in_parts(g, done, k, c, 0, lo, k);
    let (a, z) = (size(w) + passed_size(g, done, k, c, 0, lo), passed_size(g, done, k, c, lo, k));
    let (lr, m, kr) = (lo as real, (k - lo) as real, k as real);
    assert(kr == lr + m);
    let t = 8real * (lr * (gr * a + s));
    values::grains(a);
    values::grains(z);
    lemma_error_is_small(t, a, lr, 8real);
    let d = size(value(start)) + z;
    let top = a + t + z;
    assert(d <= top);
    values::factors_keep_order(d, top, gr);
    assert(gr * (a + t + z) == gr * a + gr * t + gr * z) by (nonlinear_arith);
    let all = gr * (a + z) + s;
    assert(gr * (a + z) == gr * a + gr * z) by (nonlinear_arith);
    let (x, v) = (gr * a + s, gr * d + s);
    assert(v <= 2real * all);
    values::factors_keep_order(x, all, lr);
    values::factors_keep_order(v, 2real * all, m);
    assert(m * (2real * all) == 2real * (m * all)) by (nonlinear_arith);
    assert((lr + m) * all == lr * all + m * all) by (nonlinear_arith);
    values::factors_keep_order(0real, m, all);
    values::factors_keep_order(0real, lr, all);
    assert(0real * all == 0real) by (nonlinear_arith);
    assert(a + z == size(w) + passed_size(g, done, k, c, 0, k));
}

/// The error that a row passes on, times its own factor, is what rounding changed.
pub proof fn errors_are_what_rounding_changed(g: Problem, i: int, row: Seq<u32>, c: int)
    requires
        g.shares(i),
        float_bits::finite(g.error(i, row, c)),
    ensures
        ({
            let change = value(row[c]) - value(g.rounded(row, c));
            size(value(g.error(i, row, c)) * value(g.factor(i, i)) - change) <= 4real * (grain()
                * size(change)) + speck() * size(value(g.factor(i, i)))
        }),
{
    let (x, y) = (row[c], g.rounded(row, c));
    let d = rounding::difference(x, y);
    values::opposites_are_exact(y);
    values::differences_are_close(x, y);
    values::quotients_multiply_back(d, g.factor(i, i));
    let e = size(value(x) - value(y));
    let gr = grain();
    values::grains(e);
    values::factors_keep_order(size(value(d)), e + gr * e, gr);
    assert(gr * (e + gr * e) == gr * e + gr * (gr * e)) by (nonlinear_arith);
    values::grains(gr * e);
}

} // verus!
