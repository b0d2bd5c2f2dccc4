//! What losses, their gradients and probabilities are worth as real numbers.

use crate::float_bits;
use crate::float_bits::{INFINITY_BITS, ONE_BITS};
use crate::loss;
use crate::norm_laws;
use crate::norms;
use crate::order_laws;
use crate::probability_laws;
use crate::quant;
use crate::rounding;
use crate::softmax;
use crate::values;
use crate::values::{grain, size, speck, value};
use vstd::prelude::*;

verus! {

/// The rows that take part.
pub open spec fn part_of(mask: Option<Seq<bool>>, b: nat) -> Set<int> {
    Set::new(|i: int| 0 <= i < b && loss::supervised(mask, i))
}

/// What a batch is averaged over: the number of rows that take part, and one where none does.
pub open spec fn shared_by(mask: Option<Seq<bool>>, b: nat) -> int {
    if part_of(mask, b).len() == 0 {
        1
    } else {
        part_of(mask, b).len() as int
    }
}

/// The divisor counts the rows that take part, each once.
pub proof fn divisors_count_the_rows(mask: Option<Seq<bool>>, b: nat)
    ensures
        part_of(mask, b).finite(),
        part_of(mask, b).len() <= b,
        loss::divisor(mask, b) == shared_by(mask, b),
{
    lemma_rows(mask, b);
}

proof fn lemma_rows(mask: Option<Seq<bool>>, b: nat)
    ensures
        part_of(mask, b).finite(),
        part_of(mask, b).len() <= b,
        loss::taking_part(mask, b) == part_of(mask, b).len(),
    decreases b,
{
    if b == 0 {
        assert(part_of(mask, 0) =~= Set::empty());
    } else {
        let k = (b - 1) as nat;
        lemma_rows(mask, k);
        if loss::supervised(mask, b - 1) {
            assert(part_of(mask, b) =~= part_of(mask, k).insert(b - 1));
            assert(!part_of(mask, k).contains(b - 1));
        } else {
            assert(part_of(mask, b) =~= part_of(mask, k));
        }
    }
}

/// The exponentials of a row.
pub open spec fn row_total(e: Seq<u32>, d: int, t: int) -> real {
    values::total(norm_laws::row(e, d, t), d as nat)
}

/// What is known of the sum of numbers between zero and one, one of which is one.
proof fn lemma_unit_row(e: Seq<u32>, d: int, t: int, k: nat)
    requires
        0 <= k <= d <= 0x80_0000,
        forall|j: int| 0 <= j < d ==> #[trigger] e[t * d + j] <= ONE_BITS,
    ensures
        norms::row_sum(e, d, t, k) <= rounding::count_value(k as int),
        0real <= values::total(norm_laws::row(e, d, t), k) <= k as real,
        values::total_size(norm_laws::row(e, d, t), k) == values::total(norm_laws::row(e, d, t), k),
        norms::row_sum(e, d, t, k) == loss::running_sum(norm_laws::row(e, d, t), k),
        forall|j: int|
            0 <= j < k ==> value(#[trigger] e[t * d + j]) <= values::total(
                norm_laws::row(e, d, t),
                k,
            ),
    decreases k,
{
    values::counts_are_exact(k as int);
    values::one_has_value_one();
    if k == 0 {
        assert(0 * float_bits::one() == 0);
        order_laws::zero_is_rounded_to_zero();
    } else {
        let j = (k - 1) as nat;
        lemma_unit_row(e, d, t, j);
        values::counts_are_exact(j as int);
        values::counts_go_up(j as int);
        let (a, x, c) = (norms::row_sum(e, d, t, j), e[t * d + j], rounding::count_value(j as int));
        assert(x <= ONE_BITS);
        values::value_has_the_sign(x);
        values::values_follow_magnitudes(x, ONE_BITS);
        order_laws::sums_keep_order(a, c, x);
        order_laws::sums_keep_order(x, ONE_BITS, c);
        order_laws::sums_grow(a, x);
        assert(rounding::sum(c, x) == rounding::sum(x, c));
        assert(rounding::sum(c, ONE_BITS) == rounding::sum(ONE_BITS, c));
        assert(norm_laws::row(e, d, t)[k - 1] == x);
        assert forall|i: int| 0 <= i < k implies value(#[trigger] e[t * d + i]) <= values::total(
            norm_laws::row(e, d, t),
            k,
        ) by {}
    }
}

/// From the computed sum of a row to the exact one: `q` times the computed sum is near the
/// exponential, and so is `q` times the exact one.
proof fn lemma_share(q: real, s: real, total: real, e: real, d: int)
    requires
        0 < d <= 0x40_0000,
        0real <= e <= 1real,
        1real <= total,
        size(s - total) <= 2real * (d as real) * (grain() * total),
        size(q * s - e) <= 4real * grain(),
    ensures
        size(q * total - e) <= (8real * (d as real) + 4real) * grain(),
        size(q - e / total) <= (8real * (d as real) + 4real) * grain(),
{
    let (g, dr) = (grain(), d as real);
    values::grains(1real);
    values::grains(total);
    let f = s - total;
    values::sizes_multiply(q, f);
    values::sizes_multiply(q, s);
    values::sizes_multiply(q, total);
    assert(q * f == q * s - q * total) by (nonlinear_arith)
        requires
            f == s - total,
    ;
    let qt = size(q) * total;
    assert(size(q) * size(f) <= 2real * dr * (g * qt)) by (nonlinear_arith)
        requires
            size(f) <= 2real * dr * (g * total),
            qt == size(q) * total,
            size(q) >= 0real,
    ;
    values::grains(qt);
    assert(qt >= 0real) by (nonlinear_arith)
        requires
            qt == size(q) * total,
            size(q) >= 0real,
            total >= 1real,
    ;
    assert(2real * dr * (g * qt) <= qt / 2real) by (nonlinear_arith)
        requires
            16777216real * (g * qt) == qt,
            0real < dr <= 4194304real,
            qt >= 0real,
    ;
    assert(qt <= 4real);
    assert(2real * dr * (g * qt) <= 8real * dr * g) by (nonlinear_arith)
        requires
            qt <= 4real,
            g > 0real,
            dr > 0real,
    ;
    assert((8real * dr + 4real) * g == 8real * dr * g + 4real * g) by (nonlinear_arith);
    let r = e / total;
    assert(r * total == e) by (nonlinear_arith)
        requires
            r == e / total,
            total >= 1real,
    ;
    let h = q - r;
    assert(h * total == q * total - e) by (nonlinear_arith)
        requires
            h == q - r,
            r * total == e,
    ;
    values::sizes_multiply(h, total);
    assert(size(h) <= size(h) * total) by (nonlinear_arith)
        requires
            size(h) >= 0real,
            total >= 1real,
    ;
}

/// What is known of the exponentials of a row of finite numbers and of their sum.
proof fn lemma_row_facts<E: Fn(u32) -> u32>(exp: &E, x: Seq<u32>, d: int, t: int, e: Seq<u32>, k: int)
    requires
        0 < d <= 0x40_0000,
        0 <= k < d,
        probability_laws::exponential(exp),
        probability_laws::finite_row(x, d, t),
        softmax::row_exps(exp, x, d, t, e),
    ensures
        ({
            let s = norms::row_sum(e, d, t, d as nat);
            &&& ONE_BITS <= s < INFINITY_BITS
            &&& e[t * d + k] <= ONE_BITS
            &&& 1real <= value(s) <= 4194304real
            &&& 0real <= value(e[t * d + k]) <= 1real
            &&& 1real <= row_total(e, d, t)
            &&& size(value(s) - row_total(e, d, t)) <= 2real * (d as real) * (grain() * row_total(
                e,
                d,
                t,
            ))
        }),
{
    let s = norms::row_sum(e, d, t, d as nat);
    probability_laws::exponentials_are_parts_of_their_sum(exp, x, d, t, e);
    lemma_unit_row(e, d, t, d as nat);
    values::counts_are_exact(d);
    values::values_follow_magnitudes(s, rounding::count_value(d));
    values::value_has_the_sign(s);
    values::one_has_value_one();
    values::values_follow_magnitudes(ONE_BITS, s);
    values::running_sums_are_close(norm_laws::row(e, d, t), d as nat);
    assert(e[t * d + k] <= ONE_BITS);
    values::value_has_the_sign(e[t * d + k]);
    values::values_follow_magnitudes(e[t * d + k], ONE_BITS);
    // The largest element of the row gives one.
    let m = softmax::row_max(x, d, t, d as nat);
    probability_laws::row_maxima_are_attained(x, d, t, d as nat);
    let top = choose|j: int| 0 <= j < d && m == #[trigger] x[t * d + j];
    crate::layer_laws::difference_with_itself(m);
    assert(call_ensures(exp, (rounding::difference(x[t * d + top], m),), e[t * d + top]));
    assert(e[t * d + top] == ONE_BITS);
    assert(value(e[t * d + top]) <= row_total(e, d, t));
}

/// The probability of an element is its exponential's share of the exponentials of its row.
pub proof fn probabilities_are_shares<E: Fn(u32) -> u32>(
    exp: &E,
    x: Seq<u32>,
    rows: int,
    d: int,
    p: Seq<u32>,
    t: int,
    k: int,
)
    requires
        0 < d <= 0x40_0000,
        0 <= t < rows,
        0 <= k < d,
        probability_laws::exponential(exp),
        probability_laws::finite_row(x, d, t),
        softmax::is_softmax(exp, x, rows, d, p),
    ensures
        exists|e: Seq<u32>|
            #![trigger softmax::row_exps(exp, x, d, t, e)]
            softmax::row_exps(exp, x, d, t, e) && size(
                value(p[t * d + k]) - value(e[t * d + k]) / row_total(e, d, t),
            ) <= (8real * (d as real) + 4real) * grain(),
{
    let e = choose|e: Seq<u32>| #[trigger]
        softmax::all_exps(exp, x, rows, d, e) && p == softmax::normalised(e, rows, d);
    assert(softmax::row_exps(exp, x, d, t, e));
    lemma_row_facts(exp, x, d, t, e, k);
    quant::cell_position(t, k, rows, d);
    let (s, a) = (norms::row_sum(e, d, t, d as nat), e[t * d + k]);
    let q = p[t * d + k];
    assert(q == rounding::quotient(a, s));
    probability_laws::exponentials_are_parts_of_their_sum(exp, x, d, t, e);
    probability_laws::parts_are_at_most_one(a, s);
    values::quotients_multiply_back(a, s);
    values::specks_are_small();
    values::grains(1real);
    let (g, v) = (grain(), value(a));
    assert(g * size(v) <= g) by (nonlinear_arith)
        requires
            0real <= size(v) <= 1real,
            g > 0real,
    ;
    let v1 = value(s);
    let s1 = speck();
    assert(s1 * size(v1) <= g) by (nonlinear_arith)
        requires
            0real <= size(v1) <= 4194304real,
            1073741824real * s1 <= g,
            s1 > 0real,
    ;
    lemma_share(value(q), value(s), row_total(e, d, t), v, d);
}

/// The probability by which a gradient is made: the exponential times the inverse of the sum.
proof fn lemma_inverse_share(a: u32, s: u32, total: real, d: int)
    requires
        0 < d <= 0x40_0000,
        ONE_BITS <= s < INFINITY_BITS,
        a <= ONE_BITS,
        1real <= value(s) <= 4194304real,
        0real <= value(a) <= 1real,
        1real <= total,
        size(value(s) - total) <= 2real * (d as real) * (grain() * total),
        float_bits::finite(rounding::product(a, rounding::quotient(ONE_BITS, s))),
    ensures
        size(
            value(rounding::product(a, rounding::quotient(ONE_BITS, s))) - value(a) / total,
        ) <= (8real * (d as real) + 4real) * grain(),
{
    let inv = rounding::quotient(ONE_BITS, s);
    let q = rounding::product(a, inv);
    values::one_has_value_one();
    values::quotients_multiply_back(ONE_BITS, s);
    values::products_are_close(a, inv);
    values::specks_are_small();
    values::grains(1real);
    let (g, z) = (grain(), speck());
    let (v, i, sv, w) = (value(a), value(inv), value(s), value(q));
    let k = i * sv;
    let zs = z * sv;
    assert(zs * 256real <= g) by (nonlinear_arith)
        requires
            zs == z * sv,
            0real <= sv <= 4194304real,
            1073741824real * z <= g,
            z > 0real,
    ;
    assert(size(k - 1real) <= g + zs);
    let f = w - v * i;
    values::sizes_multiply(f, sv);
    values::sizes_multiply(v, i);
    values::sizes_multiply(i, sv);
    assert(f * sv == w * sv - v * k) by (nonlinear_arith)
        requires
            f == w - v * i,
            k == i * sv,
    ;
    assert(size(f) * sv <= g * (v * size(k)) + zs) by (nonlinear_arith)
        requires
            size(f) <= g * (v * size(i)) + z,
            size(k) == size(i) * sv,
            zs == z * sv,
            sv >= 1real,
    ;
    assert(v * size(k) <= 1real + g + zs) by (nonlinear_arith)
        requires
            0real <= v <= 1real,
            0real <= size(k) <= 1real + g + zs,
    ;
    let b = v * size(k);
    assert(g * b <= g + g * (g + zs)) by (nonlinear_arith)
        requires
            b <= 1real + g + zs,
            g > 0real,
    ;
    values::grains(g + zs);
    values::sizes_multiply(v, k - 1real);
    assert(v * (k - 1real) == v * k - v) by (nonlinear_arith);
    assert(v * size(k - 1real) <= g + zs) by (nonlinear_arith)
        requires
            size(k - 1real) <= g + zs,
            0real <= v <= 1real,
            size(k - 1real) >= 0real,
    ;
    lemma_share(w, sv, total, v, d);
}

/// One for the target of a row, zero for every other class.
pub open spec fn target_mark(targets: Seq<usize>, i: int, j: int) -> real {
    if j == targets[i] {
        1real
    } else {
        0real
    }
}

/// The gradient that a row which takes part gets, from what it is scaled by to what it adds up to.
proof fn lemma_added(r: u32, before: u32, scale: u32, q: u32, hot: bool)
    requires
        float_bits::finite(r),
        size(value(q)) <= 2real,
        r == ({
            let v = rounding::sum(before, rounding::product(scale, q));
            if hot {
                rounding::difference(v, scale)
            } else {
                v
            }
        }),
    ensures
        float_bits::finite(scale),
        float_bits::finite(q),
        ({
            let mark = if hot {
                1real
            } else {
                0real
            };
            size(value(r) - value(before) - value(scale) * (value(q) - mark)) <= 16real * (grain()
                * (size(value(before)) + size(value(scale)))) + 4real * speck()
        }),
{
    let p = rounding::product(scale, q);
    let v = rounding::sum(before, p);
    values::opposites_are_exact(scale);
    assert(float_bits::finite(v));
    values::products_are_close(scale, q);
    values::specks_are_small();
    let g = grain();
    let (b, c, w) = (value(before), value(scale), value(q));
    values::sizes_multiply(c, w);
    let cw = size(c * w);
    assert(cw <= 2real * size(c)) by (nonlinear_arith)
        requires
            cw == size(c) * size(w),
            size(w) <= 2real,
            size(c) >= 0real,
    ;
    let (gb, gc, gw) = (g * size(b), g * size(c), g * cw);
    values::grains(size(b));
    values::grains(size(c));
    assert(gw <= 2real * gc) by (nonlinear_arith)
        requires
            gw == g * cw,
            cw <= 2real * size(c),
            gc == g * size(c),
            g > 0real,
    ;
    values::sums_of_near_numbers(before, p, b, c * w, 0real, gw + speck());
    assert(g * (size(b) + cw) == gb + gw) by (nonlinear_arith)
        requires
            gb == g * size(b),
            gw == g * cw,
    ;
    assert(g * (size(b) + size(c)) == gb + gc) by (nonlinear_arith)
        requires
            gb == g * size(b),
            gc == g * size(c),
    ;
    assert(c * (w - 0real) == c * w) by (nonlinear_arith);
    assert(c * (w - 1real) == c * w - c) by (nonlinear_arith);
    if hot {
        let t = 2real * (gw + speck()) + gb + gw;
        let y = b + c * w;
        values::differences_of_near_numbers(v, scale, y, c, t, 0real);
        assert(g * (size(y) + size(c)) <= gb + gw + gc) by (nonlinear_arith)
            requires
                size(y) <= size(b) + cw,
                gb == g * size(b),
                gw == g * cw,
                gc == g * size(c),
                g > 0real,
        ;
    }
}

/// The gradient of cross entropy: what a row that takes part gets, times the number of rows that
/// take part, is the upstream gradient times the probability less one for the target. So it is the
/// gradient of the mean and not of the sum.
pub proof fn gradients_are_shared_out<E: Fn(u32) -> u32>(
    exp: &E,
    x: Seq<u32>,
    b: int,
    d: int,
    targets: Seq<usize>,
    mask: Option<Seq<bool>>,
    upstream: u32,
    before: Seq<u32>,
    r: Seq<u32>,
    i: int,
    j: int,
)
    requires
        0 < d <= 0x40_0000,
        0 <= i < b <= 0x100_0000,
        0 <= j < d,
        probability_laws::exponential(exp),
        probability_laws::finite_row(x, d, i),
        loss::is_gradient(exp, x, b, d, targets, mask, upstream, before, r),
        loss::supervised(mask, i),
        float_bits::finite(r[i * d + j]),
    ensures
        exists|e: Seq<u32>|
            #![trigger softmax::row_exps(exp, x, d, i, e)]
            softmax::row_exps(exp, x, d, i, e) && is_shared_gradient(
                value(e[i * d + j]) / row_total(e, d, i),
                target_mark(targets, i, j),
                shared_by(mask, b as nat),
                value(upstream),
                value(before[i * d + j]),
                value(r[i * d + j]),
                d,
            ),
{
    let e = choose|e: Seq<u32>| #[trigger]
        loss::supervised_exps(exp, x, b, d, mask, e) && r == Seq::new(
            (b * d) as nat,
            |p: int|
                loss::grad_cell(
                    before[p],
                    e,
                    d,
                    targets,
                    mask,
                    rounding::quotient(
                        upstream,
                        rounding::count_value(loss::divisor(mask, b as nat)),
                    ),
                    p / d,
                    p % d,
                ),
        );
    let p = i * d + j;
    quant::cell_position(i, j, b, d);
    assert(softmax::row_exps(exp, x, d, i, e));
    divisors_count_the_rows(mask, b as nat);
    let n = shared_by(mask, b as nat);
    let c = rounding::count_value(n);
    values::counts_are_exact(n);
    let scale = rounding::quotient(upstream, c);
    lemma_row_facts(exp, x, d, i, e, j);
    let s = norms::row_sum(e, d, i, d as nat);
    let (a, inv) = (e[p], rounding::quotient(ONE_BITS, s));
    let q = rounding::product(a, inv);
    let hot = j == targets[i];
    let share = value(a) / row_total(e, d, i);
    assert(r[p] == ({
        let v = rounding::sum(before[p], rounding::product(scale, q));
        if hot {
            rounding::difference(v, scale)
        } else {
            v
        }
    }));
    values::opposites_are_exact(scale);
    assert(float_bits::finite(q));
    lemma_inverse_share(a, s, row_total(e, d, i), d);
    let (g, dr) = (grain(), d as real);
    values::grains(1real);
    let w = (8real * dr + 4real) * g;
    assert(w <= 3real) by (nonlinear_arith)
        requires
            w == (8real * dr + 4real) * g,
            16777216real * (g * 1real) == 1real,
            0real < dr <= 4194304real,
    ;
    let v1 = value(a);
    let t1 = row_total(e, d, i);
    assert(0real <= share <= 1real) by (nonlinear_arith)
        requires
            share == v1 / t1,
            0real <= v1 <= 1real,
            1real <= t1,
    ;
    lemma_small_share(a, s);
    lemma_added(r[p], before[p], scale, q, hot);
    values::quotients_multiply_back(upstream, c);
    lemma_shared(
        value(r[p]) - value(before[p]),
        value(before[p]),
        value(scale),
        value(q),
        share,
        target_mark(targets, i, j),
        n,
        value(upstream),
        d,
    );
}

/// An exponential times the inverse of the sum is not much above one.
proof fn lemma_small_share(a: u32, s: u32)
    requires
        ONE_BITS <= s < INFINITY_BITS,
        a <= ONE_BITS,
    ensures
        0real <= value(rounding::product(a, rounding::quotient(ONE_BITS, s))) <= 1real,
{
    probability_laws::parts_are_at_most_one(ONE_BITS, s);
    let inv = rounding::quotient(ONE_BITS, s);
    crate::optim_laws::lemma_unit_product(a, inv);
}

/// Whether a gradient, times the number of rows that share, is upstream times share less mark.
pub open spec fn is_shared_gradient(
    share: real,
    mark: real,
    n: int,
    upstream: real,
    before: real,
    after: real,
    d: int,
) -> bool {
    size((after - before) * (n as real) - upstream * (share - mark)) <= (8real * (d as real)
        + 64real) * (grain() * size(upstream)) + 16real * (grain() * (n as real * size(before)))
        + 32real * (n as real * speck())
}

proof fn lemma_shared(
    add: real,
    before: real,
    c: real,
    q: real,
    share: real,
    mark: real,
    n: int,
    up: real,
    d: int,
)
    requires
        1 <= n,
        0 < d,
        mark == 0real || mark == 1real,
        0real <= q <= 1real,
        size(add - c * (q - mark)) <= 16real * (grain() * (size(before) + size(c))) + 4real
            * speck(),
        size(c * (n as real) - up) <= grain() * size(up) + speck() * size(n as real),
        size(q - share) <= (8real * (d as real) + 4real) * grain(),
    ensures
        size(add * (n as real) - up * (share - mark)) <= (8real * (d as real) + 64real) * (grain()
            * size(up)) + 16real * (grain() * (n as real * size(before))) + 32real * (n as real
            * speck()),
{
    let (g, s, nr, dr) = (grain(), speck(), n as real, d as real);
    values::specks_are_small();
    values::grains(1real);
    let u = size(up);
    let (gu, ns, nb) = (g * u, nr * s, nr * size(before));
    values::grains(u);
    assert(s * size(nr) == ns) by (nonlinear_arith)
        requires
            ns == nr * s,
            size(nr) == nr,
    ;
    assert(ns > 0real && nb >= 0real) by (nonlinear_arith)
        requires
            ns == nr * s,
            nb == nr * size(before),
            nr >= 1real,
            s > 0real,
            size(before) >= 0real,
    ;
    // What is scaled and counted.
    let m = q - mark;
    assert(size(m) <= 1real);
    let f = add - c * m;
    values::sizes_multiply(f, nr);
    let cn = c * nr;
    values::sizes_multiply(c, nr);
    assert(f * nr == add * nr - cn * m) by (nonlinear_arith)
        requires
            f == add - c * m,
            cn == c * nr,
    ;
    assert(size(f) * nr <= 16real * (g * nb) + 16real * (g * size(cn)) + 4real * ns)
        by (nonlinear_arith)
        requires
            size(f) <= 16real * (g * (size(before) + size(c))) + 4real * s,
            nb == nr * size(before),
            size(cn) == size(c) * nr,
            ns == nr * s,
            nr >= 1real,
    ;
    assert(size(cn) <= u + gu + ns);
    assert(g * size(cn) <= gu + g * gu + g * ns) by (nonlinear_arith)
        requires
            size(cn) <= u + gu + ns,
            gu == g * u,
            g > 0real,
    ;
    values::grains(gu);
    values::grains(ns);
    // From the scale to upstream.
    let h = cn - up;
    values::sizes_multiply(h, m);
    assert(h * m == cn * m - up * m) by (nonlinear_arith)
        requires
            h == cn - up,
    ;
    assert(size(h) * size(m) <= size(h)) by (nonlinear_arith)
        requires
            0real <= size(m) <= 1real,
            size(h) >= 0real,
    ;
    // From the computed probability to the exact share.
    let k = q - share;
    values::sizes_multiply(up, k);
    assert(up * k == up * m - up * (share - mark)) by (nonlinear_arith)
        requires
            k == q - share,
            m == q - mark,
    ;
    assert(u * size(k) <= (8real * dr + 4real) * gu) by (nonlinear_arith)
        requires
            size(k) <= (8real * dr + 4real) * g,
            gu == g * u,
            u >= 0real,
    ;
    assert((8real * dr + 64real) * gu == (8real * dr + 4real) * gu + 60real * gu)
        by (nonlinear_arith);
}

/// A row that takes no part keeps its gradient.
pub proof fn gradients_pass_masked_rows_by<E: Fn(u32) -> u32>(
    exp: &E,
    x: Seq<u32>,
    b: int,
    d: int,
    targets: Seq<usize>,
    mask: Option<Seq<bool>>,
    upstream: u32,
    before: Seq<u32>,
    r: Seq<u32>,
    i: int,
    j: int,
)
    requires
        0 <= i < b,
        0 <= j < d,
        loss::is_gradient(exp, x, b, d, targets, mask, upstream, before, r),
        !loss::supervised(mask, i),
    ensures
        r[i * d + j] == before[i * d + j],
{
    quant::cell_position(i, j, b, d);
}

/// The loss of a batch, times the number of rows that take part, is the sum of the losses of the
/// rows: the loss is a mean, and divided by what the gradient is divided by.
pub proof fn losses_are_means<E: Fn(u32) -> u32, L: Fn(u32) -> u32>(
    exp: &E,
    ln: &L,
    x: Seq<u32>,
    b: int,
    d: int,
    targets: Seq<usize>,
    mask: Option<Seq<bool>>,
    l: u32,
)
    requires
        0 < b <= 0x80_0000,
        loss::is_cross_entropy(exp, ln, x, b, d, targets, mask, l),
        float_bits::finite(l),
    ensures
        exists|nll: Seq<u32>| #[trigger]
            are_row_losses(exp, ln, x, b, d, targets, mask, nll) && size(
                value(l) * (shared_by(mask, b as nat) as real) - values::total(nll, b as nat),
            ) <= (2real * (b as real) + 2real) * (grain() * values::total_size(nll, b as nat))
                + speck() * (shared_by(mask, b as nat) as real),
{
    let nll = choose|nll: Seq<u32>|
        #![trigger loss::running_sum(nll, b as nat)]
        nll.len() == b && (forall|i: int|
            0 <= i < b ==> loss::is_row_loss(exp, ln, x, d, targets, mask, i, #[trigger] nll[i]))
            && l == rounding::quotient(
            loss::running_sum(nll, b as nat),
            rounding::count_value(loss::divisor(mask, b as nat)),
        );
    assert(are_row_losses(exp, ln, x, b, d, targets, mask, nll));
    divisors_count_the_rows(mask, b as nat);
    let n = shared_by(mask, b as nat);
    values::counts_are_exact(n);
    let s = loss::running_sum(nll, b as nat);
    values::running_sums_are_close(nll, b as nat);
    values::quotients_multiply_back(s, rounding::count_value(n));
    let (g, br, a) = (grain(), b as real, values::total_size(nll, b as nat));
    let ga = g * a;
    values::grains(a);
    let w = 2real * br * ga;
    assert(w <= a) by (nonlinear_arith)
        requires
            w == 2real * br * ga,
            16777216real * ga == a,
            0real < br <= 8388608real,
            a >= 0real,
    ;
    let v1 = value(s);
    assert(g * size(v1) <= 2real * ga) by (nonlinear_arith)
        requires
            size(v1) <= 2real * a,
            g > 0real,
            ga == g * a,
    ;
    assert((2real * br + 2real) * ga == w + 2real * ga) by (nonlinear_arith)
        requires
            w == 2real * br * ga,
    ;
}

/// Whether these may be the losses of the rows.
pub open spec fn are_row_losses<E: Fn(u32) -> u32, L: Fn(u32) -> u32>(
    exp: &E,
    ln: &L,
    x: Seq<u32>,
    b: int,
    d: int,
    targets: Seq<usize>,
    mask: Option<Seq<bool>>,
    nll: Seq<u32>,
) -> bool {
    &&& nll.len() == b
    &&& forall|i: int|
        0 <= i < b ==> loss::is_row_loss(exp, ln, x, d, targets, mask, i, #[trigger] nll[i])
}

/// The loss of a row that takes part is the logarithm of the sum of its exponentials, plus the
/// largest logit, less the logit of the target.
pub proof fn row_losses_are_surprise<E: Fn(u32) -> u32, L: Fn(u32) -> u32>(
    exp: &E,
    ln: &L,
    x: Seq<u32>,
    d: int,
    targets: Seq<usize>,
    mask: Option<Seq<bool>>,
    i: int,
    nll: u32,
)
    requires
        loss::supervised(mask, i),
        loss::is_row_loss(exp, ln, x, d, targets, mask, i, nll),
        float_bits::finite(nll),
    ensures
        exists|e: Seq<u32>, g: u32|
            #![trigger softmax::row_exps(exp, x, d, i, e), call_ensures(ln, (norms::row_sum(e, d, i, d as nat),), g)]
            softmax::row_exps(exp, x, d, i, e) && call_ensures(
                ln,
                (norms::row_sum(e, d, i, d as nat),),
                g,
            ) && ({
                let top = value(softmax::row_max(x, d, i, d as nat));
                let own = value(x[i * d + targets[i]]);
                size(value(nll) - (value(g) + top - own)) <= 4real * (grain() * (size(value(g))
                    + size(own - top)))
            }),
{
    let target = targets[i] as int;
    let (e, g) = choose|e: Seq<u32>, g: u32|
        #![trigger softmax::row_exps(exp, x, d, i, e), loss::row_loss(x, d, i, target, g)]
        e.len() == (i + 1) * d && softmax::row_exps(exp, x, d, i, e) && call_ensures(
            ln,
            (norms::row_sum(e, d, i, d as nat),),
            g,
        ) && nll == loss::row_loss(x, d, i, target, g);
    let m = softmax::row_max(x, d, i, d as nat);
    let own = x[i * d + target];
    let f = rounding::difference(own, m);
    let h = rounding::difference(f, g);
    values::opposites_are_exact(h);
    values::opposites_are_exact(g);
    values::opposites_are_exact(m);
    values::differences_are_close(own, m);
    let k = value(own) - value(m);
    let gr = grain();
    values::grains(size(k));
    values::grains(size(value(g)));
    values::differences_of_near_numbers(f, g, k, value(g), gr * size(k), 0real);
    let v1 = value(g);
    assert(gr * (size(k) + size(v1)) == gr * size(k) + gr * size(v1))
        by (nonlinear_arith);
    let v1 = value(g);
    assert(gr * (size(v1) + size(k)) == gr * size(k) + gr * size(v1))
        by (nonlinear_arith);
    assert(softmax::row_exps(exp, x, d, i, e) && call_ensures(
        ln,
        (norms::row_sum(e, d, i, d as nat),),
        g,
    ));
}

/// How far predictions are from their targets.
pub open spec fn misses(pred: Seq<u32>, target: Seq<u32>) -> Seq<real> {
    Seq::new(pred.len(), |k: int| value(pred[k]) - value(target[k]))
}

spec fn rounded_misses(pred: Seq<u32>, target: Seq<u32>) -> Seq<u32> {
    Seq::new(pred.len(), |k: int| rounding::difference(pred[k], target[k]))
}

spec fn squared_misses(pred: Seq<u32>, target: Seq<u32>) -> Seq<u32> {
    Seq::new(
        pred.len(),
        |k: int|
            rounding::product(
                rounding::difference(pred[k], target[k]),
                rounding::difference(pred[k], target[k]),
            ),
    )
}

proof fn lemma_squares(pred: Seq<u32>, target: Seq<u32>, k: nat)
    requires
        k <= pred.len(),
    ensures
        loss::squares(pred, target, k) == loss::running_sum(squared_misses(pred, target), k),
    decreases k,
{
    if k > 0 {
        lemma_squares(pred, target, (k - 1) as nat);
    }
}

/// The mean squared error, times the number of elements, is the sum of the squared misses.
pub proof fn mean_square_is_shared_out(pred: Seq<u32>, target: Seq<u32>)
    requires
        0 < pred.len() <= 0x80_0000,
        pred.len() == target.len(),
        float_bits::finite(loss::mean_square(pred, target)),
    ensures
        ({
            let n = pred.len() as real;
            let exact = norm_laws::square_total(misses(pred, target), pred.len());
            size(value(loss::mean_square(pred, target)) * n - exact) <= (8real * n + 32real) * (
            grain() * exact) + 8real * (n * speck())
        }),
{
    let n = pred.len();
    let sq = squared_misses(pred, target);
    let (e, delta) = (rounded_misses(pred, target), misses(pred, target));
    lemma_squares(pred, target, n);
    let s = loss::squares(pred, target, n);
    values::inverse_counts_share_out(s, n as int);
    values::finite_sums_have_finite_parts(sq, n);
    assert forall|i: int| 0 <= i < n implies size(value(#[trigger] e[i]) - delta[i]) <= grain()
        * size(delta[i]) by {
        assert(float_bits::finite(sq[i]));
        values::opposites_are_exact(target[i]);
        values::differences_are_close(pred[i], target[i]);
    }
    norm_laws::sums_of_squares_are_close(e, sq, delta, n);
    let exact = norm_laws::square_total(delta, n);
    let (g, z, nr, v) = (grain(), speck(), n as real, value(s));
    let (gx, ns) = (g * exact, nr * z);
    values::grains(exact);
    values::specks_are_small();
    assert(ns > 0real) by (nonlinear_arith)
        requires
            ns == nr * z,
            nr >= 1real,
            z > 0real,
    ;
    let tau = (4real * nr + 4real) * gx + 2real * ns;
    values::grains(tau);
    assert(g * size(v) <= gx + g * tau) by (nonlinear_arith)
        requires
            size(v) <= exact + tau,
            gx == g * exact,
            g > 0real,
    ;
    assert((8real * nr + 32real) * gx == 2real * ((4real * nr + 4real) * gx) + 24real * gx)
        by (nonlinear_arith);
    let k = (4real * nr + 4real) * gx;
    assert(k >= 0real) by (nonlinear_arith)
        requires
            k == (4real * nr + 4real) * gx,
            nr >= 1real,
            gx >= 0real,
    ;
}

} // verus!
