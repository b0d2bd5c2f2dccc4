//! What a calibration sees of a text, and how its two ways of keeping moments agree.

use crate::calib;
use crate::calib::CalibOpts;
use crate::calibrate;
use crate::calibrate::Captured;
use crate::float_bits;
use crate::layer_laws;
use crate::model::ModelView;
use crate::model_run::Sight;
use crate::quant;
use crate::report::{CalibStats, LayerCalib};
use crate::roots;
use crate::rounding;
use crate::tracing;
use vstd::arithmetic::div_mod::lemma_fundamental_div_mod;
use vstd::prelude::*;

verus! {

/// The tokens of the first `k` passes, one pass after the other.
pub open spec fn fed(ids: Seq<usize>, len: int, k: nat) -> Seq<usize>
    decreases k,
{
    if k == 0 {
        Seq::empty()
    } else {
        fed(ids, len, (k - 1) as nat) + calibrate::pass_tokens(ids, len, k - 1)
    }
}

/// The tokens that are fed after `k` passes.
spec fn reach(tokens: int, len: int, k: int) -> int {
    if k * len <= tokens {
        k * len
    } else {
        tokens
    }
}

proof fn lemma_passes(tokens: int, len: int, k: int)
    requires
        0 <= tokens,
        len >= 1,
        0 <= k < calibrate::pass_count(tokens, len),
    ensures
        0 <= k * len < tokens,
        (k + 1) * len == k * len + len,
{
    let count = calibrate::pass_count(tokens, len);
    lemma_fundamental_div_mod(tokens + len - 1, len);
    assert(0 <= k * len && k * len <= (count - 1) * len && (count - 1) * len == count * len - len
        && (k + 1) * len == k * len + len) by (nonlinear_arith)
        requires
            0 <= k <= count - 1,
            len >= 1,
    ;
    assert(count * len <= tokens + len - 1) by (nonlinear_arith)
        requires
            tokens + len - 1 == len * count + (tokens + len - 1) % len,
            0 <= (tokens + len - 1) % len,
    ;
}

/// No pass has more tokens than its length.
pub proof fn passes_are_short(ids: Seq<usize>, len: int, p: int)
    requires
        len >= 1,
        0 <= p < calibrate::pass_count(ids.len() as int, len),
    ensures
        0 < calibrate::pass_tokens(ids, len, p).len() <= len,
{
    lemma_passes(ids.len() as int, len, p);
}

proof fn lemma_fed_is_a_prefix(ids: Seq<usize>, len: int, k: nat)
    requires
        len >= 1,
        k <= calibrate::pass_count(ids.len() as int, len),
    ensures
        fed(ids, len, k) == ids.take(reach(ids.len() as int, len, k as int)),
    decreases k,
{
    if k == 0 {
        assert(0 * len == 0);
        assert(fed(ids, len, k) =~= ids.take(0));
    } else {
        lemma_fed_is_a_prefix(ids, len, (k - 1) as nat);
        lemma_passes(ids.len() as int, len, k - 1);
        assert(fed(ids, len, k) =~= ids.take(reach(ids.len() as int, len, k as int)));
    }
}

/// The passes feed the whole text, every token once and in order.
pub proof fn passes_feed_the_whole_text(ids: Seq<usize>, len: int)
    requires
        len >= 1,
    ensures
        calibrate::pass_count(ids.len() as int, len) >= 0,
        fed(ids, len, calibrate::pass_count(ids.len() as int, len) as nat) == ids,
{
    let tokens = ids.len() as int;
    let count = calibrate::pass_count(tokens, len);
    lemma_fundamental_div_mod(tokens + len - 1, len);
    assert(count >= 0 && tokens <= count * len) by (nonlinear_arith)
        requires
            tokens + len - 1 == len * count + (tokens + len - 1) % len,
            0 <= (tokens + len - 1) % len < len,
            len >= 1,
            tokens >= 0,
            count == (tokens + len - 1) / len,
    ;
    lemma_fed_is_a_prefix(ids, len, count as nat);
    assert(ids.take(tokens) =~= ids);
}

proof fn lemma_rows_add_up(
    width: int,
    full: bool,
    ids: Seq<usize>,
    len: int,
    passes: Seq<Vec<Captured>>,
    layer: int,
    k: nat,
)
    requires
        len >= 1,
        k <= passes.len(),
        passes.len() == calibrate::pass_count(ids.len() as int, len),
        forall|p: int|
            0 <= p < passes.len() ==> (#[trigger] passes[p])@[layer].fits(width)
                && passes[p]@[layer].shape@[0] == calibrate::pass_tokens(ids, len, p).len(),
    ensures
        calibrate::gathered(width, full, passes, layer, k).seen == reach(
            ids.len() as int,
            len,
            k as int,
        ),
    decreases k,
{
    if k == 0 {
        assert(0 * len == 0);
    } else {
        lemma_rows_add_up(width, full, ids, len, passes, layer, (k - 1) as nat);
        lemma_passes(ids.len() as int, len, k - 1);
        assert(passes[k - 1]@[layer].fits(width));
    }
}

/// A layer that received one row per token in every pass has seen every token of the text, once.
pub proof fn every_token_is_counted(
    width: int,
    full: bool,
    ids: Seq<usize>,
    len: int,
    passes: Seq<Vec<Captured>>,
    layer: int,
)
    requires
        len >= 1,
        passes.len() == calibrate::pass_count(ids.len() as int, len),
        forall|p: int|
            0 <= p < passes.len() ==> (#[trigger] passes[p])@[layer].fits(width)
                && passes[p]@[layer].shape@[0] == calibrate::pass_tokens(ids, len, p).len(),
    ensures
        calibrate::gathered(width, full, passes, layer, passes.len()).seen == ids.len(),
{
    passes_feed_the_whole_text(ids, len);
    lemma_rows_add_up(width, full, ids, len, passes, layer, passes.len());
    lemma_fed_is_a_prefix(ids, len, passes.len());
    assert(fed(ids, len, passes.len()).len() == ids.len());
}

/// The diagonal that is kept of a wide layer is the diagonal of the matrix that would have been
/// kept of a narrow one; the magnitudes and the count are the same in either case.
pub proof fn diagonals_are_diagonals(
    width: int,
    passes: Seq<Vec<Captured>>,
    layer: int,
    k: nat,
    j: int,
)
    requires
        0 <= j < width,
    ensures
        ({
            let whole = calibrate::gathered(width, true, passes, layer, k);
            let part = calibrate::gathered(width, false, passes, layer, k);
            &&& part.moments[j] == whole.moments[j * width + j]
            &&& part.magnitudes == whole.magnitudes
            &&& part.seen == whole.seen
        }),
    decreases k,
{
    quant::cell_position(j, j, width, width);
    calibrate::sums_keep_their_size(width, true, passes, layer, k);
    calibrate::sums_keep_their_size(width, false, passes, layer, k);
    if k > 0 {
        diagonals_are_diagonals(width, passes, layer, (k - 1) as nat, j);
        calibrate::sums_keep_their_size(width, true, passes, layer, (k - 1) as nat);
        calibrate::sums_keep_their_size(width, false, passes, layer, (k - 1) as nat);
        assert(calib::smaller(j, j) == j && calib::larger(j, j) == j);
    }
}

/// Whether two runs handed the layers the same inputs.
pub open spec fn same_inputs(a: Seq<Vec<Captured>>, b: Seq<Vec<Captured>>) -> bool {
    &&& a.len() == b.len()
    &&& forall|p: int| 0 <= p < a.len() ==> (#[trigger] a[p])@.len() == b[p]@.len()
    &&& forall|p: int, layer: int|
        #![trigger a[p]@[layer]]
        #![trigger b[p]@[layer]]
        0 <= p < a.len() && 0 <= layer < a[p]@.len() ==> a[p]@[layer].data@
            == b[p]@[layer].data@ && a[p]@[layer].shape@ == b[p]@[layer].shape@
}

proof fn lemma_same_sums(
    width: int,
    full: bool,
    a: Seq<Vec<Captured>>,
    b: Seq<Vec<Captured>>,
    layer: int,
    k: nat,
)
    requires
        same_inputs(a, b),
        k <= a.len(),
        0 <= layer,
        forall|p: int| 0 <= p < a.len() ==> layer < (#[trigger] a[p])@.len(),
    ensures
        calibrate::gathered(width, full, a, layer, k) == calibrate::gathered(
            width,
            full,
            b,
            layer,
            k,
        ),
    decreases k,
{
    if k > 0 {
        lemma_same_sums(width, full, a, b, layer, (k - 1) as nat);
        assert(a[k - 1]@[layer].data@ == b[k - 1]@[layer].data@);
    }
}

/// How many tokens a layer saw does not depend on what is kept of its moments.
proof fn lemma_same_count(width: int, passes: Seq<Vec<Captured>>, layer: int, k: nat)
    ensures
        calibrate::gathered(width, true, passes, layer, k).seen == calibrate::gathered(
            width,
            false,
            passes,
            layer,
            k,
        ).seen,
        calibrate::gathered(width, true, passes, layer, k).magnitudes == calibrate::gathered(
            width,
            false,
            passes,
            layer,
            k,
        ).magnitudes,
    decreases k,
{
    if k > 0 {
        lemma_same_count(width, passes, layer, (k - 1) as nat);
    }
}

proof fn lemma_same_layers(
    m: ModelView,
    o1: CalibOpts,
    o2: CalibOpts,
    a: Seq<Vec<Captured>>,
    b: Seq<Vec<Captured>>,
    n: nat,
)
    requires
        same_inputs(a, b),
        forall|p: int| 0 <= p < a.len() ==> n <= (#[trigger] a[p])@.len(),
    ensures
        calibrate::seen_layers(m, o1, a, n) == calibrate::seen_layers(m, o2, b, n),
        forall|i: int|
            0 <= i < calibrate::seen_layers(m, o1, a, n).len() ==> 0
                <= #[trigger] calibrate::seen_layers(m, o1, a, n)[i] < n,
    decreases n,
{
    if n > 0 {
        lemma_same_layers(m, o1, o2, a, b, (n - 1) as nat);
        let width = m.linears()[n - 1].1.inputs() as int;
        lemma_same_sums(width, true, a, b, n - 1, a.len());
        lemma_same_sums(width, false, a, b, n - 1, a.len());
        lemma_same_count(width, a, n - 1, a.len());
    }
}

/// The report on a layer has as many means as the layer has inputs, and its moments are of that
/// order.
pub proof fn reports_match_the_layer(c: LayerCalib, full: bool, s: calibrate::Sums, width: int)
    requires
        width >= 0,
        calibrate::is_report(c, full, s),
        s.magnitudes.len() == width,
        s.moments.len() == if full {
            width * width
        } else {
            width
        },
    ensures
        c.hessian->0.wf(),
        c.hessian->0.order() == width,
        c.act_abs_mean->0@.len() == width,
{
    if full {
        let h = c.hessian->0->Full_0@;
        assert(h.len() == width * width);
        assert((width + 1) * (width + 1) > width * width) by (nonlinear_arith)
            requires
                width >= 0,
        ;
        roots::floor_root_is_unique(width, h.len() as int);
    }
}

/// Two reports on a layer that saw the same inputs have the same diagonal, whatever is kept.
proof fn lemma_same_diagonal(
    c1: LayerCalib,
    c2: LayerCalib,
    f1: bool,
    f2: bool,
    passes: Seq<Vec<Captured>>,
    layer: int,
    width: int,
)
    requires
        width >= 0,
        calibrate::is_report(c1, f1, calibrate::gathered(width, f1, passes, layer, passes.len())),
        calibrate::is_report(c2, f2, calibrate::gathered(width, f2, passes, layer, passes.len())),
    ensures
        c1.hessian->0.diagonal_seq() == c2.hessian->0.diagonal_seq(),
{
    let k = passes.len();
    calibrate::sums_keep_their_size(width, f1, passes, layer, k);
    calibrate::sums_keep_their_size(width, f2, passes, layer, k);
    let s1 = calibrate::gathered(width, f1, passes, layer, k);
    let s2 = calibrate::gathered(width, f2, passes, layer, k);
    reports_match_the_layer(c1, f1, s1, width);
    reports_match_the_layer(c2, f2, s2, width);
    let d1 = c1.hessian->0.diagonal_seq();
    let d2 = c2.hessian->0.diagonal_seq();
    lemma_same_count(width, passes, layer, k);
    assert forall|j: int| 0 <= j < width implies d1[j] == d2[j] by {
        quant::cell_position(j, j, width, width);
        diagonals_are_diagonals(width, passes, layer, k, j);
    }
    assert(d1 =~= d2);
}

/// Whether place `i` of two calibrations reports on the layer `l`: under its name, with the same
/// diagonal, means and count of tokens, of the order of its input width, and with the whole matrix
/// exactly when that width is within the limit of the options.
pub open spec fn same_entry(
    m: ModelView,
    o1: CalibOpts,
    o2: CalibOpts,
    s1: CalibStats,
    s2: CalibStats,
    l: int,
    i: int,
) -> bool {
    let (n1, c1) = s1.per_layer@[i];
    let (n2, c2) = s2.per_layer@[i];
    let width = m.linears()[l].1.inputs();
    &&& n1@ == m.linears()[l].0
    &&& n2@ == n1@
    &&& c2.n_tokens == c1.n_tokens
    &&& c2.act_abs_mean->0@ == c1.act_abs_mean->0@
    &&& c2.hessian->0.diagonal_seq() == c1.hessian->0.diagonal_seq()
    &&& c1.hessian->0 is Full == (width <= o1.full_hessian_max_dim)
    &&& c2.hessian->0 is Full == (width <= o2.full_hessian_max_dim)
    &&& c1.hessian->0.order() == width
    &&& c2.hessian->0.order() == width
    &&& c1.act_abs_mean->0@.len() == width
}

/// Two calibrations over the same inputs whose options differ in nothing but the largest order of
/// a whole matrix agree on the layers, their order, the diagonals, the means and the counts. A
/// layer keeps the whole matrix exactly when its input width is within that limit.
pub proof fn only_the_moments_depend_on_the_limit<
    M: Fn(usize, Vec<u32>, &Sight) -> Vec<u32>,
    E: Fn(u32) -> u32,
    G: Fn(u32) -> u32,
    S: Fn(u32, u32) -> u32,
>(
    m: ModelView,
    ids: Seq<usize>,
    o1: CalibOpts,
    o2: CalibOpts,
    mix: &M,
    exp: &E,
    gelu: &G,
    swiglu: &S,
    a: Seq<Vec<Captured>>,
    b: Seq<Vec<Captured>>,
    s1: CalibStats,
    s2: CalibStats,
)
    requires
        same_inputs(a, b),
        calibrate::is_calibration(m, ids, o1, mix, exp, gelu, swiglu, a, s1),
        calibrate::is_calibration(m, ids, o2, mix, exp, gelu, swiglu, b, s2),
    ensures
        s1.per_layer@.len() == s2.per_layer@.len(),
        forall|i: int|
            0 <= i < s1.per_layer@.len() ==> #[trigger] same_entry(
                m,
                o1,
                o2,
                s1,
                s2,
                calibrate::seen_layers(m, o1, a, m.linears().len())[i],
                i,
            ),
{
    let n = m.linears().len();
    assert forall|p: int| 0 <= p < a.len() implies (#[trigger] a[p])@.len() == n by {
        assert(tracing::is_trace(
            m,
            mix,
            exp,
            gelu,
            swiglu,
            calibrate::pass_tokens(
                ids,
                calibrate::pass_length(o1.max_seq as int, m.cfg.block_size as int),
                p,
            ),
            a[p]@,
        ));
    }
    lemma_same_layers(m, o1, o2, a, b, n);
    let layers = calibrate::seen_layers(m, o1, a, n);
    assert forall|i: int| 0 <= i < s1.per_layer@.len() implies #[trigger] same_entry(
        m,
        o1,
        o2,
        s1,
        s2,
        layers[i],
        i,
    ) by {
        let l = layers[i];
        let c1 = s1.per_layer@[i].1;
        let c2 = s2.per_layer@[i].1;
        let width = m.linears()[l].1.inputs() as int;
        let f1 = calibrate::keeps_matrix(m, o1, l);
        let f2 = calibrate::keeps_matrix(m, o2, l);
        let k = a.len();
        lemma_same_sums(width, f2, a, b, l, k);
        lemma_same_count(width, a, l, k);
        calibrate::sums_keep_their_size(width, f1, a, l, k);
        calibrate::sums_keep_their_size(width, f2, a, l, k);
        assert(calibrate::is_report(c1, f1, calibrate::gathered(width, f1, a, l, k)));
        assert(calibrate::is_report(c2, f2, calibrate::gathered(width, f2, a, l, k)));
        lemma_same_diagonal(c1, c2, f1, f2, a, l, width);
        reports_match_the_layer(c1, f1, calibrate::gathered(width, f1, a, l, k), width);
        reports_match_the_layer(c2, f2, calibrate::gathered(width, f2, a, l, k), width);
    }
}

/// Adding zero first changes nothing.
proof fn lemma_zero_first(s: u32, p: u32)
    requires
        layer_laws::clean(s),
    ensures
        rounding::sum(s, rounding::sum(0, p)) == rounding::sum(s, p),
{
    assert(float_bits::magnitude(0) == 0);
    if float_bits::magnitude(p) == 0 {
        layer_laws::sum_with_zero(0, p);
        layer_laws::sum_with_zero(s, 0);
        layer_laws::sum_with_zero(s, p);
    } else if !float_bits::nan(p) {
        layer_laws::sum_with_zero(p, 0);
        assert(rounding::sum(0, p) == rounding::sum(p, 0));
    }
}

/// Merging the statistics of a single row is observing that row. The sums that are merged into
/// hold no minus zero and no unusual NaN, which no sum does that starts from zero.
pub proof fn merging_a_row_is_observing_it(h: Seq<u32>, mags: Seq<u32>, x: Seq<u32>, n: int)
    requires
        n >= 0,
        x.len() == n,
        h.len() == n * n,
        mags.len() == n,
        forall|p: int| 0 <= p < h.len() ==> layer_laws::clean(#[trigger] h[p]),
        forall|p: int| 0 <= p < n ==> layer_laws::clean(#[trigger] mags[p]),
    ensures
        calib::added(
            h,
            calib::moments_after(Seq::new((n * n) as nat, |i: int| 0u32), x, n, 1),
        ) == calib::moments_after(h, x, n, 1),
        calib::added(
            mags,
            calib::abs_sums_after(Seq::new(n as nat, |i: int| 0u32), x, n, 1),
        ) == calib::abs_sums_after(mags, x, n, 1),
{
    reveal_with_fuel(calib::moment, 2);
    reveal_with_fuel(calib::abs_sum, 2);
    let zeros = Seq::new((n * n) as nat, |i: int| 0u32);
    let one = calib::moments_after(zeros, x, n, 1);
    let all = calib::moments_after(h, x, n, 1);
    assert forall|p: int| 0 <= p < h.len() implies calib::added(h, one)[p] == all[p] by {
        let j = calib::smaller(p / n, p % n);
        let k = calib::larger(p / n, p % n);
        lemma_zero_first(h[p], rounding::product(x[0 * n + j], x[0 * n + k]));
    }
    assert(calib::added(h, one) =~= all);
    let zeros = Seq::new(n as nat, |i: int| 0u32);
    let one = calib::abs_sums_after(zeros, x, n, 1);
    let all = calib::abs_sums_after(mags, x, n, 1);
    assert forall|p: int| 0 <= p < n implies calib::added(mags, one)[p] == all[p] by {
        lemma_zero_first(mags[p], float_bits::magnitude(x[0 * n + p]));
    }
    assert(calib::added(mags, one) =~= all);
}

/// By how much an addition was rounded, in units.
pub open spec fn rounded_off(x: u32, y: u32) -> int {
    let e = rounding::signed_units(rounding::sum(x, y)) - rounding::signed_units(x)
        - rounding::signed_units(y);
    if e < 0 {
        -e
    } else {
        e
    }
}

/// The products of two columns over the first `rows` rows, added without rounding, in units.
pub open spec fn exact_sum(x: Seq<u32>, n: int, rows: nat, j: int, k: int) -> int
    decreases rows,
{
    if rows == 0 {
        0
    } else {
        let t = rows - 1;
        exact_sum(x, n, t as nat, j, k) + rounding::signed_units(
            rounding::product(x[t * n + j], x[t * n + k]),
        )
    }
}

/// By how much the additions that gather a moment were rounded, all together.
pub open spec fn moment_drift(s: u32, x: Seq<u32>, n: int, rows: nat, j: int, k: int) -> int
    decreases rows,
{
    if rows == 0 {
        0
    } else {
        let t = rows - 1;
        moment_drift(s, x, n, t as nat, j, k) + rounded_off(
            calib::moment(s, x, n, t as nat, j, k),
            rounding::product(x[t * n + j], x[t * n + k]),
        )
    }
}

/// The magnitudes of a column over the first `rows` rows, added without rounding, in units.
pub open spec fn exact_magnitude(x: Seq<u32>, n: int, rows: nat, j: int) -> int
    decreases rows,
{
    if rows == 0 {
        0
    } else {
        let t = rows - 1;
        exact_magnitude(x, n, t as nat, j) + rounding::signed_units(
            float_bits::magnitude(x[t * n + j]),
        )
    }
}

/// By how much the additions that gather magnitudes were rounded, all together.
pub open spec fn magnitude_drift(s: u32, x: Seq<u32>, n: int, rows: nat, j: int) -> int
    decreases rows,
{
    if rows == 0 {
        0
    } else {
        let t = rows - 1;
        magnitude_drift(s, x, n, t as nat, j) + rounded_off(
            calib::abs_sum(s, x, n, t as nat, j),
            float_bits::magnitude(x[t * n + j]),
        )
    }
}

proof fn lemma_moment_drifts(s: u32, x: Seq<u32>, n: int, rows: nat, j: int, k: int)
    ensures
        ({
            let exact = rounding::signed_units(s) + exact_sum(x, n, rows, j, k);
            let got = rounding::signed_units(calib::moment(s, x, n, rows, j, k));
            -moment_drift(s, x, n, rows, j, k) <= got - exact <= moment_drift(
                s,
                x,
                n,
                rows,
                j,
                k,
            )
        }),
    decreases rows,
{
    if rows > 0 {
        lemma_moment_drifts(s, x, n, (rows - 1) as nat, j, k);
    }
}

proof fn lemma_magnitude_drifts(s: u32, x: Seq<u32>, n: int, rows: nat, j: int)
    ensures
        ({
            let exact = rounding::signed_units(s) + exact_magnitude(x, n, rows, j);
            let got = rounding::signed_units(calib::abs_sum(s, x, n, rows, j));
            -magnitude_drift(s, x, n, rows, j) <= got - exact <= magnitude_drift(s, x, n, rows, j)
        }),
    decreases rows,
{
    if rows > 0 {
        lemma_magnitude_drifts(s, x, n, (rows - 1) as nat, j);
    }
}

/// Whether two numbers are at most so many units apart.
pub open spec fn within(a: u32, b: u32, units: int) -> bool {
    -units <= rounding::signed_units(a) - rounding::signed_units(b) <= units
}

/// Merging the statistics of a batch is observing its rows, up to rounding: for any number of rows,
/// a moment and a sum of magnitudes that were merged differ from those that were observed by no
/// more than what the additions on both ways were rounded by.
pub proof fn merging_is_observing_up_to_rounding(
    h: Seq<u32>,
    mags: Seq<u32>,
    x: Seq<u32>,
    n: int,
    rows: nat,
    j: int,
    k: int,
)
    requires
        0 <= j < n,
        0 <= k < n,
        x.len() == rows * n,
        h.len() == n * n,
        mags.len() == n,
    ensures
        ({
            let p = j * n + k;
            let (a, b) = (calib::smaller(j, k), calib::larger(j, k));
            let part = calib::moments_after(Seq::new((n * n) as nat, |i: int| 0u32), x, n, rows);
            within(
                calib::added(h, part)[p],
                calib::moments_after(h, x, n, rows)[p],
                moment_drift(h[p], x, n, rows, a, b) + moment_drift(0, x, n, rows, a, b)
                    + rounded_off(h[p], part[p]),
            )
        }),
        ({
            let part = calib::abs_sums_after(Seq::new(n as nat, |i: int| 0u32), x, n, rows);
            within(
                calib::added(mags, part)[j],
                calib::abs_sums_after(mags, x, n, rows)[j],
                magnitude_drift(mags[j], x, n, rows, j) + magnitude_drift(0, x, n, rows, j)
                    + rounded_off(mags[j], part[j]),
            )
        }),
{
    quant::cell_position(j, k, n, n);
    let p = j * n + k;
    let (a, b) = (calib::smaller(j, k), calib::larger(j, k));
    assert(0 * vstd::arithmetic::power2::pow2(float_bits::doublings(0)) == 0);
    assert(rounding::signed_units(0) == 0);
    lemma_moment_drifts(h[p], x, n, rows, a, b);
    lemma_moment_drifts(0, x, n, rows, a, b);
    lemma_magnitude_drifts(mags[j], x, n, rows, j);
    lemma_magnitude_drifts(0, x, n, rows, j);
}

proof fn lemma_moments_are_clean(s: u32, x: Seq<u32>, n: int, rows: nat, j: int, k: int)
    requires
        layer_laws::clean(s),
    ensures
        layer_laws::clean(calib::moment(s, x, n, rows, j, k)),
    decreases rows,
{
    if rows > 0 {
        let t = rows - 1;
        lemma_moments_are_clean(s, x, n, t as nat, j, k);
        layer_laws::sums_are_clean(
            calib::moment(s, x, n, t as nat, j, k),
            rounding::product(x[t * n + j], x[t * n + k]),
        );
    }
}

proof fn lemma_magnitudes_are_clean(s: u32, x: Seq<u32>, n: int, rows: nat, j: int)
    requires
        layer_laws::clean(s),
    ensures
        layer_laws::clean(calib::abs_sum(s, x, n, rows, j)),
    decreases rows,
{
    if rows > 0 {
        let t = rows - 1;
        lemma_magnitudes_are_clean(s, x, n, t as nat, j);
        layer_laws::sums_are_clean(
            calib::abs_sum(s, x, n, t as nat, j),
            float_bits::magnitude(x[t * n + j]),
        );
    }
}

/// A finite number other than minus zero is the rounding of its own units.
proof fn lemma_units_give_back(v: u32)
    requires
        layer_laws::clean(v),
        float_bits::finite(v),
    ensures
        rounding::from_units(rounding::signed_units(v)) == v,
{
    assert(0 * vstd::arithmetic::power2::pow2(float_bits::doublings(0)) == 0);
    assert(rounding::signed_units(0) == 0);
    layer_laws::sum_with_zero(v, 0);
}

/// Whether gathering the rows from this start never leaves the finite numbers and is, all told, not
/// rounded.
pub open spec fn gathers_exactly(s: u32, m: u32, x: Seq<u32>, n: int, rows: nat, j: int, k: int) -> bool {
    let moment = calib::moment(s, x, n, rows, j, k);
    let magnitude = calib::abs_sum(m, x, n, rows, j);
    &&& float_bits::finite(moment)
    &&& rounding::signed_units(moment) == rounding::signed_units(s) + exact_sum(x, n, rows, j, k)
    &&& float_bits::finite(magnitude)
    &&& rounding::signed_units(magnitude) == rounding::signed_units(m) + exact_magnitude(
        x,
        n,
        rows,
        j,
    )
}

/// Merging the statistics of a batch is observing its rows, bit for bit, wherever neither way
/// rounds: for any number of rows.
pub proof fn merging_is_observing_where_nothing_rounds(
    h: Seq<u32>,
    mags: Seq<u32>,
    x: Seq<u32>,
    n: int,
    rows: nat,
)
    requires
        n >= 0,
        x.len() == rows * n,
        h.len() == n * n,
        mags.len() == n,
        forall|p: int|
            0 <= p < h.len() ==> layer_laws::clean(#[trigger] h[p]) && float_bits::finite(h[p]),
        forall|p: int|
            0 <= p < n ==> layer_laws::clean(#[trigger] mags[p]) && float_bits::finite(mags[p]),
        forall|j: int, k: int|
            0 <= j <= k < n ==> #[trigger] gathers_exactly(0, 0, x, n, rows, j, k),
        forall|j: int, k: int|
            #![trigger calib::moment(h[j * n + k], x, n, rows, j, k)]
            0 <= j <= k < n ==> gathers_exactly(h[j * n + k], mags[j], x, n, rows, j, k)
                && gathers_exactly(h[k * n + j], mags[j], x, n, rows, j, k),
    ensures
        calib::added(
            h,
            calib::moments_after(Seq::new((n * n) as nat, |i: int| 0u32), x, n, rows),
        ) == calib::moments_after(h, x, n, rows),
        calib::added(
            mags,
            calib::abs_sums_after(Seq::new(n as nat, |i: int| 0u32), x, n, rows),
        ) == calib::abs_sums_after(mags, x, n, rows),
{
    assert(0 * vstd::arithmetic::power2::pow2(float_bits::doublings(0)) == 0);
    assert(rounding::signed_units(0) == 0);
    let zeros = Seq::new((n * n) as nat, |i: int| 0u32);
    let part = calib::moments_after(zeros, x, n, rows);
    let all = calib::moments_after(h, x, n, rows);
    assert forall|p: int| 0 <= p < h.len() implies calib::added(h, part)[p] == all[p] by {
        quant::flat_position(p, n, n);
        let (j, k) = (calib::smaller(p / n, p % n), calib::larger(p / n, p % n));
        let s = h[p];
        let m = calib::moment(0, x, n, rows, j, k);
        let whole = calib::moment(s, x, n, rows, j, k);
        assert(part[p] == m && all[p] == whole);
        assert(gathers_exactly(0, 0, x, n, rows, j, k));
        let near = calib::moment(h[j * n + k], x, n, rows, j, k);
        assert(p == j * n + k || p == k * n + j);
        lemma_moments_are_clean(s, x, n, rows, j, k);
        lemma_units_give_back(whole);
        assert(rounding::sum(s, m) == rounding::from_units(
            rounding::signed_units(s) + rounding::signed_units(m),
        ));
    }
    assert(calib::added(h, part) =~= all);
    let zeros = Seq::new(n as nat, |i: int| 0u32);
    let part = calib::abs_sums_after(zeros, x, n, rows);
    let all = calib::abs_sums_after(mags, x, n, rows);
    assert forall|j: int| 0 <= j < n implies calib::added(mags, part)[j] == all[j] by {
        let s = mags[j];
        let m = calib::abs_sum(0, x, n, rows, j);
        let whole = calib::abs_sum(s, x, n, rows, j);
        assert(part[j] == m && all[j] == whole);
        assert(gathers_exactly(0, 0, x, n, rows, j, j));
        let near = calib::moment(h[j * n + j], x, n, rows, j, j);
        lemma_magnitudes_are_clean(s, x, n, rows, j);
        lemma_units_give_back(whole);
        assert(rounding::sum(s, m) == rounding::from_units(
            rounding::signed_units(s) + rounding::signed_units(m),
        ));
    }
    assert(calib::added(mags, part) =~= all);
}

} // verus!
