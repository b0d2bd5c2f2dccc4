//! What holds of every linear layer.

use crate::float_bits;
use crate::float_bits::{NAN_BITS, SIGN_BIT};
use crate::layers::LinearView;
use crate::matrix;
use crate::params;
use crate::quant;
use crate::quant_laws;
use crate::rounding;
use vstd::arithmetic::power2::{lemma2_to64, lemma_pow2_pos, pow2};
use vstd::prelude::*;

verus! {

/// Neither minus zero nor an unusual NaN: what every sum that starts from zero is.
pub open spec fn clean(x: u32) -> bool {
    x != SIGN_BIT && (float_bits::nan(x) ==> x == NAN_BITS)
}

/// A finite number times zero is zero.
pub proof fn product_with_zero(x: u32, z: u32)
    requires
        float_bits::finite(x),
        float_bits::magnitude(z) == 0,
    ensures
        float_bits::magnitude(rounding::product(x, z)) == 0,
        float_bits::magnitude(rounding::product(z, x)) == 0,
{
    lemma2_to64();
    lemma_pow2_pos(149);
    let u = float_bits::units(x);
    assert(float_bits::units(z) == 0);
    assert(u * 0 == 0 && 0 * u == 0);
    let one = float_bits::one();
    assert(0int / one == 0 && 0int % one == 0) by {
        vstd::arithmetic::div_mod::lemma_fundamental_div_mod_converse(0, one, 0, 0);
    }
    assert(rounding::nearest(0, one) == 0);
}

/// Adding zero to a clean number changes nothing.
pub proof fn sum_with_zero(x: u32, z: u32)
    requires
        clean(x),
        float_bits::magnitude(z) == 0,
    ensures
        rounding::sum(x, z) == x,
{
    lemma2_to64();
    assert(float_bits::units(z) == 0);
    if float_bits::finite(x) {
        rounding::representable_values_are_kept(x);
        lemma_pow2_pos(float_bits::doublings(x));
        let u = float_bits::units(x);
        assert(u >= 0) by (nonlinear_arith)
            requires
                u == float_bits::mantissa(x) * pow2(float_bits::doublings(x)),
                float_bits::mantissa(x) >= 0,
        ;
        if float_bits::negative(x) {
            assert(float_bits::magnitude(x) > 0);
            assert(u > 0) by {
                if u == 0 {
                    assert(rounding::nearest(0, 1) == 0) by {
                        assert(0int / 1 == 0 && 0int % 1 == 0);
                    }
                }
            }
        }
    }
}

/// A finite number less itself is zero.
pub proof fn difference_with_itself(x: u32)
    requires
        float_bits::finite(x),
    ensures
        float_bits::magnitude(rounding::difference(x, x)) == 0,
{
    lemma2_to64();
    assert(rounding::nearest(0, 1) == 0) by {
        assert(0int / 1 == 0 && 0int % 1 == 0);
    }
}

/// A sum that begins with a clean number is clean.
pub proof fn sums_are_clean(x: u32, y: u32)
    requires
        clean(x),
    ensures
        clean(rounding::sum(x, y)),
{
    if float_bits::finite(x) && float_bits::finite(y) {
        let v = rounding::signed_units(x) + rounding::signed_units(y);
        if v < 0 {
            quant_laws::nearest_is_monotone(1, -v, 1);
            assert(rounding::nearest(1, 1) == 1) by {
                assert(1int / 1 == 1 && 1int % 1 == 0);
            }
        } else {
            rounding::nearest_is_not_negative(v, 1);
        }
    }
}

/// A sum of products is clean.
pub proof fn dots_are_clean(
    x: Seq<u32>,
    m: Seq<u32>,
    inner: int,
    cols: int,
    t: int,
    c: int,
    k: nat,
)
    ensures
        clean(matrix::dot_at(x, m, inner, cols, t, c, k)),
    decreases k,
{
    if k > 0 {
        let j = (k - 1) as nat;
        dots_are_clean(x, m, inner, cols, t, c, j);
        sums_are_clean(
            matrix::dot_at(x, m, inner, cols, t, c, j),
            rounding::product(x[t * inner + j], m[j * cols + c]),
        );
    }
}

/// Finite numbers times a zero matrix give zero.
pub proof fn dots_with_zeros_are_zero(
    x: Seq<u32>,
    m: Seq<u32>,
    rows: int,
    inner: int,
    cols: int,
    t: int,
    c: int,
    k: nat,
)
    requires
        x.len() == rows * inner,
        m.len() == inner * cols,
        0 <= t < rows,
        0 <= c < cols,
        k <= inner,
        forall|p: int| 0 <= p < x.len() ==> float_bits::finite(#[trigger] x[p]),
        forall|p: int| 0 <= p < m.len() ==> #[trigger] m[p] == 0,
    ensures
        matrix::dot_at(x, m, inner, cols, t, c, k) == 0,
    decreases k,
{
    if k > 0 {
        let j = k - 1;
        dots_with_zeros_are_zero(x, m, rows, inner, cols, t, c, j as nat);
        quant::cell_position(t, j, rows, inner);
        quant::cell_position(j, c, inner, cols);
        product_with_zero(x[t * inner + j], m[j * cols + c]);
        sum_with_zero(0, rounding::product(x[t * inner + j], m[j * cols + c]));
    }
}

/// What an adapter hands from its first matrix to its second.
pub open spec fn lowered(l: LinearView, x: Seq<u32>, n: int) -> Seq<u32> {
    let r = l.lora->0.rank as int;
    let i = l.inputs() as int;
    matrix::product_of(x, matrix::transposed(l.lora->0.a.data, r, i), n, i, r)
}

/// An adapter whose second matrix is zero leaves the output as it is, bit by bit. A fresh adapter
/// is of this kind, so that attaching one changes nothing.
pub proof fn fresh_adapters_change_nothing(l: LinearView, x: Seq<u32>, n: int)
    requires
        l.wf(),
        l.lora is Some,
        n >= 0,
        x.len() == n * l.inputs(),
        l.lora->0.b.data == params::zeros(l.lora->0.b.data.len()),
        float_bits::finite(l.lora->0.factor()),
        forall|p: int|
            0 <= p < lowered(l, x, n).len() ==> float_bits::finite(#[trigger] lowered(l, x, n)[p]),
    ensures
        l.output(x, n) == (LinearView { lora: None, ..l }).output(x, n),
{
    let a = l.lora->0;
    let (i, o, r) = (l.inputs() as int, l.outputs() as int, a.rank as int);
    let down = lowered(l, x, n);
    let bt = matrix::transposed(a.b.data, o, r);
    let up = matrix::product_of(down, bt, n, r, o);
    let inc = a.increment(x, n, i, o);
    let plain = l.backbone(x, n);
    assert(r * o == o * r) by (nonlinear_arith);
    assert forall|p: int| 0 <= p < bt.len() implies #[trigger] bt[p] == 0 by {
        quant::flat_position(p, r, o);
        quant::cell_position(p % o, p / o, o, r);
    }
    assert forall|p: int| 0 <= p < plain.len() implies rounding::sum(plain[p], inc[p])
        == #[trigger] plain[p] by {
        quant::flat_position(p, n, o);
        dots_with_zeros_are_zero(down, bt, n, r, o, p / o, p % o, r as nat);
        assert(up[p] == 0);
        product_with_zero(a.factor(), 0);
        assert(inc[p] == rounding::product(up[p], a.factor()));
        let base = l.base(x, n);
        assert(clean(base[p])) by {
            match l.quant {
                Some(q) => match q.scales() {
                    Some(s) => dots_are_clean(
                        crate::awq::unfolded_input(x, i, s),
                        q.q.values(),
                        i,
                        o,
                        p / o,
                        p % o,
                        i as nat,
                    ),
                    None => dots_are_clean(x, q.q.values(), i, o, p / o, p % o, i as nat),
                },
                None => dots_are_clean(x, l.weight.data, i, o, p / o, p % o, i as nat),
            }
        }
        sums_are_clean(base[p], l.bias.data[p % o]);
        sum_with_zero(plain[p], inc[p]);
    }
    assert(matrix::total(plain, inc) =~= plain);
    let bare = LinearView { lora: None, ..l };
    assert(bare.base(x, n) == l.base(x, n));
}

/// Writing a quantised weight out as plain numbers keeps the output, bit by bit, where the input
/// is not scaled.
pub proof fn dequantising_keeps_the_output(l: LinearView, x: Seq<u32>, n: int)
    requires
        l.quant matches Some(q) ==> q.scales() is None,
        l.quant matches Some(q) ==> q.wf(),
    ensures
        l.dequantized().output(x, n) == l.output(x, n),
{
    match l.quant {
        Some(q) => {
            q.q.shape();
        },
        None => {},
    }
}

/// Merging leaves a layer without adapter and without quantised weight, and merging again changes
/// nothing.
pub proof fn merging_twice_changes_nothing(l: LinearView)
    ensures
        l.merged().lora is None,
        l.merged().quant is None,
        l.merged().merged() == l.merged(),
        l.dequantized().dequantized() == l.dequantized(),
{
}

/// The names of a layer's parameters come in the order of its parameters.
pub proof fn names_follow_parameters(l: LinearView, prefix: Seq<char>)
    ensures
        params::contents(l.named(prefix)) == l.params(),
{
    assert(params::contents(l.named(prefix)) =~= l.params());
}

} // verus!
