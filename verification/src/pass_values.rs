//! What the halves of a block add to their rows, and the order in which channels are rounded.

use crate::block::{BlockView, PassRecord};
use crate::float_bits;
use crate::forward;
use crate::gptq;
use crate::matrix;
use crate::model_run::Sight;
use crate::order_laws;
use crate::quant;
use crate::values;
use crate::values::{grain, size, value};
use vstd::prelude::*;

verus! {

/// The first half of a block adds to its rows: whatever attention and dropout make of the normalised
/// rows comes on top of the rows themselves.
pub proof fn attention_adds_to_the_rows<
    A: Fn(usize, Vec<u32>, &Sight) -> Vec<u32>,
    D: Fn(Vec<u32>, u32, bool) -> Vec<u32>,
>(
    b: BlockView,
    attn: &A,
    sight: Sight,
    drop: &D,
    training: bool,
    layer: usize,
    x: Seq<u32>,
    d: int,
    mid: Seq<u32>,
    p: int,
)
    requires
        forward::attended(b, attn, sight, drop, training, layer, x, d, mid),
        0 <= p < x.len(),
        float_bits::finite(mid[p]),
    ensures
        mid.len() == x.len(),
        exists|h: Seq<u32>, r: Seq<u32>| #[trigger]
            forward::attends(attn, sight, layer, b.ln1.output(x, d), h) && #[trigger] forward::drops(
                drop,
                training,
                b.dropout,
                h,
                r,
            ) && size(value(mid[p]) - (value(x[p]) + value(r[p]))) <= grain() * size(
                value(x[p]) + value(r[p]),
            ),
{
    let (h, r) = choose|h: Seq<u32>, r: Seq<u32>| #[trigger]
        forward::attends(attn, sight, layer, b.ln1.output(x, d), h) && #[trigger] forward::drops(
            drop,
            training,
            b.dropout,
            h,
            r,
        ) && mid == matrix::total(x, r);
    values::sums_are_close(x[p], r[p]);
    assert(forward::attends(attn, sight, layer, b.ln1.output(x, d), h) && forward::drops(
        drop,
        training,
        b.dropout,
        h,
        r,
    ));
}

/// The second half of a block adds to its rows as well.
pub proof fn feeding_adds_to_the_rows<
    D: Fn(Vec<u32>, u32, bool) -> Vec<u32>,
    E: Fn(u32) -> u32,
    L: Fn(u32) -> u32,
    G: Fn(u32) -> u32,
    S: Fn(u32, u32) -> u32,
>(
    b: BlockView,
    drop: &D,
    training: bool,
    exp: &E,
    ln: &L,
    gelu: &G,
    swiglu: &S,
    mid: Seq<u32>,
    n: int,
    d: int,
    y: Seq<u32>,
    kept: PassRecord,
    p: int,
)
    requires
        forward::fed(b, drop, training, exp, ln, gelu, swiglu, mid, n, d, y, kept),
        0 <= p < mid.len(),
        float_bits::finite(y[p]),
    ensures
        y.len() == mid.len(),
        exists|f: Seq<u32>, r: Seq<u32>| #[trigger]
            forward::feeds(
                b.ffn,
                exp,
                ln,
                gelu,
                swiglu,
                b.ln2.output(mid, d),
                n,
                d,
                f,
                kept,
            ) && #[trigger] forward::drops(drop, training, b.dropout, f, r) && size(
                value(y[p]) - (value(mid[p]) + value(r[p])),
            ) <= grain() * size(value(mid[p]) + value(r[p])),
{
    let (f, r) = choose|f: Seq<u32>, r: Seq<u32>| #[trigger]
        forward::feeds(b.ffn, exp, ln, gelu, swiglu, b.ln2.output(mid, d), n, d, f, kept)
            && #[trigger] forward::drops(drop, training, b.dropout, f, r) && y
            == matrix::total(mid, r);
    values::sums_are_close(mid[p], r[p]);
    assert(forward::feeds(b.ffn, exp, ln, gelu, swiglu, b.ln2.output(mid, d), n, d, f, kept)
        && forward::drops(drop, training, b.dropout, f, r));
}

/// With channels in the order of their importance, none is rounded before a more important one.
pub proof fn important_channels_come_first(perm: Seq<usize>, diag: Seq<u32>, i: int, j: int)
    requires
        gptq::is_order(perm, diag, true),
        0 <= i < j < perm.len(),
        !float_bits::nan(diag[perm[j] as int]),
    ensures
        order_laws::at_most(diag[perm[j] as int], diag[perm[i] as int]),
{
    assert(gptq::before(diag, perm[i] as int, perm[j] as int));
}

/// Taking rows and columns in an order moves every cell with its row and its column.
pub proof fn permuting_moves_cells(h: Seq<u32>, n: int, perm: Seq<usize>, i: int, j: int)
    requires
        0 <= i < n,
        0 <= j < n,
    ensures
        gptq::permuted(h, n, perm)[i * n + j] == h[perm[i] * n + perm[j]],
{
    quant::cell_position(i, j, n, n);
}

} // verus!
