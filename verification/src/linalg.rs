//! Cholesky factors and inverses of square matrices of single-precision numbers.
//!
//! Matrices are row-major `n * n` sequences of bit patterns.

use crate::float_bits;
use crate::float_bits::ONE_BITS;
use crate::quant;
use crate::roots;
use crate::rounding;
use vstd::prelude::*;

verus! {

/// The element in row `i` and column `j`.
pub open spec fn cell(m: Seq<u32>, n: int, i: int, j: int) -> u32 {
    m[i * n + j]
}

/// Writing one cell leaves the others alone.
pub proof fn write_one_cell(m: Seq<u32>, n: int, i: int, j: int, v: u32)
    requires
        m.len() == n * n,
        0 <= i < n,
        0 <= j < n,
    ensures
        0 <= i * n + j < m.len(),
        forall|i2: int, j2: int|
            0 <= i2 < n && 0 <= j2 < n ==> #[trigger] cell(m.update(i * n + j, v), n, i2, j2) == (
            if i2 == i && j2 == j {
                v
            } else {
                cell(m, n, i2, j2)
            }),
{
    quant::cell_position(i, j, n, n);
    assert forall|i2: int, j2: int| 0 <= i2 < n && 0 <= j2 < n implies #[trigger] cell(
        m.update(i * n + j, v),
        n,
        i2,
        j2,
    ) == (if i2 == i && j2 == j {
        v
    } else {
        cell(m, n, i2, j2)
    }) by {
        quant::cell_position(i2, j2, n, n);
    }
}

/// Every cell of an all-zero matrix is zero.
proof fn zeros_are_zero(m: Seq<u32>, n: int)
    requires
        m.len() == n * n,
        forall|i: int| 0 <= i < m.len() ==> #[trigger] m[i] == 0,
    ensures
        forall|i: int, j: int| 0 <= i < n && 0 <= j < n ==> #[trigger] cell(m, n, i, j) == 0,
{
    assert forall|i: int, j: int| 0 <= i < n && 0 <= j < n implies #[trigger] cell(m, n, i, j)
        == 0 by {
        quant::cell_position(i, j, n, n);
    }
}

/// `a[i][j]` less the products `l[i][k] * l[j][k]` for `k` below `depth`, subtracted in order.
pub open spec fn reduced(a: Seq<u32>, l: Seq<u32>, n: int, i: int, j: int, depth: nat) -> u32
    decreases depth,
{
    if depth == 0 {
        cell(a, n, i, j)
    } else {
        let k = depth - 1;
        rounding::difference(
            reduced(a, l, n, i, j, k as nat),
            rounding::product(cell(l, n, i, k), cell(l, n, j, k)),
        )
    }
}

/// The number whose root is the `j`-th diagonal element of the factor.
pub open spec fn pivot(a: Seq<u32>, l: Seq<u32>, n: int, j: int) -> u32 {
    reduced(a, l, n, j, j, j as nat)
}

/// Whether `l[i][j]` is what the Cholesky recurrence asks for.
pub open spec fn factor_cell(a: Seq<u32>, l: Seq<u32>, n: int, i: int, j: int) -> bool {
    if i < j {
        cell(l, n, i, j) == 0
    } else if i == j {
        float_bits::positive(pivot(a, l, n, j)) && cell(l, n, j, j) == roots::root(
            pivot(a, l, n, j),
        )
    } else {
        cell(l, n, i, j) == rounding::quotient(
            reduced(a, l, n, i, j, j as nat),
            cell(l, n, j, j),
        )
    }
}

/// Whether the first `cols` columns of `l` are those of the Cholesky factor of `a`.
pub open spec fn factor_columns(a: Seq<u32>, l: Seq<u32>, n: int, cols: int) -> bool {
    l.len() == n * n && forall|i: int, j: int|
        0 <= i < n && 0 <= j < cols ==> #[trigger] factor_cell(a, l, n, i, j)
}

/// Whether the factorisation gets to column `j` and finds a pivot that is no positive number.
pub open spec fn stops_at(a: Seq<u32>, l: Seq<u32>, n: int, j: int) -> bool {
    0 <= j < n && factor_columns(a, l, n, j) && !float_bits::positive(pivot(a, l, n, j))
}

/// Whether a matrix holds finite numbers only.
pub open spec fn all_finite(a: Seq<u32>) -> bool {
    forall|i: int| 0 <= i < a.len() ==> float_bits::finite(#[trigger] a[i])
}

/// Whether `l` is the Cholesky factor of `a`, a matrix of finite numbers.
pub open spec fn is_factor(a: Seq<u32>, l: Seq<u32>, n: int) -> bool {
    all_finite(a) && factor_columns(a, l, n, n)
}

/// Whether a matrix has no factor: an element is not finite, or the factorisation stops at some
/// pivot.
pub open spec fn has_no_factor(a: Seq<u32>, n: int) -> bool {
    !all_finite(a) || exists|l: Seq<u32>, j: int| stops_at(a, l, n, j)
}

fn holds_finite(a: &[u32]) -> (r: bool)
    ensures
        r == all_finite(a@),
{
    for i in 0..a.len()
        invariant
            forall|k: int| 0 <= k < i ==> float_bits::finite(#[trigger] a@[k]),
    {
        if float_bits::abs_bits(a[i]) >= float_bits::INFINITY_BITS {
            assert(!float_bits::finite(a@[i as int]));
            return false;
        }
    }
    true
}

/// `reduced` reads the columns below `depth` only.
proof fn lemma_reduced_frame(
    a: Seq<u32>,
    l: Seq<u32>,
    l2: Seq<u32>,
    n: int,
    i: int,
    j: int,
    depth: nat,
)
    requires
        0 <= i < n,
        0 <= j < n,
        depth <= n,
        forall|r: int, k: int|
            0 <= r < n && 0 <= k < depth ==> #[trigger] cell(l, n, r, k) == cell(l2, n, r, k),
    ensures
        reduced(a, l, n, i, j, depth) == reduced(a, l2, n, i, j, depth),
    decreases depth,
{
    if depth > 0 {
        lemma_reduced_frame(a, l, l2, n, i, j, (depth - 1) as nat);
        assert(cell(l, n, i, depth - 1) == cell(l2, n, i, depth - 1));
        assert(cell(l, n, j, depth - 1) == cell(l2, n, j, depth - 1));
    }
}

/// The first columns of the factor are unique.
pub proof fn factor_is_unique(a: Seq<u32>, l: Seq<u32>, l2: Seq<u32>, n: int, cols: int)
    requires
        0 <= cols <= n,
        factor_columns(a, l, n, cols),
        factor_columns(a, l2, n, cols),
    ensures
        forall|i: int, j: int|
            0 <= i < n && 0 <= j < cols ==> #[trigger] cell(l, n, i, j) == cell(l2, n, i, j),
    decreases cols,
{
    if cols > 0 {
        let j = cols - 1;
        factor_is_unique(a, l, l2, n, j);
        assert(factor_cell(a, l, n, j, j) && factor_cell(a, l2, n, j, j));
        lemma_reduced_frame(a, l, l2, n, j, j, j as nat);
        assert forall|i: int, k: int| 0 <= i < n && 0 <= k < cols implies #[trigger] cell(
            l,
            n,
            i,
            k,
        ) == cell(l2, n, i, k) by {
            if k == j {
                assert(factor_cell(a, l, n, i, j) && factor_cell(a, l2, n, i, j));
                lemma_reduced_frame(a, l, l2, n, i, j, j as nat);
            }
        }
    }
}

/// Subtracts the products of two rows of the factor.
fn reduce(a: &[u32], l: &Vec<u32>, n: usize, i: usize, j: usize) -> (r: u32)
    requires
        a@.len() == n * n,
        l@.len() == n * n,
        j <= i < n,
    ensures
        r == reduced(a@, l@, n as int, i as int, j as int, j as nat),
{
    let total: usize = a.len();
    proof {
        quant::cell_position(i as int, j as int, n as int, n as int);
        quant::cell_position(j as int, 0, n as int, n as int);
        quant::cell_position(i as int, 0, n as int, n as int);
    }
    let mut s: u32 = a[i * n + j];
    for k in 0..j
        invariant
            a@.len() == n * n,
            l@.len() == n * n,
            total == n * n,
            j <= i < n,
            i * n + n <= total,
            j * n + n <= total,
            s == reduced(a@, l@, n as int, i as int, j as int, k as nat),
    {
        s = rounding::minus(s, rounding::multiply(l[i * n + k], l[j * n + k]));
    }
    s
}

/// Cells of a finished column do not change when later columns are written.
proof fn lemma_factor_frame(a: Seq<u32>, l: Seq<u32>, l2: Seq<u32>, n: int, i: int, j: int)
    requires
        0 <= i < n,
        0 <= j < n,
        factor_cell(a, l, n, i, j),
        forall|r: int, k: int|
            0 <= r < n && 0 <= k <= j ==> #[trigger] cell(l, n, r, k) == cell(l2, n, r, k),
    ensures
        factor_cell(a, l2, n, i, j),
{
    lemma_reduced_frame(a, l, l2, n, i, j, j as nat);
    lemma_reduced_frame(a, l, l2, n, j, j, j as nat);
    assert(cell(l, n, i, j) == cell(l2, n, i, j));
    assert(cell(l, n, j, j) == cell(l2, n, j, j));
}

/// The lower Cholesky factor of a matrix, or nothing where an element is not finite or a pivot is
/// not a positive number.
pub fn cholesky(a: &[u32], n: usize) -> (r: Option<Vec<u32>>)
    requires
        a@.len() == n * n,
    ensures
        match r {
            Some(l) => is_factor(a@, l@, n as int),
            None => has_no_factor(a@, n as int),
        },
{
    let total: usize = a.len();
    if !holds_finite(a) {
        return None;
    }
    let mut l: Vec<u32> = vec![0u32; total];
    proof {
        zeros_are_zero(l@, n as int);
    }
    for j in 0..n
        invariant
            a@.len() == n * n,
            total == n * n,
            l@.len() == n * n,
            factor_columns(a@, l@, n as int, j as int),
            forall|i: int, c: int|
                0 <= i < n && j <= c < n ==> #[trigger] cell(l@, n as int, i, c) == 0,
    {
        let d: u32 = reduce(a, &l, n, j, j);
        if !float_bits::is_positive(d) {
            assert(stops_at(a@, l@, n as int, j as int));
            return None;
        }
        let ljj: u32 = roots::square_root(d);
        let ghost start = l@;
        proof {
            write_one_cell(l@, n as int, j as int, j as int, ljj);
        }
        l.set(j * n + j, ljj);
        proof {
            lemma_reduced_frame(a@, start, l@, n as int, j as int, j as int, j as nat);
            assert forall|i: int, c: int| 0 <= i < n && 0 <= c < j implies #[trigger] factor_cell(
                a@,
                l@,
                n as int,
                i,
                c,
            ) by {
                assert(factor_cell(a@, start, n as int, i, c));
                lemma_factor_frame(a@, start, l@, n as int, i, c);
            }
        }
        for i in j + 1..n
            invariant
                a@.len() == n * n,
                total == n * n,
                l@.len() == n * n,
                j < n,
                factor_columns(a@, l@, n as int, j as int),
                ljj == cell(l@, n as int, j as int, j as int),
                forall|r: int| 0 <= r < i ==> #[trigger] factor_cell(a@, l@, n as int, r, j as int),
                forall|r: int|
                    i <= r < n ==> #[trigger] cell(l@, n as int, r, j as int) == 0,
                forall|r: int, c: int|
                    0 <= r < n && j < c < n ==> #[trigger] cell(l@, n as int, r, c) == 0,
        {
            let s: u32 = reduce(a, &l, n, i, j);
            let v: u32 = rounding::divide(s, ljj);
            let ghost prev = l@;
            proof {
                write_one_cell(l@, n as int, i as int, j as int, v);
            }
            l.set(i * n + j, v);
            proof {
                assert forall|r: int, c: int|
                    0 <= r < n && 0 <= c < j implies #[trigger] factor_cell(
                    a@,
                    l@,
                    n as int,
                    r,
                    c,
                ) by {
                    assert(factor_cell(a@, prev, n as int, r, c));
                    lemma_factor_frame(a@, prev, l@, n as int, r, c);
                }
                assert forall|r: int| 0 <= r < i + 1 implies #[trigger] factor_cell(
                    a@,
                    l@,
                    n as int,
                    r,
                    j as int,
                ) by {
                    lemma_reduced_frame(a@, prev, l@, n as int, r, j as int, j as nat);
                    lemma_reduced_frame(a@, prev, l@, n as int, j as int, j as int, j as nat);
                    if r < i {
                        assert(factor_cell(a@, prev, n as int, r, j as int));
                    }
                }
            }
        }
    }
    Some(l)
}

/// The products `l[i][k] * y[k][j]` for `k` from `j` below `end`, added in order.
pub open spec fn column_dot(l: Seq<u32>, y: Seq<u32>, n: int, i: int, j: int, end: int) -> u32
    decreases end - j,
{
    if end <= j {
        0
    } else {
        rounding::sum(
            column_dot(l, y, n, i, j, end - 1),
            rounding::product(cell(l, n, i, end - 1), cell(y, n, end - 1, j)),
        )
    }
}

/// Whether a diagonal element can be divided by: a number other than zero.
pub open spec fn divisible(d: u32) -> bool {
    !float_bits::nan(d) && float_bits::magnitude(d) != 0
}

fn can_divide(d: u32) -> (r: bool)
    ensures
        r == divisible(d),
{
    let m: u32 = float_bits::abs_bits(d);
    m > 0 && m <= float_bits::INFINITY_BITS
}

/// Whether `y[i][j]` is what forward substitution in `l * y = 1` asks for. Where a diagonal element
/// is zero, its column stays zero, and so does its row: what cannot be divided by spreads nowhere.
pub open spec fn inverse_cell(l: Seq<u32>, y: Seq<u32>, n: int, i: int, j: int) -> bool {
    cell(y, n, i, j) == if i < j || !divisible(cell(l, n, j, j)) || !divisible(
        cell(l, n, i, i),
    ) {
        0
    } else if i == j {
        rounding::quotient(ONE_BITS, cell(l, n, j, j))
    } else {
        rounding::quotient(
            rounding::opposite(column_dot(l, y, n, i, j, i)),
            cell(l, n, i, i),
        )
    }
}

/// Whether `y` is the inverse of the lower factor `l`.
pub open spec fn is_lower_inverse(l: Seq<u32>, y: Seq<u32>, n: int) -> bool {
    y.len() == n * n && forall|i: int, j: int|
        0 <= i < n && 0 <= j < n ==> #[trigger] inverse_cell(l, y, n, i, j)
}

/// The products `y[m][i] * y[m][k]` for `m` from `k` below `end`, added in order.
pub open spec fn gram_dot(y: Seq<u32>, n: int, i: int, k: int, end: int) -> u32
    decreases end - k,
{
    if end <= k {
        0
    } else {
        rounding::sum(
            gram_dot(y, n, i, k, end - 1),
            rounding::product(cell(y, n, end - 1, i), cell(y, n, end - 1, k)),
        )
    }
}

/// Whether both triangles of `inv` hold the same sum at `i`, `k`.
pub open spec fn gram_cell(y: Seq<u32>, inv: Seq<u32>, n: int, i: int, k: int) -> bool {
    &&& cell(inv, n, i, k) == gram_dot(y, n, i, k, n)
    &&& cell(inv, n, k, i) == gram_dot(y, n, i, k, n)
}

/// Whether `inv` is `y` transposed times `y`, both triangles filled from the same sums.
pub open spec fn is_gram(y: Seq<u32>, inv: Seq<u32>, n: int) -> bool {
    inv.len() == n * n && forall|i: int, k: int|
        0 <= i <= k < n ==> #[trigger] gram_cell(y, inv, n, i, k)
}

/// `column_dot` reads rows below `end` of column `j` only.
proof fn lemma_column_dot_frame(
    l: Seq<u32>,
    y: Seq<u32>,
    y2: Seq<u32>,
    n: int,
    i: int,
    j: int,
    end: int,
)
    requires
        forall|k: int| j <= k < end ==> #[trigger] cell(y, n, k, j) == cell(y2, n, k, j),
    ensures
        column_dot(l, y, n, i, j, end) == column_dot(l, y2, n, i, j, end),
    decreases end - j,
{
    if end > j {
        lemma_column_dot_frame(l, y, y2, n, i, j, end - 1);
        assert(cell(y, n, end - 1, j) == cell(y2, n, end - 1, j));
    }
}

/// The inverse of a lower factor, by forward substitution column by column.
fn lower_inverse(l: &[u32], n: usize) -> (y: Vec<u32>)
    requires
        l@.len() == n * n,
    ensures
        is_lower_inverse(l@, y@, n as int),
{
    let total: usize = l.len();
    let mut y: Vec<u32> = vec![0u32; total];
    proof {
        zeros_are_zero(y@, n as int);
    }
    for j in 0..n
        invariant
            l@.len() == n * n,
            total == n * n,
            y@.len() == n * n,
            forall|i: int, c: int|
                0 <= i < n && 0 <= c < j ==> #[trigger] inverse_cell(l@, y@, n as int, i, c),
            forall|i: int, c: int|
                0 <= i < n && j <= c < n ==> #[trigger] cell(y@, n as int, i, c) == 0,
    {
        proof {
            quant::cell_position(j as int, j as int, n as int, n as int);
        }
        let ljj: u32 = l[j * n + j];
        let ghost start = y@;
        if can_divide(ljj) {
            let top: u32 = rounding::divide(ONE_BITS, ljj);
            proof {
                write_one_cell(y@, n as int, j as int, j as int, top);
            }
            y.set(j * n + j, top);
            for i in j + 1..n
                invariant
                    l@.len() == n * n,
                    total == n * n,
                    y@.len() == n * n,
                    j < n,
                    divisible(cell(l@, n as int, j as int, j as int)),
                    forall|r: int, c: int|
                        0 <= r < n && 0 <= c < n && c != j ==> #[trigger] cell(
                            y@,
                            n as int,
                            r,
                            c,
                        ) == cell(start, n as int, r, c),
                    forall|r: int|
                        0 <= r < i ==> #[trigger] inverse_cell(
                            l@,
                            y@,
                            n as int,
                            r,
                            j as int,
                        ),
                    forall|r: int|
                        i <= r < n ==> #[trigger] cell(y@, n as int, r, j as int) == 0,
            {
                let mut s: u32 = 0;
                proof {
                    quant::cell_position(i as int, i as int, n as int, n as int);
                    quant::cell_position(i as int, j as int, n as int, n as int);
                }
                for k in j..i
                    invariant
                        l@.len() == n * n,
                        total == n * n,
                        y@.len() == n * n,
                        j < i < n,
                        i * n + n <= total,
                        s == column_dot(l@, y@, n as int, i as int, j as int, k as int),
                {
                    proof {
                        quant::cell_position(k as int, j as int, n as int, n as int);
                    }
                    s = rounding::plus(s, rounding::multiply(l[i * n + k], y[k * n + j]));
                }
                let lii: u32 = l[i * n + i];
                let v: u32 = if can_divide(lii) {
                    rounding::divide(rounding::negate(s), lii)
                } else {
                    0
                };
                let ghost prev = y@;
                proof {
                    write_one_cell(y@, n as int, i as int, j as int, v);
                }
                y.set(i * n + j, v);
                proof {
                    assert forall|r: int| 0 <= r < i + 1 implies #[trigger] inverse_cell(
                        l@,
                        y@,
                        n as int,
                        r,
                        j as int,
                    ) by {
                        if r > j {
                            lemma_column_dot_frame(l@, prev, y@, n as int, r, j as int, r);
                        }
                        if r < i {
                            assert(inverse_cell(l@, prev, n as int, r, j as int));
                        }
                    }
                }
            }
        }
        proof {
            assert forall|i: int, c: int| 0 <= i < n && 0 <= c < j + 1 implies #[trigger] inverse_cell(
                l@,
                y@,
                n as int,
                i,
                c,
            ) by {
                if c < j {
                    assert(inverse_cell(l@, start, n as int, i, c));
                    if i > c {
                        lemma_column_dot_frame(l@, start, y@, n as int, i, c, i);
                    }
                }
            }
        }
    }
    y
}

/// The inverse of `l * transpose(l)` from its Cholesky factor: both triangles are filled, and the
/// result is symmetric bit for bit.
pub fn cholesky_inverse_upper(l: &[u32], n: usize) -> (inv: Vec<u32>)
    requires
        l@.len() == n * n,
    ensures
        inverse_from(l@, inv@, n as int),
{
    let total: usize = l.len();
    let y: Vec<u32> = lower_inverse(l, n);
    let mut inv: Vec<u32> = vec![0u32; total];
    for i in 0..n
        invariant
            total == n * n,
            y@.len() == n * n,
            inv@.len() == n * n,
            forall|a: int, b: int|
                0 <= a <= b < n && a < i ==> #[trigger] gram_cell(y@, inv@, n as int, a, b),
    {
        for k in i..n
            invariant
                total == n * n,
                y@.len() == n * n,
                inv@.len() == n * n,
                i < n,
                forall|a: int, b: int|
                    0 <= a <= b < n && (a < i || (a == i && b < k)) ==> #[trigger] gram_cell(
                        y@,
                        inv@,
                        n as int,
                        a,
                        b,
                    ),
        {
            let mut s: u32 = 0;
            for m in k..n
                invariant
                    total == n * n,
                    y@.len() == n * n,
                    i < n,
                    i <= k < n,
                    s == gram_dot(y@, n as int, i as int, k as int, m as int),
            {
                proof {
                    quant::cell_position(m as int, i as int, n as int, n as int);
                    quant::cell_position(m as int, k as int, n as int, n as int);
                }
                s = rounding::plus(s, rounding::multiply(y[m * n + i], y[m * n + k]));
            }
            let ghost prev = inv@;
            proof {
                write_one_cell(inv@, n as int, i as int, k as int, s);
                write_one_cell(
                    inv@.update(i * n + k, s),
                    n as int,
                    k as int,
                    i as int,
                    s,
                );
            }
            inv.set(i * n + k, s);
            inv.set(k * n + i, s);
            assert forall|a: int, b: int|
                0 <= a <= b < n && (a < i || (a == i && b < k + 1)) implies #[trigger] gram_cell(
                y@,
                inv@,
                n as int,
                a,
                b,
            ) by {
                if !(a == i && b == k) {
                    assert(gram_cell(y@, prev, n as int, a, b));
                }
            }
        }
    }
    assert(is_lower_inverse(l@, y@, n as int) && is_gram(y@, inv@, n as int));
    inv
}

/// Whether `inv` comes from the Cholesky factor `l` of some matrix.
pub open spec fn inverse_from(l: Seq<u32>, inv: Seq<u32>, n: int) -> bool {
    exists|y: Seq<u32>| #[trigger] is_lower_inverse(l, y, n) && is_gram(y, inv, n)
}

/// Whether `inv` is the inverse of `a` by way of the Cholesky factor of `a`.
pub open spec fn is_inverse(a: Seq<u32>, inv: Seq<u32>, n: int) -> bool {
    exists|l: Seq<u32>| #[trigger] is_factor(a, l, n) && inverse_from(l, inv, n)
}

/// A factor and the inverse built from it make an inverse of the matrix.
pub proof fn factor_gives_inverse(a: Seq<u32>, l: Seq<u32>, inv: Seq<u32>, n: int)
    requires
        is_factor(a, l, n),
        inverse_from(l, inv, n),
    ensures
        is_inverse(a, inv, n),
{
}

/// An inverse has as many elements as the matrix has cells.
pub proof fn inverse_is_square(a: Seq<u32>, inv: Seq<u32>, n: int)
    requires
        is_inverse(a, inv, n),
    ensures
        inv.len() == n * n,
{
}

/// A matrix with `damp` added to its diagonal.
pub open spec fn damped(h: Seq<u32>, n: int, damp: u32) -> Seq<u32> {
    Seq::new(
        h.len(),
        |i: int|
            if i / n == i % n {
                rounding::sum(h[i], damp)
            } else {
                h[i]
            },
    )
}

/// A copy of a matrix with `damp` added to its diagonal.
pub fn add_to_diagonal(h: &[u32], n: usize, damp: u32) -> (r: Vec<u32>)
    requires
        h@.len() == n * n,
    ensures
        r@ == damped(h@, n as int, damp),
{
    let mut out: Vec<u32> = Vec::new();
    for i in 0..h.len()
        invariant
            h@.len() == n * n,
            out@.len() == i,
            forall|j: int| 0 <= j < i ==> out@[j] == damped(h@, n as int, damp)[j],
    {
        proof {
            quant::flat_position(i as int, n as int, n as int);
        }
        out.push(
            if i / n == i % n {
                rounding::plus(h[i], damp)
            } else {
                h[i]
            },
        );
    }
    assert(out@ =~= damped(h@, n as int, damp));
    out
}

/// The matrix that `cholesky_inverse` factors: damped only by a positive finite amount.
pub open spec fn regularised(h: Seq<u32>, n: int, damp: u32) -> Seq<u32> {
    if float_bits::finite(damp) && float_bits::positive(damp) {
        damped(h, n, damp)
    } else {
        h
    }
}

/// The inverse of a matrix after `damp` is added to its diagonal; nothing where the result has no
/// factor.
pub fn cholesky_inverse(h: &[u32], n: usize, damp: u32) -> (r: Option<Vec<u32>>)
    requires
        h@.len() == n * n,
    ensures
        match r {
            Some(inv) => is_inverse(regularised(h@, n as int, damp), inv@, n as int),
            None => has_no_factor(regularised(h@, n as int, damp), n as int),
        },
{
    let m: Vec<u32> = if damp > 0 && damp < float_bits::INFINITY_BITS {
        add_to_diagonal(h, n, damp)
    } else {
        let mut copy: Vec<u32> = Vec::new();
        copy.extend_from_slice(h);
        assert(copy@ =~= h@);
        copy
    };
    assert(m@ == regularised(h@, n as int, damp));
    match cholesky(&m, n) {
        Some(l) => {
            let inv: Vec<u32> = cholesky_inverse_upper(&l, n);
            proof {
                factor_gives_inverse(m@, l@, inv@, n as int);
            }
            Some(inv)
        },
        None => None,
    }
}

/// The inverse of a matrix is symmetric bit for bit.
pub proof fn gram_is_symmetric(y: Seq<u32>, inv: Seq<u32>, n: int, i: int, k: int)
    requires
        is_gram(y, inv, n),
        0 <= i < n,
        0 <= k < n,
    ensures
        cell(inv, n, i, k) == cell(inv, n, k, i),
{
    if i <= k {
        assert(gram_cell(y, inv, n, i, k));
    } else {
        assert(gram_cell(y, inv, n, k, i));
    }
}

/// A matrix either has a factor or has none: the factorisation runs through or stops at a pivot,
/// never both.
pub proof fn factorisation_is_decided(a: Seq<u32>, l: Seq<u32>, n: int)
    requires
        is_factor(a, l, n),
    ensures
        !has_no_factor(a, n),
{
    assert forall|l2: Seq<u32>, j: int| !stops_at(a, l2, n, j) by {
        if 0 <= j < n && factor_columns(a, l2, n, j) {
            lemma_pivot_is_positive(a, l, l2, n, j);
        }
    }
}

proof fn lemma_pivot_is_positive(a: Seq<u32>, l: Seq<u32>, l2: Seq<u32>, n: int, j: int)
    requires
        factor_columns(a, l, n, n),
        0 <= j < n,
        factor_columns(a, l2, n, j),
    ensures
        float_bits::positive(pivot(a, l2, n, j)),
{
    assert(factor_columns(a, l, n, j)) by {
        assert forall|i: int, c: int| 0 <= i < n && 0 <= c < j implies #[trigger] factor_cell(
            a,
            l,
            n,
            i,
            c,
        ) by {}
    }
    factor_is_unique(a, l, l2, n, j);
    lemma_reduced_frame(a, l, l2, n, j, j, j as nat);
    assert(factor_cell(a, l, n, j, j));
}

} // verus!
