//! Calibration statistics of a layer's input: second moments and mean magnitudes.

use crate::float_bits;
use crate::float_bits::ONE_BITS;
use crate::linalg;
use crate::quant;
use crate::roots;
use crate::rounding;
use vstd::prelude::*;

verus! {

/// The largest input width for which a full second-moment matrix is kept by default.
pub const CALIB_FULL_HESSIAN_MAX_DIM: usize = 1024;

/// How much data calibration reads and what it keeps.
#[derive(Clone, Copy, Debug, PartialEq, Eq, Structural)]
pub struct CalibOpts {
    /// Most tokens to feed.
    pub max_tokens: usize,
    /// Most tokens per forward pass.
    pub max_seq: usize,
    /// Widest input for which the full matrix is kept; wider layers keep the diagonal.
    pub full_hessian_max_dim: usize,
}

impl Default for CalibOpts {
    fn default() -> (r: Self)
        ensures
            r == (CalibOpts {
                max_tokens: 512,
                max_seq: 128,
                full_hessian_max_dim: CALIB_FULL_HESSIAN_MAX_DIM,
            }),
    {
        CalibOpts {
            max_tokens: 512,
            max_seq: 128,
            full_hessian_max_dim: CALIB_FULL_HESSIAN_MAX_DIM,
        }
    }
}

/// A starting value plus `x[t][j] * x[t][k]` for the first `rows` rows, added in order.
pub open spec fn moment(start: u32, x: Seq<u32>, n: int, rows: nat, j: int, k: int) -> u32
    decreases rows,
{
    if rows == 0 {
        start
    } else {
        let t = rows - 1;
        rounding::sum(
            moment(start, x, n, t as nat, j, k),
            rounding::product(x[t * n + j], x[t * n + k]),
        )
    }
}

/// A starting value plus `|x[t][j]|` for the first `rows` rows, added in order.
pub open spec fn abs_sum(start: u32, x: Seq<u32>, n: int, rows: nat, j: int) -> u32
    decreases rows,
{
    if rows == 0 {
        start
    } else {
        let t = rows - 1;
        rounding::sum(abs_sum(start, x, n, t as nat, j), float_bits::magnitude(x[t * n + j]))
    }
}

pub open spec fn smaller(a: int, b: int) -> int {
    if a < b {
        a
    } else {
        b
    }
}

pub open spec fn larger(a: int, b: int) -> int {
    if a < b {
        b
    } else {
        a
    }
}

/// The second-moment matrix after `rows` more rows.
pub open spec fn moments_after(h: Seq<u32>, x: Seq<u32>, n: int, rows: nat) -> Seq<u32> {
    Seq::new(
        h.len(),
        |p: int|
            moment(h[p], x, n, rows, smaller(p / n, p % n), larger(p / n, p % n)),
    )
}

/// The magnitude sums after `rows` more rows.
pub open spec fn abs_sums_after(s: Seq<u32>, x: Seq<u32>, n: int, rows: nat) -> Seq<u32> {
    Seq::new(s.len(), |j: int| abs_sum(s[j], x, n, rows, j))
}

/// Whether the two triangles of a matrix agree bit for bit.
pub open spec fn symmetric(h: Seq<u32>, n: int) -> bool {
    forall|i: int, k: int|
        0 <= i < n && 0 <= k < n ==> #[trigger] linalg::cell(h, n, i, k) == linalg::cell(
            h,
            n,
            k,
            i,
        )
}

/// Every element times one number.
pub open spec fn scaled(v: Seq<u32>, factor: u32) -> Seq<u32> {
    Seq::new(v.len(), |i: int| rounding::product(v[i], factor))
}

/// Element by element sums.
pub open spec fn added(a: Seq<u32>, b: Seq<u32>) -> Seq<u32> {
    Seq::new(a.len(), |i: int| rounding::sum(a[i], b[i]))
}

/// The mean of sums over `tokens` tokens; zeros where there was none.
pub open spec fn mean_of(v: Seq<u32>, tokens: int) -> Seq<u32> {
    if tokens == 0 {
        Seq::new(v.len(), |i: int| 0u32)
    } else {
        scaled(v, rounding::quotient(ONE_BITS, rounding::count_value(tokens)))
    }
}

fn scale_all(v: &Vec<u32>, factor: u32) -> (r: Vec<u32>)
    ensures
        r@ == scaled(v@, factor),
{
    let mut out: Vec<u32> = Vec::new();
    for i in 0..v.len()
        invariant
            out@.len() == i,
            forall|j: int| 0 <= j < i ==> out@[j] == rounding::product(v@[j], factor),
    {
        out.push(rounding::multiply(v[i], factor));
    }
    assert(out@ =~= scaled(v@, factor));
    out
}

fn add_all(a: &Vec<u32>, b: &Vec<u32>) -> (r: Vec<u32>)
    requires
        a@.len() == b@.len(),
    ensures
        r@ == added(a@, b@),
{
    let mut out: Vec<u32> = Vec::new();
    for i in 0..a.len()
        invariant
            a@.len() == b@.len(),
            out@.len() == i,
            forall|j: int| 0 <= j < i ==> out@[j] == rounding::sum(a@[j], b@[j]),
    {
        out.push(rounding::plus(a[i], b[i]));
    }
    assert(out@ =~= added(a@, b@));
    out
}

/// The mean of sums over `tokens` tokens.
pub fn mean(v: &Vec<u32>, tokens: usize) -> (r: Vec<u32>)
    ensures
        r@ == mean_of(v@, tokens as int),
{
    if tokens == 0 {
        let out: Vec<u32> = vec![0u32; v.len()];
        assert(out@ =~= mean_of(v@, 0));
        out
    } else {
        scale_all(v, rounding::divide(ONE_BITS, rounding::from_count(tokens as u64)))
    }
}

/// Running sums of one layer's input: `sum x x^T`, `sum |x|` and the number of tokens. Sums rather
/// than means, so that batches and partial statistics add up.
#[derive(Clone, Debug)]
pub struct Calibration {
    hessian: Vec<u32>,
    act_abs_sum: Vec<u32>,
    n_tokens: usize,
}

impl Calibration {
    /// Input width.
    pub closed spec fn width(&self) -> int {
        self.act_abs_sum@.len() as int
    }

    /// `sum x x^T`, row-major.
    pub closed spec fn moments(&self) -> Seq<u32> {
        self.hessian@
    }

    /// `sum |x|` per channel.
    pub closed spec fn magnitudes(&self) -> Seq<u32> {
        self.act_abs_sum@
    }

    pub closed spec fn tokens(&self) -> int {
        self.n_tokens as int
    }

    /// The matrix is square, one row per channel, and symmetric bit for bit.
    pub open spec fn wf(&self) -> bool {
        &&& self.width() == self.magnitudes().len()
        &&& self.moments().len() == self.width() * self.width()
        &&& symmetric(self.moments(), self.width())
    }

    /// Empty statistics.
    pub fn zeros(in_features: usize) -> (r: Self)
        requires
            in_features * in_features <= usize::MAX,
        ensures
            r.wf(),
            r.width() == in_features,
            r.tokens() == 0,
            r.moments() == Seq::new((in_features * in_features) as nat, |i: int| 0u32),
            r.magnitudes() == Seq::new(in_features as nat, |i: int| 0u32),
    {
        let hessian: Vec<u32> = vec![0u32; in_features * in_features];
        let act_abs_sum: Vec<u32> = vec![0u32; in_features];
        proof {
            assert(hessian@ =~= Seq::new((in_features * in_features) as nat, |i: int| 0u32));
            assert(act_abs_sum@ =~= Seq::new(in_features as nat, |i: int| 0u32));
            let n = in_features as int;
            assert forall|i: int, k: int| 0 <= i < n && 0 <= k < n implies #[trigger] linalg::cell(
                hessian@,
                n,
                i,
                k,
            ) == linalg::cell(hessian@, n, k, i) by {
                quant::cell_position(i, k, n, n);
                quant::cell_position(k, i, n, n);
            }
        }
        Calibration { hessian, act_abs_sum, n_tokens: 0 }
    }

    pub fn in_features(&self) -> (r: usize)
        ensures
            r == self.width(),
    {
        self.act_abs_sum.len()
    }

    /// Adds `rows` rows of input.
    pub fn observe(&mut self, x: &[u32], rows: usize)
        requires
            old(self).wf(),
            x@.len() == rows * old(self).width(),
            old(self).tokens() + rows <= usize::MAX,
        ensures
            final(self).wf(),
            final(self).width() == old(self).width(),
            final(self).tokens() == old(self).tokens() + rows,
            final(self).moments() == moments_after(
                old(self).moments(),
                x@,
                old(self).width(),
                rows as nat,
            ),
            final(self).magnitudes() == abs_sums_after(
                old(self).magnitudes(),
                x@,
                old(self).width(),
                rows as nat,
            ),
    {
        let n: usize = self.act_abs_sum.len();
        let ghost h = self.hessian@;
        let ghost total = x@.len();
        let mut sums: Vec<u32> = Vec::new();
        for j in 0..n
            invariant
                n == self.act_abs_sum@.len(),
                x@.len() == rows * n,
                sums@.len() == j,
                forall|c: int|
                    0 <= c < j ==> sums@[c] == abs_sum(
                        self.act_abs_sum@[c],
                        x@,
                        n as int,
                        rows as nat,
                        c,
                    ),
        {
            let mut s: u32 = self.act_abs_sum[j];
            for t in 0..rows
                invariant
                    n == self.act_abs_sum@.len(),
                    x@.len() == rows * n,
                    j < n,
                    s == abs_sum(self.act_abs_sum@[j as int], x@, n as int, t as nat, j as int),
            {
                proof {
                    quant::cell_position(t as int, j as int, rows as int, n as int);
                }
                let len: usize = x.len();
                s = rounding::plus(s, float_bits::abs_bits(x[t * n + j]));
            }
            sums.push(s);
        }
        let mut moments: Vec<u32> = Vec::new();
        for p in 0..self.hessian.len()
            invariant
                n == self.act_abs_sum@.len(),
                x@.len() == rows * n,
                h == self.hessian@,
                h.len() == n * n,
                moments@.len() == p,
                forall|q: int|
                    0 <= q < p ==> moments@[q] == moments_after(h, x@, n as int, rows as nat)[q],
        {
            proof {
                quant::flat_position(p as int, n as int, n as int);
            }
            let i: usize = p / n;
            let k: usize = p % n;
            let (lo, hi) = if i < k {
                (i, k)
            } else {
                (k, i)
            };
            let mut s: u32 = self.hessian[p];
            for t in 0..rows
                invariant
                    x@.len() == rows * n,
                    p < h.len(),
                    lo <= hi < n,
                    s == moment(h[p as int], x@, n as int, t as nat, lo as int, hi as int),
            {
                proof {
                    quant::cell_position(t as int, lo as int, rows as int, n as int);
                    quant::cell_position(t as int, hi as int, rows as int, n as int);
                }
                let len: usize = x.len();
                s = rounding::plus(s, rounding::multiply(x[t * n + lo], x[t * n + hi]));
            }
            moments.push(s);
        }
        proof {
            assert(sums@ =~= abs_sums_after(self.act_abs_sum@, x@, n as int, rows as nat));
            assert(moments@ =~= moments_after(h, x@, n as int, rows as nat));
            observing_keeps_symmetry(h, x@, n as int, rows as nat);
        }
        self.hessian = moments;
        self.act_abs_sum = sums;
        self.n_tokens = self.n_tokens + rows;
    }

    pub fn n_tokens(&self) -> (r: usize)
        ensures
            r == self.tokens(),
    {
        self.n_tokens
    }

    /// The sums `sum x x^T`.
    pub fn hessian(&self) -> (r: &[u32])
        ensures
            r@ == self.moments(),
    {
        self.hessian.as_slice()
    }

    /// The mean second moments; zeros before the first token.
    pub fn mean_hessian(&self) -> (r: Vec<u32>)
        ensures
            r@ == mean_of(self.moments(), self.tokens()),
    {
        mean(&self.hessian, self.n_tokens)
    }

    /// The mean magnitude of every channel; zeros before the first token.
    pub fn act_abs_mean(&self) -> (r: Vec<u32>)
        ensures
            r@ == mean_of(self.magnitudes(), self.tokens()),
    {
        mean(&self.act_abs_sum, self.n_tokens)
    }

    /// Adds statistics of the same layer gathered elsewhere.
    pub fn merge(&mut self, other: &Calibration)
        requires
            old(self).wf(),
            other.wf(),
            old(self).width() == other.width(),
            old(self).tokens() + other.tokens() <= usize::MAX,
        ensures
            final(self).wf(),
            final(self).width() == old(self).width(),
            final(self).tokens() == old(self).tokens() + other.tokens(),
            final(self).moments() == added(old(self).moments(), other.moments()),
            final(self).magnitudes() == added(old(self).magnitudes(), other.magnitudes()),
    {
        let moments: Vec<u32> = add_all(&self.hessian, &other.hessian);
        let sums: Vec<u32> = add_all(&self.act_abs_sum, &other.act_abs_sum);
        proof {
            let n = self.width();
            assert forall|i: int, k: int| 0 <= i < n && 0 <= k < n implies #[trigger] linalg::cell(
                moments@,
                n,
                i,
                k,
            ) == linalg::cell(moments@, n, k, i) by {
                quant::cell_position(i, k, n, n);
                quant::cell_position(k, i, n, n);
                assert(linalg::cell(self.hessian@, n, i, k) == linalg::cell(
                    self.hessian@,
                    n,
                    k,
                    i,
                ));
                assert(linalg::cell(other.hessian@, n, i, k) == linalg::cell(
                    other.hessian@,
                    n,
                    k,
                    i,
                ));
            }
        }
        self.hessian = moments;
        self.act_abs_sum = sums;
        self.n_tokens = self.n_tokens + other.n_tokens;
    }
}

/// The two triangles are filled from the same products, so they stay equal bit for bit.
pub proof fn observing_keeps_symmetry(h: Seq<u32>, x: Seq<u32>, n: int, rows: nat)
    requires
        h.len() == n * n,
        symmetric(h, n),
    ensures
        symmetric(moments_after(h, x, n, rows), n),
{
    let after = moments_after(h, x, n, rows);
    assert forall|i: int, k: int| 0 <= i < n && 0 <= k < n implies #[trigger] linalg::cell(
        after,
        n,
        i,
        k,
    ) == linalg::cell(after, n, k, i) by {
        quant::cell_position(i, k, n, n);
        quant::cell_position(k, i, n, n);
        assert(linalg::cell(h, n, i, k) == linalg::cell(h, n, k, i));
    }
}

/// Observing two batches one after the other is observing them as one batch.
pub proof fn batches_add_up(h: Seq<u32>, x: Seq<u32>, y: Seq<u32>, n: int, a: nat, b: nat)
    requires
        x.len() == a * n,
        y.len() == b * n,
        n >= 0,
        h.len() == n * n,
    ensures
        moments_after(moments_after(h, x, n, a), y, n, b) == moments_after(h, x + y, n, a + b),
{
    let two = moments_after(moments_after(h, x, n, a), y, n, b);
    let one = moments_after(h, x + y, n, a + b);
    assert forall|p: int| 0 <= p < h.len() implies two[p] == one[p] by {
        quant::flat_position(p, n, n);
        lemma_moment_concat(
            h[p],
            x,
            y,
            n,
            a,
            b,
            smaller(p / n, p % n),
            larger(p / n, p % n),
        );
    }
    assert(two =~= one);
}

proof fn lemma_moment_concat(
    s: u32,
    x: Seq<u32>,
    y: Seq<u32>,
    n: int,
    a: nat,
    b: nat,
    j: int,
    k: int,
)
    requires
        x.len() == a * n,
        y.len() == b * n,
        0 <= j < n,
        0 <= k < n,
    ensures
        moment(moment(s, x, n, a, j, k), y, n, b, j, k) == moment(s, x + y, n, a + b, j, k),
    decreases b, a,
{
    if b > 0 {
        let t = b - 1;
        let y0 = y.take(t * n);
        assert(t * n + n == b * n && t * n >= 0) by (nonlinear_arith)
            requires
                t == b - 1,
                b > 0,
                n > 0,
        ;
        lemma_moment_prefix(moment(s, x, n, a, j, k), y, y0, n, t as nat, j, k);
        lemma_moment_concat(s, x, y0, n, a, t as nat, j, k);
        assert((a + t) * n == a * n + t * n) by (nonlinear_arith);
        assert((x + y0) =~= (x + y).take((a + t) * n));
        lemma_moment_prefix(s, x + y, x + y0, n, (a + t) as nat, j, k);
        assert((x + y)[(a + t) * n + j] == y[t * n + j]);
        assert((x + y)[(a + t) * n + k] == y[t * n + k]);
    } else {
        assert(0 * n == 0);
        assert(x + y =~= x);
    }
}

/// `moment` over `rows` rows reads those rows only.
proof fn lemma_moment_prefix(
    s: u32,
    x: Seq<u32>,
    x0: Seq<u32>,
    n: int,
    rows: nat,
    j: int,
    k: int,
)
    requires
        0 <= j < n,
        0 <= k < n,
        x0.len() == rows * n,
        x.len() >= x0.len(),
        x0 == x.take(rows * n),
    ensures
        moment(s, x, n, rows, j, k) == moment(s, x0, n, rows, j, k),
    decreases rows,
{
    lemma_moment_agree(s, x, x0, n, rows, rows, j, k);
}

proof fn lemma_moment_agree(
    s: u32,
    x: Seq<u32>,
    x0: Seq<u32>,
    n: int,
    rows: nat,
    all: nat,
    j: int,
    k: int,
)
    requires
        0 <= j < n,
        0 <= k < n,
        rows <= all,
        x0.len() == all * n,
        x.len() >= x0.len(),
        x0 == x.take(all * n),
    ensures
        moment(s, x, n, rows, j, k) == moment(s, x0, n, rows, j, k),
    decreases rows,
{
    if rows > 0 {
        let t = rows - 1;
        lemma_moment_agree(s, x, x0, n, t as nat, all, j, k);
        quant::cell_position(t, j, all as int, n);
        quant::cell_position(t, k, all as int, n);
    }
}

/// The second moments of a layer's input, whole or diagonal only.
#[derive(Clone, Debug)]
pub enum HessianKind {
    /// Row-major square matrix.
    Full(Vec<u32>),
    /// Its diagonal.
    Diagonal(Vec<u32>),
}

impl HessianKind {
    /// Whether the element count of a full matrix is a square.
    pub open spec fn wf(&self) -> bool {
        match self {
            HessianKind::Full(h) => exists|n: int| n >= 0 && #[trigger] (n * n) == h@.len(),
            HessianKind::Diagonal(d) => true,
        }
    }

    /// The order of the matrix.
    pub open spec fn order(&self) -> int {
        match self {
            HessianKind::Full(h) => roots::floor_root(h@.len() as int),
            HessianKind::Diagonal(d) => d@.len() as int,
        }
    }

    /// The diagonal elements.
    pub open spec fn diagonal_seq(&self) -> Seq<u32> {
        match self {
            HessianKind::Full(h) => Seq::new(
                self.order() as nat,
                |i: int| linalg::cell(h@, self.order(), i, i),
            ),
            HessianKind::Diagonal(d) => d@,
        }
    }

    /// A full matrix of order `n` has `n * n` elements.
    pub proof fn full_shape(&self)
        requires
            self.wf(),
        ensures
            self.order() >= 0,
            self matches HessianKind::Full(h) ==> h@.len() == self.order() * self.order(),
    {
        if let HessianKind::Full(h) = self {
            let n = choose|n: int| n >= 0 && #[trigger] (n * n) == h@.len();
            assert((n + 1) * (n + 1) > n * n) by (nonlinear_arith)
                requires
                    n >= 0,
            ;
            roots::floor_root_is_unique(n, h@.len() as int);
        }
    }

    pub fn dim(&self) -> (r: usize)
        requires
            self.wf(),
        ensures
            r == self.order(),
    {
        proof {
            self.full_shape();
        }
        match self {
            HessianKind::Full(h) => {
                let len: usize = h.len();
                let mut n: usize = 0;
                let mut square: usize = 0;
                let ghost order = self.order();
                while square < len
                    invariant
                        len == order * order,
                        order >= 0,
                        0 <= n <= order,
                        square == n * n,
                        square <= len,
                    decreases len - square,
                {
                    proof {
                        assert(n < order) by (nonlinear_arith)
                            requires
                                n * n < order * order,
                                0 <= n <= order,
                        ;
                        assert((n + 1) * (n + 1) == n * n + 2 * n + 1) by (nonlinear_arith);
                        assert((n + 1) * (n + 1) <= order * order) by (nonlinear_arith)
                            requires
                                0 <= n + 1 <= order,
                        ;
                    }
                    square = square + n + n + 1;
                    n = n + 1;
                }
                proof {
                    assert(n == order) by (nonlinear_arith)
                        requires
                            n * n == order * order,
                            0 <= n <= order,
                    ;
                }
                n
            },
            HessianKind::Diagonal(d) => d.len(),
        }
    }

    pub fn diagonal(&self) -> (r: Vec<u32>)
        requires
            self.wf(),
        ensures
            r@ == self.diagonal_seq(),
    {
        proof {
            self.full_shape();
        }
        let n: usize = self.dim();
        let mut out: Vec<u32> = Vec::new();
        match self {
            HessianKind::Full(h) => {
                let len: usize = h.len();
                for i in 0..n
                    invariant
                        len == h@.len(),
                        len == n * n,
                        out@.len() == i,
                        forall|j: int| 0 <= j < i ==> out@[j] == linalg::cell(h@, n as int, j, j),
                {
                    proof {
                        quant::cell_position(i as int, i as int, n as int, n as int);
                    }
                    out.push(h[i * n + i]);
                }
            },
            HessianKind::Diagonal(d) => {
                for i in 0..d.len()
                    invariant
                        out@.len() == i,
                        forall|j: int| 0 <= j < i ==> out@[j] == d@[j],
                {
                    out.push(d[i]);
                }
            },
        }
        assert(out@ =~= self.diagonal_seq());
        out
    }

    /// Whether the off-diagonal elements are kept.
    pub fn is_full(&self) -> (r: bool)
        ensures
            r == (self is Full),
    {
        match self {
            HessianKind::Full(_) => true,
            HessianKind::Diagonal(_) => false,
        }
    }

    /// Number of elements kept.
    pub open spec fn element_count(&self) -> int {
        match self {
            HessianKind::Full(h) => h@.len() as int,
            HessianKind::Diagonal(d) => d@.len() as int,
        }
    }

    pub fn byte_len(&self) -> (r: usize)
        requires
            4 * self.element_count() <= usize::MAX,
        ensures
            r == 4 * self.element_count(),
    {
        match self {
            HessianKind::Full(h) => h.len() * 4,
            HessianKind::Diagonal(d) => d.len() * 4,
        }
    }
}

} // verus!
