//! Calibrating a model: which tokens are fed, and what is kept of every layer's input.

use crate::calib;
use crate::calib::{CalibOpts, Calibration, HessianKind};
use crate::float_bits;
use crate::layers::Linear;
use crate::mlp;
use crate::model;
use crate::model::{ModelView, GPT};
use crate::model_run::Sight;
use crate::quant;
use crate::report::{CalibStats, LayerCalib};
use crate::rounding;
use crate::tracing;
use vstd::prelude::*;

verus! {

/// The input of one layer in one pass: its numbers and their shape.
#[derive(Clone, Debug)]
pub struct Captured {
    pub data: Vec<u32>,
    pub shape: Vec<usize>,
}

impl Captured {
    /// A matrix with one column per input channel.
    pub open spec fn fits(&self, width: int) -> bool {
        self.shape@.len() == 2 && self.shape@[1] == width
    }

    /// A matrix has as many numbers as its shape says, and at most `tokens` rows.
    pub open spec fn wf(&self, tokens: int) -> bool {
        self.shape@.len() == 2 ==> self.data@.len() == self.shape@[0] * self.shape@[1]
            && self.shape@[0] <= tokens
    }

    fn usable(&self, width: usize) -> (r: bool)
        ensures
            r == self.fits(width as int),
    {
        self.shape.len() == 2 && self.shape[1] == width
    }
}

/// The sums that are kept of one layer.
#[verifier::ext_equal]
pub struct Sums {
    pub moments: Seq<u32>,
    pub magnitudes: Seq<u32>,
    pub seen: int,
}

/// The sums before the first pass.
pub open spec fn blank(width: int, full: bool) -> Sums {
    Sums {
        moments: Seq::new(
            (if full {
                width * width
            } else {
                width
            }) as nat,
            |i: int| 0u32,
        ),
        magnitudes: Seq::new(width as nat, |i: int| 0u32),
        seen: 0,
    }
}

/// The sums of squares after `rows` more rows.
pub open spec fn squares_after(h: Seq<u32>, x: Seq<u32>, n: int, rows: nat) -> Seq<u32> {
    Seq::new(h.len(), |j: int| calib::moment(h[j], x, n, rows, j, j))
}

/// The sums after one more pass; an input of another shape is passed over.
pub open spec fn observed(s: Sums, width: int, full: bool, c: Captured) -> Sums {
    if c.fits(width) {
        let rows = c.shape@[0] as nat;
        Sums {
            moments: if full {
                calib::moments_after(s.moments, c.data@, width, rows)
            } else {
                squares_after(s.moments, c.data@, width, rows)
            },
            magnitudes: calib::abs_sums_after(s.magnitudes, c.data@, width, rows),
            seen: s.seen + rows,
        }
    } else {
        s
    }
}

/// The sums of one layer after the first `k` passes.
pub open spec fn gathered(
    width: int,
    full: bool,
    passes: Seq<Vec<Captured>>,
    layer: int,
    k: nat,
) -> Sums
    decreases k,
{
    if k == 0 {
        blank(width, full)
    } else {
        observed(
            gathered(width, full, passes, layer, (k - 1) as nat),
            width,
            full,
            passes[k - 1]@[layer],
        )
    }
}

/// Later passes do not change what earlier ones gathered.
proof fn lemma_gathered_is_local(
    width: int,
    full: bool,
    passes: Seq<Vec<Captured>>,
    more: Vec<Captured>,
    layer: int,
    k: nat,
)
    requires
        k <= passes.len(),
    ensures
        gathered(width, full, passes.push(more), layer, k) == gathered(
            width,
            full,
            passes,
            layer,
            k,
        ),
    decreases k,
{
    if k > 0 {
        lemma_gathered_is_local(width, full, passes, more, layer, (k - 1) as nat);
    }
}

/// Calibration measures the layer it is kept for: whatever passes were seen, a layer has one
/// magnitude per input channel, and second moments of a square matrix or of its diagonal.
pub proof fn sums_keep_their_size(
    width: int,
    full: bool,
    passes: Seq<Vec<Captured>>,
    layer: int,
    k: nat,
)
    requires
        width >= 0,
    ensures
        gathered(width, full, passes, layer, k).magnitudes.len() == width,
        gathered(width, full, passes, layer, k).moments.len() == if full {
            width * width
        } else {
            width
        },
        gathered(width, full, passes, layer, k).seen >= 0,
    decreases k,
{
    if k > 0 {
        sums_keep_their_size(width, full, passes, layer, (k - 1) as nat);
    }
    assert(width * width >= 0) by (nonlinear_arith)
        requires
            width >= 0,
    ;
}

/// The running sums of one layer.
enum LayerSums {
    Full(Calibration),
    Diagonal { squares: Vec<u32>, magnitudes: Vec<u32>, seen: usize },
}

impl LayerSums {
    spec fn sums(&self) -> Sums {
        match self {
            LayerSums::Full(c) => Sums {
                moments: c.moments(),
                magnitudes: c.magnitudes(),
                seen: c.tokens(),
            },
            LayerSums::Diagonal { squares, magnitudes, seen } => Sums {
                moments: squares@,
                magnitudes: magnitudes@,
                seen: *seen as int,
            },
        }
    }

    spec fn wf(&self, width: int) -> bool {
        match self {
            LayerSums::Full(c) => c.wf() && c.width() == width,
            LayerSums::Diagonal { squares, magnitudes, seen } => squares@.len() == width
                && magnitudes@.len() == width,
        }
    }

    fn new(width: usize, full: bool) -> (r: Self)
        requires
            full ==> width * width <= usize::MAX,
        ensures
            r.wf(width as int),
            r is Full == full,
            r.sums() == blank(width as int, full),
    {
        if full {
            LayerSums::Full(Calibration::zeros(width))
        } else {
            let squares: Vec<u32> = vec![0u32; width];
            let magnitudes: Vec<u32> = vec![0u32; width];
            assert(squares@ =~= blank(width as int, false).moments);
            assert(magnitudes@ =~= blank(width as int, false).magnitudes);
            LayerSums::Diagonal { squares, magnitudes, seen: 0 }
        }
    }

    fn observe(self, c: &Captured, width: usize) -> (r: Self)
        requires
            self.wf(width as int),
            c.fits(width as int),
            c.data@.len() == c.shape@[0] * c.shape@[1],
            self.sums().seen + c.shape@[0] <= usize::MAX,
        ensures
            r.wf(width as int),
            r is Full == self is Full,
            r.sums() == observed(self.sums(), width as int, self is Full, *c),
    {
        let rows: usize = c.shape[0];
        match self {
            LayerSums::Full(sums) => {
                let mut sums: Calibration = sums;
                sums.observe(c.data.as_slice(), rows);
                LayerSums::Full(sums)
            },
            LayerSums::Diagonal { squares, magnitudes, seen } => {
                let mut new_squares: Vec<u32> = Vec::new();
                let mut new_magnitudes: Vec<u32> = Vec::new();
                for j in 0..width
                    invariant
                        squares@.len() == width,
                        magnitudes@.len() == width,
                        c.data@.len() == rows * width,
                        new_squares@.len() == j,
                        new_magnitudes@.len() == j,
                        forall|i: int|
                            0 <= i < j ==> new_squares@[i] == calib::moment(
                                squares@[i],
                                c.data@,
                                width as int,
                                rows as nat,
                                i,
                                i,
                            ),
                        forall|i: int|
                            0 <= i < j ==> new_magnitudes@[i] == calib::abs_sum(
                                magnitudes@[i],
                                c.data@,
                                width as int,
                                rows as nat,
                                i,
                            ),
                {
                    let mut square: u32 = squares[j];
                    let mut magnitude: u32 = magnitudes[j];
                    for t in 0..rows
                        invariant
                            j < width,
                            squares@.len() == width,
                            magnitudes@.len() == width,
                            c.data@.len() == rows * width,
                            square == calib::moment(
                                squares@[j as int],
                                c.data@,
                                width as int,
                                t as nat,
                                j as int,
                                j as int,
                            ),
                            magnitude == calib::abs_sum(
                                magnitudes@[j as int],
                                c.data@,
                                width as int,
                                t as nat,
                                j as int,
                            ),
                    {
                        proof {
                            quant::cell_position(t as int, j as int, rows as int, width as int);
                        }
                        let len: usize = c.data.len();
                        let v: u32 = c.data[t * width + j];
                        square = rounding::plus(square, rounding::multiply(v, v));
                        magnitude = rounding::plus(magnitude, float_bits::abs_bits(v));
                    }
                    new_squares.push(square);
                    new_magnitudes.push(magnitude);
                }
                assert(new_squares@ =~= squares_after(
                    squares@,
                    c.data@,
                    width as int,
                    rows as nat,
                ));
                assert(new_magnitudes@ =~= calib::abs_sums_after(
                    magnitudes@,
                    c.data@,
                    width as int,
                    rows as nat,
                ));
                LayerSums::Diagonal {
                    squares: new_squares,
                    magnitudes: new_magnitudes,
                    seen: seen + rows,
                }
            },
        }
    }
}

/// What is reported of one layer: means over the tokens it saw.
pub open spec fn is_report(c: LayerCalib, full: bool, s: Sums) -> bool {
    &&& c.hessian is Some
    &&& match c.hessian->0 {
        HessianKind::Full(h) => full && h@ == calib::mean_of(s.moments, s.seen),
        HessianKind::Diagonal(d) => !full && d@ == calib::mean_of(s.moments, s.seen),
    }
    &&& c.act_abs_mean is Some
    &&& c.act_abs_mean->0@ == calib::mean_of(s.magnitudes, s.seen)
    &&& c.n_tokens == s.seen
}

/// The first `n` texts, one after the other.
pub open spec fn stream(texts: Seq<Vec<usize>>, n: nat) -> Seq<usize>
    decreases n,
{
    if n == 0 {
        Seq::empty()
    } else {
        stream(texts, (n - 1) as nat) + texts[n - 1]@
    }
}

/// The tokens that are fed: the texts one after the other, up to the limit.
pub open spec fn budgeted(texts: Seq<Vec<usize>>, limit: int) -> Seq<usize> {
    let all = stream(texts, texts.len());
    if all.len() <= limit {
        all
    } else {
        all.take(limit)
    }
}

/// More texts only add to the end.
proof fn lemma_stream_grows(texts: Seq<Vec<usize>>, a: nat, b: nat)
    requires
        a <= b,
    ensures
        stream(texts, a).len() <= stream(texts, b).len(),
        stream(texts, b).take(stream(texts, a).len() as int) == stream(texts, a),
    decreases b,
{
    if a < b {
        lemma_stream_grows(texts, a, (b - 1) as nat);
        let before = stream(texts, (b - 1) as nat);
        assert(stream(texts, b).take(stream(texts, a).len() as int) =~= before.take(
            stream(texts, a).len() as int,
        ));
    } else {
        assert(stream(texts, b).take(stream(texts, a).len() as int) =~= stream(texts, a));
    }
}

/// Collects the tokens to feed; texts after the limit is reached are not looked at.
pub fn token_stream(texts: &[Vec<usize>], max_tokens: usize) -> (ids: Vec<usize>)
    ensures
        ids@ == budgeted(texts@, max_tokens as int),
{
    let mut ids: Vec<usize> = Vec::new();
    let mut i: usize = 0;
    let ghost all = stream(texts@, texts@.len());
    while i < texts.len() && ids.len() < max_tokens
        invariant
            i <= texts@.len(),
            all == stream(texts@, texts@.len()),
            ids@.len() <= max_tokens,
            ids@ == stream(texts@, i as nat) || (ids@.len() == max_tokens && all.len()
                >= max_tokens && ids@ == all.take(max_tokens as int)),
        decreases texts@.len() - i,
    {
        let more: &Vec<usize> = &texts[i];
        let room: usize = max_tokens - ids.len();
        let n: usize = if more.len() < room {
            more.len()
        } else {
            room
        };
        let ghost before = ids@;
        assert(before == stream(texts@, i as nat));
        for j in 0..n
            invariant
                n <= more@.len(),
                ids@ == before + more@.take(j as int),
        {
            ids.push(more[j]);
            assert(before + more@.take(j + 1) =~= (before + more@.take(j as int)).push(
                more@[j as int],
            ));
        }
        proof {
            lemma_stream_grows(texts@, (i + 1) as nat, texts@.len());
            let next = stream(texts@, (i + 1) as nat);
            if n == more@.len() {
                assert(more@.take(n as int) =~= more@);
            } else {
                assert(ids@ =~= next.take(max_tokens as int));
                assert(all.take(max_tokens as int) =~= all.take(next.len() as int).take(
                    max_tokens as int,
                ));
            }
        }
        i += 1;
    }
    proof {
        lemma_stream_grows(texts@, i as nat, texts@.len());
        if i < texts@.len() && ids@ == stream(texts@, i as nat) {
            assert(ids@.len() == max_tokens);
            assert(all.take(max_tokens as int) == ids@);
        }
        if all.len() <= max_tokens {
            assert(all.take(all.len() as int) =~= all);
        }
    }
    ids
}

/// Tokens per pass: at least one, at most what the model's window holds.
pub open spec fn pass_length(max_seq: int, window: int) -> int {
    let top = if window < 1 {
        1
    } else {
        window
    };
    if max_seq < 1 {
        1
    } else if max_seq > top {
        top
    } else {
        max_seq
    }
}

/// The tokens of pass `k`.
pub open spec fn pass_tokens(ids: Seq<usize>, len: int, k: int) -> Seq<usize> {
    ids.subrange(
        k * len,
        if (k + 1) * len <= ids.len() {
            (k + 1) * len
        } else {
            ids.len() as int
        },
    )
}

/// How many passes the tokens take.
pub open spec fn pass_count(tokens: int, len: int) -> int {
    (tokens + len - 1) / len
}

/// Whether the passes may be what the layers receive while the tokens run through the model, one
/// pass after the other.
pub open spec fn are_passes<
    M: Fn(usize, Vec<u32>, &Sight) -> Vec<u32>,
    E: Fn(u32) -> u32,
    G: Fn(u32) -> u32,
    S: Fn(u32, u32) -> u32,
>(
    m: ModelView,
    mix: &M,
    exp: &E,
    gelu: &G,
    swiglu: &S,
    ids: Seq<usize>,
    len: int,
    passes: Seq<Vec<Captured>>,
) -> bool {
    forall|k: int|
        0 <= k < passes.len() ==> tracing::is_trace(
            m,
            mix,
            exp,
            gelu,
            swiglu,
            pass_tokens(ids, len, k),
            (#[trigger] passes[k])@,
        )
}

/// Whether a layer keeps the whole matrix.
pub open spec fn keeps_matrix(m: ModelView, opts: CalibOpts, layer: int) -> bool {
    m.linears()[layer].1.inputs() <= opts.full_hessian_max_dim
}

/// The sums of one layer of a model after all passes.
pub open spec fn layer_sums(
    m: ModelView,
    opts: CalibOpts,
    passes: Seq<Vec<Captured>>,
    layer: int,
) -> Sums {
    gathered(
        m.linears()[layer].1.inputs() as int,
        keeps_matrix(m, opts, layer),
        passes,
        layer,
        passes.len(),
    )
}

/// Those of the first `n` layers that saw a token.
pub open spec fn seen_layers(
    m: ModelView,
    opts: CalibOpts,
    passes: Seq<Vec<Captured>>,
    n: nat,
) -> Seq<int>
    decreases n,
{
    if n == 0 {
        Seq::empty()
    } else {
        let before = seen_layers(m, opts, passes, (n - 1) as nat);
        if layer_sums(m, opts, passes, n - 1).seen == 0 {
            before
        } else {
            before.push(n - 1)
        }
    }
}

/// Whether a report holds one entry for each of these layers, in order.
pub open spec fn are_reports(
    m: ModelView,
    opts: CalibOpts,
    passes: Seq<Vec<Captured>>,
    layers: Seq<int>,
    entries: Seq<(String, LayerCalib)>,
) -> bool {
    &&& entries.len() == layers.len()
    &&& forall|i: int|
        0 <= i < entries.len() ==> (#[trigger] entries[i]).0@ == m.linears()[layers[i]].0
            && is_report(
            entries[i].1,
            keeps_matrix(m, opts, layers[i]),
            layer_sums(m, opts, passes, layers[i]),
        )
}

/// Whether the passes over these tokens give this calibration.
pub open spec fn is_calibration<
    M: Fn(usize, Vec<u32>, &Sight) -> Vec<u32>,
    E: Fn(u32) -> u32,
    G: Fn(u32) -> u32,
    S: Fn(u32, u32) -> u32,
>(
    m: ModelView,
    ids: Seq<usize>,
    opts: CalibOpts,
    mix: &M,
    exp: &E,
    gelu: &G,
    swiglu: &S,
    passes: Seq<Vec<Captured>>,
    stats: CalibStats,
) -> bool {
    let len = pass_length(opts.max_seq as int, m.cfg.block_size as int);
    &&& passes.len() == pass_count(ids.len() as int, len)
    &&& are_passes(m, mix, exp, gelu, swiglu, ids, len, passes)
    &&& are_reports(
        m,
        opts,
        passes,
        seen_layers(m, opts, passes, m.linears().len()),
        stats.per_layer@,
    )
}

/// Whether a model can take every pass of at most `len` tokens.
pub open spec fn takes_passes<M: Fn(usize, Vec<u32>, &Sight) -> Vec<u32>>(
    m: ModelView,
    mix: &M,
    len: int,
) -> bool {
    forall|n: int| 0 < n <= len ==> #[trigger] tracing::takes_sequence(m, mix, n)
}

/// Whether every token of the texts is one of the vocabulary.
pub open spec fn are_known(texts: Seq<Vec<usize>>, vocab: int) -> bool {
    forall|i: int, j: int|
        0 <= i < texts.len() && 0 <= j < texts[i]@.len() ==> #[trigger] texts[i]@[j] < vocab
}

/// The tokens of known texts are known.
proof fn lemma_stream_is_known(texts: Seq<Vec<usize>>, vocab: int, n: nat)
    requires
        are_known(texts, vocab),
        n <= texts.len(),
    ensures
        forall|p: int| 0 <= p < stream(texts, n).len() ==> #[trigger] stream(texts, n)[p] < vocab,
    decreases n,
{
    if n > 0 {
        lemma_stream_is_known(texts, vocab, (n - 1) as nat);
        let before = stream(texts, (n - 1) as nat);
        assert forall|p: int| 0 <= p < stream(texts, n).len() implies #[trigger] stream(texts, n)[p]
            < vocab by {
            if p < before.len() {
                assert(stream(texts, n)[p] == before[p]);
            } else {
                assert(stream(texts, n)[p] == texts[n - 1]@[p - before.len()]);
            }
        }
    }
}

/// The matrices of the layers that keep one fit in memory.
pub open spec fn matrices_fit(m: ModelView, opts: CalibOpts) -> bool {
    forall|i: int|
        0 <= i < m.linears().len() && #[trigger] keeps_matrix(m, opts, i)
            ==> m.linears()[i].1.inputs() * m.linears()[i].1.inputs() <= usize::MAX
}

impl GPT {
    /// Feeds tokens in passes and gathers the input statistics of every layer. `mix` is attention
    /// up to its output projection, as for a recorded pass.
    #[verifier::rlimit(60)]
    pub fn calibrate<
        M: Fn(usize, Vec<u32>, &Sight) -> Vec<u32>,
        E: Fn(u32) -> u32,
        G: Fn(u32) -> u32,
        S: Fn(u32, u32) -> u32,
    >(
        &self,
        texts: &[Vec<usize>],
        opts: CalibOpts,
        mix: &M,
        exp: &E,
        gelu: &G,
        swiglu: &S,
    ) -> (stats: CalibStats)
        requires
            self@.wf(),
            matrices_fit(self@, opts),
            are_known(texts@, self@.cfg.vocab_size as int),
            takes_passes(
                self@,
                mix,
                pass_length(opts.max_seq as int, self@.cfg.block_size as int),
            ),
            forall|v: u32| call_requires(exp, (v,)),
            forall|v: u32| call_requires(gelu, (v,)),
            forall|v: u32, u: u32| call_requires(swiglu, (v, u)),
        ensures
            exists|passes: Seq<Vec<Captured>>| #[trigger]
                is_calibration(
                    self@,
                    budgeted(texts@, opts.max_tokens as int),
                    opts,
                    mix,
                    exp,
                    gelu,
                    swiglu,
                    passes,
                    stats,
                ),
    {
        let ids: Vec<usize> = token_stream(texts, opts.max_tokens);
        let top: usize = if self.cfg.block_size < 1 {
            1
        } else {
            self.cfg.block_size
        };
        let len: usize = if opts.max_seq < 1 {
            1
        } else if opts.max_seq > top {
            top
        } else {
            opts.max_seq
        };
        let ghost m = self@;
        let listed: Vec<(String, &Linear)> = self.named_linears();
        let ghost n = m.linears().len();
        proof {
            model::linears_are_valid(m);
            assert(listed@.len() == mlp::layer_listing(listed@).len());
        }
        let mut names: Vec<String> = Vec::new();
        let mut widths: Vec<usize> = Vec::new();
        let mut sums: Vec<LayerSums> = Vec::new();
        let ghost mut passes: Seq<Vec<Captured>> = Seq::empty();
        for i in 0..listed.len()
            invariant
                m == self@,
                n == m.linears().len(),
                n == listed@.len(),
                mlp::layer_listing(listed@) == m.linears(),
                matrices_fit(m, opts),
                forall|j: int| 0 <= j < n ==> (#[trigger] m.linears()[j]).1.wf(),
                names@.len() == i,
                widths@.len() == i,
                sums@.len() == i,
                passes.len() == 0,
                forall|j: int| 0 <= j < i ==> (#[trigger] names@[j])@ == m.linears()[j].0,
                forall|j: int| 0 <= j < i ==> #[trigger] widths@[j] == m.linears()[j].1.inputs(),
                forall|j: int|
                    0 <= j < i ==> (#[trigger] sums@[j]).wf(widths@[j] as int)
                        && sums@[j] is Full == keeps_matrix(m, opts, j),
                forall|j: int|
                    0 <= j < i ==> (#[trigger] sums@[j]).sums() == gathered(
                        widths@[j] as int,
                        keeps_matrix(m, opts, j),
                        passes,
                        j,
                        0,
                    ),
        {
            assert(mlp::layer_listing(listed@)[i as int] == (listed@[i as int].0@, listed@[i as int].1@));
            assert(m.linears()[i as int].1.wf());
            let (rows, _) = listed[i].1.dims();
            let full: bool = rows <= opts.full_hessian_max_dim;
            assert(full == keeps_matrix(m, opts, i as int));
            names.push(listed[i].0.clone());
            widths.push(rows);
            sums.push(LayerSums::new(rows, full));
        }
        let mut pos: usize = 0;
        proof {
            assert(0 * len == 0);
            lemma_no_pass(len as int);
            lemma_stream_is_known(texts@, m.cfg.vocab_size as int, texts@.len());
            assert forall|p: int| 0 <= p < ids@.len() implies #[trigger] ids@[p] < m.cfg.vocab_size by {
                assert(ids@[p] == stream(texts@, texts@.len())[p]);
            }
        }
        while pos < ids.len()
            invariant
                m == self@,
                n == m.linears().len(),
                n == names@.len(),
                n == widths@.len(),
                n == sums@.len(),
                len >= 1,
                m.wf(),
                takes_passes(m, mix, len as int),
                forall|v: u32| call_requires(exp, (v,)),
                forall|v: u32| call_requires(gelu, (v,)),
                forall|v: u32, u: u32| call_requires(swiglu, (v, u)),
                forall|p: int| 0 <= p < ids@.len() ==> #[trigger] ids@[p] < m.cfg.vocab_size,
                pos <= ids@.len(),
                pos == passes.len() * len || pos == ids@.len(),
                pos == ids@.len() ==> passes.len() == pass_count(ids@.len() as int, len as int),
                pos < ids@.len() ==> pos == passes.len() * len,
                are_passes(m, mix, exp, gelu, swiglu, ids@, len as int, passes),
                forall|j: int| 0 <= j < n ==> (#[trigger] names@[j])@ == m.linears()[j].0,
                forall|j: int| 0 <= j < n ==> #[trigger] widths@[j] == m.linears()[j].1.inputs(),
                forall|j: int|
                    0 <= j < n ==> (#[trigger] sums@[j]).wf(widths@[j] as int)
                        && sums@[j] is Full == keeps_matrix(m, opts, j),
                forall|j: int| 0 <= j < n ==> (#[trigger] sums@[j]).sums().seen <= pos,
                forall|j: int|
                    0 <= j < n ==> (#[trigger] sums@[j]).sums() == gathered(
                        widths@[j] as int,
                        keeps_matrix(m, opts, j),
                        passes,
                        j,
                        passes.len(),
                    ),
            decreases ids@.len() - pos,
        {
            let end: usize = if ids.len() - pos <= len {
                ids.len()
            } else {
                pos + len
            };
            let mut tokens: Vec<usize> = Vec::new();
            for i in pos..end
                invariant
                    pos <= end <= ids@.len(),
                    tokens@ == ids@.subrange(pos as int, i as int),
            {
                tokens.push(ids[i]);
                assert(ids@.subrange(pos as int, i + 1) =~= ids@.subrange(
                    pos as int,
                    i as int,
                ).push(ids@[i as int]));
            }
            let ghost k = passes.len();
            proof {
                assert((k + 1) * len == k * len + len) by (nonlinear_arith);
                assert(tokens@ =~= pass_tokens(ids@, len as int, k as int));
                assert(tracing::takes_sequence(m, mix, tokens@.len() as int));
            }
            let out: Vec<Captured> = self.traced(&tokens, mix, exp, gelu, swiglu);
            let ghost before = passes;
            proof {
                passes = before.push(out);
                assert forall|q: int| 0 <= q < passes.len() implies tracing::is_trace(
                    m,
                    mix,
                    exp,
                    gelu,
                    swiglu,
                    pass_tokens(ids@, len as int, q),
                    (#[trigger] passes[q])@,
                ) by {
                    if q < k {
                        assert(passes[q] == before[q]);
                    }
                }
            }
            let mut next: Vec<LayerSums> = Vec::new();
            let ghost all = sums@;
            let mut rest: Vec<LayerSums> = sums;
            let mut i: usize = names.len();
            while i > 0
                invariant
                    i <= n,
                    n == m.linears().len(),
                    n == names@.len(),
                    n == widths@.len(),
                    n == all.len(),
                    n == out@.len(),
                    k == before.len(),
                    pos <= end <= ids@.len(),
                    passes == before.push(out),
                    rest@ == all.take(i as int),
                    next@.len() == n - i,
                    forall|j: int| 0 <= j < n ==> (#[trigger] out@[j]).wf(end - pos),
                    forall|j: int| 0 <= j < n ==> #[trigger] widths@[j] == m.linears()[j].1.inputs(),
                    forall|j: int|
                        0 <= j < n ==> (#[trigger] all[j]).wf(widths@[j] as int)
                            && all[j] is Full == keeps_matrix(m, opts, j),
                    forall|j: int| 0 <= j < n ==> (#[trigger] all[j]).sums().seen <= pos,
                    forall|j: int|
                        0 <= j < n ==> (#[trigger] all[j]).sums() == gathered(
                            widths@[j] as int,
                            keeps_matrix(m, opts, j),
                            before,
                            j,
                            k as nat,
                        ),
                    forall|j: int|
                        0 <= j < n - i ==> (#[trigger] next@[j]).wf(widths@[n - 1 - j] as int)
                            && next@[j] is Full == keeps_matrix(m, opts, n - 1 - j),
                    forall|j: int| 0 <= j < n - i ==> (#[trigger] next@[j]).sums().seen <= end,
                    forall|j: int|
                        0 <= j < n - i ==> (#[trigger] next@[j]).sums() == gathered(
                            widths@[n - 1 - j] as int,
                            keeps_matrix(m, opts, n - 1 - j),
                            passes,
                            n - 1 - j,
                            (k + 1) as nat,
                        ),
                decreases i,
            {
                i -= 1;
                let ghost last = all[i as int];
                assert(rest@[i as int] == last);
                let popped: Option<LayerSums> = rest.pop();
                assert(rest@ =~= all.take(i as int));
                let width: usize = widths[i];
                if let Some(acc) = popped {
                    assert(acc == last);
                    let c: &Captured = &out[i];
                    proof {
                        lemma_gathered_is_local(
                            width as int,
                            keeps_matrix(m, opts, i as int),
                            before,
                            out,
                            i as int,
                            k as nat,
                        );
                        assert(out@[i as int].wf(end - pos));
                        assert(passes[k as int]@[i as int] == *c);
                    }
                    let acc: LayerSums = if c.usable(width) {
                        acc.observe(c, width)
                    } else {
                        acc
                    };
                    next.push(acc);
                }
            }
            let mut ordered: Vec<LayerSums> = Vec::new();
            let ghost done = next@;
            let mut i: usize = 0;
            while i < names.len()
                invariant
                    i <= n,
                    n == names@.len(),
                    n == done.len(),
                    next@ == done.take(n - i),
                    ordered@.len() == i,
                    forall|j: int| 0 <= j < i ==> #[trigger] ordered@[j] == done[n - 1 - j],
                decreases n - i,
            {
                let ghost last = done[n - 1 - i];
                assert(next@[n - 1 - i] == last);
                let popped: Option<LayerSums> = next.pop();
                if let Some(acc) = popped {
                    ordered.push(acc);
                }
                assert(next@ =~= done.take(n - (i + 1)));
                i += 1;
            }
            sums = ordered;
            proof {
                assert forall|j: int| 0 <= j < n implies (#[trigger] sums@[j]).wf(widths@[j] as int)
                    && sums@[j] is Full == keeps_matrix(m, opts, j) by {
                    assert(sums@[j] == done[n - 1 - j]);
                }
                assert forall|j: int| 0 <= j < n implies (#[trigger] sums@[j]).sums().seen <= end by {
                    assert(sums@[j] == done[n - 1 - j]);
                }
                assert forall|j: int| 0 <= j < n implies (#[trigger] sums@[j]).sums() == gathered(
                    widths@[j] as int,
                    keeps_matrix(m, opts, j),
                    passes,
                    j,
                    passes.len(),
                ) by {
                    assert(sums@[j] == done[n - 1 - j]);
                }
                if end == ids@.len() {
                    lemma_last_pass(ids@.len() as int, len as int, k as int, pos as int);
                }
            }
            pos = end;
        }
        let mut per_layer: Vec<(String, LayerCalib)> = Vec::new();
        for i in 0..names.len()
            invariant
                n == m.linears().len(),
                n == names@.len(),
                n == widths@.len(),
                n == sums@.len(),
                forall|j: int| 0 <= j < n ==> (#[trigger] names@[j])@ == m.linears()[j].0,
                forall|j: int| 0 <= j < n ==> #[trigger] widths@[j] == m.linears()[j].1.inputs(),
                forall|j: int|
                    0 <= j < n ==> (#[trigger] sums@[j]).wf(widths@[j] as int)
                        && sums@[j] is Full == keeps_matrix(m, opts, j),
                forall|j: int|
                    0 <= j < n ==> (#[trigger] sums@[j]).sums() == gathered(
                        widths@[j] as int,
                        keeps_matrix(m, opts, j),
                        passes,
                        j,
                        passes.len(),
                    ),
                are_reports(m, opts, passes, seen_layers(m, opts, passes, i as nat), per_layer@),
        {
            let ghost before = per_layer@;
            let ghost order = seen_layers(m, opts, passes, i as nat);
            assert(sums@[i as int].sums() == layer_sums(m, opts, passes, i as int));
            let entry: Option<LayerCalib> = finish(&sums[i]);
            if let Some(c) = entry {
                per_layer.push((names[i].clone(), c));
                proof {
                    assert(seen_layers(m, opts, passes, (i + 1) as nat) == order.push(i as int));
                    assert forall|j: int| 0 <= j < per_layer@.len() implies (
                    #[trigger] per_layer@[j]).0@ == m.linears()[order.push(i as int)[j]].0 && is_report(
                        per_layer@[j].1,
                        keeps_matrix(m, opts, order.push(i as int)[j]),
                        layer_sums(m, opts, passes, order.push(i as int)[j]),
                    ) by {
                        if j < before.len() {
                            assert(per_layer@[j] == before[j]);
                        }
                    }
                }
            }
        }
        let stats: CalibStats = CalibStats { per_layer };
        assert(is_calibration(
            m,
            budgeted(texts@, opts.max_tokens as int),
            opts,
            mix,
            exp,
            gelu,
            swiglu,
            passes,
            stats,
        ));
        stats
    }
}

/// The report on one layer; none where it saw no token.
fn finish(s: &LayerSums) -> (r: Option<LayerCalib>)
    ensures
        r is None == (s.sums().seen == 0),
        r matches Some(c) ==> is_report(c, s is Full, s.sums()),
{
    match s {
        LayerSums::Full(c) => {
            let n_tokens: usize = c.n_tokens();
            if n_tokens == 0 {
                return None;
            }
            Some(
                LayerCalib {
                    hessian: Some(HessianKind::Full(c.mean_hessian())),
                    act_abs_mean: Some(c.act_abs_mean()),
                    n_tokens,
                },
            )
        },
        LayerSums::Diagonal { squares, magnitudes, seen } => {
            if *seen == 0 {
                return None;
            }
            Some(
                LayerCalib {
                    hessian: Some(HessianKind::Diagonal(calib::mean(squares, *seen))),
                    act_abs_mean: Some(calib::mean(magnitudes, *seen)),
                    n_tokens: *seen,
                },
            )
        },
    }
}

/// The pass that reaches the end is the last of the count.
proof fn lemma_last_pass(tokens: int, len: int, k: int, pos: int)
    requires
        len >= 1,
        k >= 0,
        pos == k * len,
        pos < tokens <= pos + len,
    ensures
        pass_count(tokens, len) == k + 1,
{
    assert(tokens + len - 1 == (k + 1) * len + (tokens - pos - 1)) by (nonlinear_arith)
        requires
            pos == k * len,
    ;
    vstd::arithmetic::div_mod::lemma_fundamental_div_mod_converse(
        tokens + len - 1,
        len,
        k + 1,
        tokens - pos - 1,
    );
}

/// No token, no pass.
proof fn lemma_no_pass(len: int)
    requires
        len >= 1,
    ensures
        pass_count(0, len) == 0,
{
    vstd::arithmetic::div_mod::lemma_fundamental_div_mod_converse(len - 1, len, 0, len - 1);
}

} // verus!
