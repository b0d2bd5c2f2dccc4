//! What a run does: step counts, learning rates, paths, adapters, calibration.

use crate::block;
use crate::calib::{CalibOpts, CALIB_FULL_HESSIAN_MAX_DIM};
use crate::config::{LoRAConfig, LoRATargets};
use crate::gptq;
use crate::gptq::GptqOpts;
use crate::model::GPT;
use crate::model_tune;
use crate::report::{CalibStats, QuantMethod, QuantOpts, QuantReport};
use crate::quant::QAxis;
use crate::rounding;
use crate::text;
use vstd::prelude::*;

verus! {

/// The bit pattern of `10.0`.
pub const TEN_BITS: u32 = 0x4120_0000;

/// The bit pattern of `0.1`.
pub const TENTH_BITS: u32 = 0x3dcc_cccd;

/// The rank of adapters that nothing else is said about.
pub const DEFAULT_RANK: usize = 16;

/// Where calibration texts are looked for by default.
pub const DEFAULT_CALIB_DIR: &'static str = "data/corpus/";

/// An interval meant for long training, narrowed to a tenth of the steps and at least one.
pub open spec fn narrowed(interval: int, steps: int) -> int {
    let tenth = steps / 10;
    let least = if interval < tenth {
        interval
    } else {
        tenth
    };
    if least < 1 {
        1
    } else {
        least
    }
}

/// Narrows an interval.
pub fn narrow(interval: usize, steps: usize) -> (r: usize)
    ensures
        r == narrowed(interval as int, steps as int),
{
    let tenth: usize = steps / 10;
    let least: usize = if interval < tenth {
        interval
    } else {
        tenth
    };
    if least < 1 {
        1
    } else {
        least
    }
}

/// In a run of ten steps or more, a narrowed interval comes up at least ten times.
pub proof fn narrowed_intervals_come_up(interval: int, steps: int)
    requires
        interval >= 0,
        steps >= 10,
    ensures
        1 <= narrowed(interval, steps),
        10 * narrowed(interval, steps) <= steps,
{
}

/// The settings of training that a run can change. Rates are bit patterns.
#[derive(Clone, Copy, Debug, PartialEq, Eq, Structural)]
pub struct Schedule {
    pub steps: usize,
    pub max_lr: u32,
    pub min_lr: u32,
    pub warmup_steps: usize,
    pub eval_every: usize,
}

/// The schedule of a short run with this rate.
pub open spec fn shortened(s: Schedule, steps: usize, lr: u32) -> Schedule {
    Schedule {
        steps,
        max_lr: lr,
        min_lr: rounding::product(lr, TENTH_BITS),
        warmup_steps: narrowed(s.warmup_steps as int, steps as int) as usize,
        eval_every: narrowed(s.eval_every as int, steps as int) as usize,
    }
}

fn shorten(s: Schedule, steps: usize, lr: u32) -> (r: Schedule)
    ensures
        r == shortened(s, steps, lr),
{
    Schedule {
        steps,
        max_lr: lr,
        min_lr: rounding::multiply(lr, TENTH_BITS),
        warmup_steps: narrow(s.warmup_steps, steps),
        eval_every: narrow(s.eval_every, steps),
    }
}

/// The schedule of supervised tuning: the given steps or the configured ones, the given rate or a
/// tenth of the configured one.
pub fn sft_schedule(s: Schedule, steps: Option<usize>, lr: Option<u32>) -> (r: Schedule)
    ensures
        r == shortened(
            s,
            match steps {
                Some(n) => n,
                None => s.steps,
            },
            match lr {
                Some(l) => l,
                None => rounding::quotient(s.max_lr, TEN_BITS),
            },
        ),
{
    let n: usize = match steps {
        Some(n) => n,
        None => s.steps,
    };
    let l: u32 = match lr {
        Some(l) => l,
        None => rounding::divide(s.max_lr, TEN_BITS),
    };
    shorten(s, n, l)
}

/// The schedule of adapter tuning.
pub fn finetune_schedule(s: Schedule, steps: usize, lr: u32) -> (r: Schedule)
    ensures
        r == shortened(s, steps, lr),
{
    shorten(s, steps, lr)
}

/// The schedule of a run that is compared with others: a warm-up over a tenth of the steps, and
/// nothing is evaluated on the way. A run of less than two steps is refused.
pub fn comparison_schedule(steps: usize, lr: u32) -> (r: Option<Schedule>)
    requires
        steps < usize::MAX,
    ensures
        r is Some == (steps >= 2),
        r matches Some(s) ==> s == (Schedule {
            steps,
            max_lr: lr,
            min_lr: rounding::product(lr, TENTH_BITS),
            warmup_steps: narrowed(steps as int, steps as int) as usize,
            eval_every: (steps + 1) as usize,
        }),
{
    if steps < 2 {
        return None;
    }
    Some(
        Schedule {
            steps,
            max_lr: lr,
            min_lr: rounding::multiply(lr, TENTH_BITS),
            warmup_steps: narrow(steps, steps),
            eval_every: steps + 1,
        },
    )
}

/// Where a tuning run writes: the given directory, or the configured one with a suffix.
pub fn tuned_dir(given: Option<&str>, configured: &str, suffix: &str) -> (r: String)
    ensures
        r@ == match given {
            Some(d) => d@,
            None => configured@ + suffix@,
        },
{
    match given {
        Some(d) => String::from_str(d),
        None => text::joined(configured, suffix),
    }
}

/// Unless told otherwise, tuning never writes over what training left.
pub proof fn tuning_writes_elsewhere(configured: Seq<char>)
    ensures
        configured + "-sft"@ != configured,
        configured + "-lora"@ != configured,
        configured + "-sft"@ != configured + "-lora"@,
{
    reveal_strlit("-sft");
    reveal_strlit("-lora");
    assert((configured + "-sft"@).len() == configured.len() + 4);
    assert((configured + "-lora"@).len() == configured.len() + 5);
}

/// The corpus of a tuning run: the given one or the configured one; none is an error.
pub fn tuning_corpus(given: Option<&str>, configured: Option<&str>) -> (r: Option<String>)
    ensures
        r is None == (given is None && configured is None),
        r matches Some(p) ==> p@ == match given {
            Some(g) => g@,
            None => configured->0@,
        },
{
    match given {
        Some(p) => Some(String::from_str(p)),
        None => match configured {
            Some(p) => Some(String::from_str(p)),
            None => None,
        },
    }
}

/// What is wrong with a request for adapters.
#[derive(Clone, Copy, Debug, PartialEq, Eq, Structural)]
pub enum LoraFault {
    /// Adapters are to be resumed, but the model has none.
    NoAdapters,
    /// Adapters are to be resumed, and their shape is given as well.
    ShapeGiven,
}

/// What is done about adapters.
#[derive(Clone, Copy, Debug, PartialEq, Eq, Structural)]
pub enum LoraPlan {
    /// Those of the model are trained on.
    Resume,
    /// New ones are put in, in place of any that are there.
    Fresh(LoRAConfig),
}

/// What the command line says about adapters.
#[derive(Clone, Copy, Debug, PartialEq, Eq, Structural)]
pub struct LoraArgs {
    pub rank: Option<usize>,
    pub alpha: Option<u32>,
    pub targets: Option<LoRATargets>,
    pub resume: bool,
}

/// The places of adapters that nothing else is said about: queries, keys and values.
pub open spec fn default_targets() -> LoRATargets {
    LoRATargets { q: true, k: true, v: true, o: false, mlp: false }
}

/// The shape of new adapters: what the command line says, then the configuration, then the
/// defaults; without either, the scale is the rank.
pub open spec fn fresh_shape(args: LoraArgs, configured: Option<LoRAConfig>) -> LoRAConfig {
    let rank = match (args.rank, configured) {
        (Some(r), _) => r,
        (None, Some(c)) => c.rank,
        (None, None) => DEFAULT_RANK,
    };
    LoRAConfig {
        rank,
        alpha: match (args.alpha, configured) {
            (Some(a), _) => a,
            (None, Some(c)) => c.alpha,
            (None, None) => rounding::count_value(rank as int),
        },
        targets: match (args.targets, configured) {
            (Some(t), _) => t,
            (None, Some(c)) => c.targets,
            (None, None) => default_targets(),
        },
    }
}

/// What a request for adapters comes to.
pub open spec fn adapter_plan(
    args: LoraArgs,
    configured: Option<LoRAConfig>,
    has_lora: bool,
) -> Result<LoraPlan, LoraFault> {
    if !args.resume {
        Ok(LoraPlan::Fresh(fresh_shape(args, configured)))
    } else if !has_lora {
        Err(LoraFault::NoAdapters)
    } else if args.rank is Some || args.alpha is Some || args.targets is Some {
        Err(LoraFault::ShapeGiven)
    } else {
        Ok(LoraPlan::Resume)
    }
}

/// Decides what is done about adapters.
pub fn lora_plan(args: LoraArgs, configured: Option<LoRAConfig>, has_lora: bool) -> (r: Result<
    LoraPlan,
    LoraFault,
>)
    ensures
        r == adapter_plan(args, configured, has_lora),
{
    if args.resume {
        if !has_lora {
            return Err(LoraFault::NoAdapters);
        }
        if args.rank.is_some() || args.alpha.is_some() || args.targets.is_some() {
            return Err(LoraFault::ShapeGiven);
        }
        return Ok(LoraPlan::Resume);
    }
    let rank: usize = match (args.rank, configured) {
        (Some(r), _) => r,
        (None, Some(c)) => c.rank,
        (None, None) => DEFAULT_RANK,
    };
    let alpha: u32 = match (args.alpha, configured) {
        (Some(a), _) => a,
        (None, Some(c)) => c.alpha,
        (None, None) => rounding::from_count(rank as u64),
    };
    let targets: LoRATargets = match (args.targets, configured) {
        (Some(t), _) => t,
        (None, Some(c)) => c.targets,
        (None, None) => LoRATargets { q: true, k: true, v: true, o: false, mlp: false },
    };
    Ok(LoraPlan::Fresh(LoRAConfig { rank, alpha, targets }))
}

/// Prepares a model for adapter tuning. The tape holds the draws of new adapters.
pub fn prepare_adapters(model: &mut GPT, plan: LoraPlan, tape: &[u32])
    requires
        old(model)@.wf(),
        plan is Resume ==> old(model)@.has_lora(),
        plan matches LoraPlan::Fresh(l) ==> {
            &&& l.rank >= 1
            &&& model_tune::adaptable(old(model)@, l)
            &&& tape@.len() == model_tune::adapter_draws(old(model)@, l)
        },
    ensures
        final(model)@.wf(),
        final(model)@ == match plan {
            LoraPlan::Resume => old(model)@.tuned(),
            LoraPlan::Fresh(l) => old(model)@.adapted(l, tape@),
        },
        block::records(final(model).blocks@) == block::records(old(model).blocks@),
{
    let n: usize = tape.len();
    match plan {
        LoraPlan::Resume => {
            model.resume_lora();
        },
        LoraPlan::Fresh(l) => {
            model.apply_lora(&l, tape);
        },
    }
}

/// The product, or the largest machine number.
pub open spec fn capped_product(a: int, b: int) -> int {
    if a * b <= usize::MAX {
        a * b
    } else {
        usize::MAX as int
    }
}

fn capped(a: usize, b: usize) -> (r: usize)
    ensures
        r == capped_product(a as int, b as int),
{
    match a.checked_mul(b) {
        Some(p) => p,
        None => usize::MAX,
    }
}

/// Characters that are read per token of the budget.
pub const CHARS_PER_TOKEN: usize = 8;

/// How calibration is run.
#[derive(Clone, Copy, Debug, PartialEq, Eq, Structural)]
pub struct CalibPlan {
    pub opts: CalibOpts,
    /// Characters of text that are encoded.
    pub max_chars: usize,
}

/// The token budget: so many windows, never more than a limit, where zero is none.
pub open spec fn token_budget(samples: int, limit: int, window: int) -> int {
    let all = capped_product(
        if samples < 1 {
            1
        } else {
            samples
        },
        if window < 1 {
            1
        } else {
            window
        },
    );
    if limit == 0 || all < limit {
        all
    } else {
        limit
    }
}

/// Plans the calibration of a model with this window; methods that use no statistics need none.
pub fn calib_plan(method: QuantMethod, samples: usize, limit: usize, window: usize) -> (r: Option<
    CalibPlan,
>)
    ensures
        r is Some == (method != QuantMethod::Rtn),
        r matches Some(p) ==> {
            let budget = token_budget(samples as int, limit as int, window as int);
            &&& p.opts.max_tokens == budget
            &&& p.opts.max_seq == if window < 1 {
                1
            } else {
                window as int
            }
            &&& p.opts.full_hessian_max_dim == CALIB_FULL_HESSIAN_MAX_DIM
            &&& p.max_chars == capped_product(budget, CHARS_PER_TOKEN as int)
        },
{
    if !method.needs_calib() {
        return None;
    }
    let seq: usize = if window < 1 {
        1
    } else {
        window
    };
    let all: usize = capped(
        if samples < 1 {
            1
        } else {
            samples
        },
        seq,
    );
    let max_tokens: usize = if limit == 0 || all < limit {
        all
    } else {
        limit
    };
    Some(
        CalibPlan {
            opts: CalibOpts {
                max_tokens,
                max_seq: seq,
                full_hessian_max_dim: CALIB_FULL_HESSIAN_MAX_DIM,
            },
            max_chars: capped(max_tokens, CHARS_PER_TOKEN),
        },
    )
}

/// The options of a quantisation run: one scale per output channel, and the given parameters.
pub fn quant_opts(act_order: bool, damp: u32, block: usize, alpha: Option<u32>) -> (r: QuantOpts)
    ensures
        r == (QuantOpts {
            axis: QAxis::Col,
            gptq: GptqOpts { act_order, damp, block },
            awq_alpha: alpha,
        }),
{
    QuantOpts { axis: QAxis::Col, gptq: GptqOpts { act_order, damp, block }, awq_alpha: alpha }
}

/// Whether every layer of a calibration saw a token.
pub fn all_layers_seen(stats: &CalibStats) -> (r: bool)
    ensures
        r == (forall|i: int|
            0 <= i < stats.per_layer@.len() ==> (#[trigger] stats.per_layer@[i]).1.n_tokens > 0),
{
    for i in 0..stats.per_layer.len()
        invariant
            forall|j: int| 0 <= j < i ==> (#[trigger] stats.per_layer@[j]).1.n_tokens > 0,
    {
        if stats.per_layer[i].1.n_tokens == 0 {
            assert(stats.per_layer@[i as int].1.n_tokens == 0);
            return false;
        }
    }
    true
}

/// The relative errors of the layers.
pub open spec fn errors_of(layers: Seq<QuantReport>) -> Seq<u32> {
    Seq::new(layers.len(), |i: int| layers[i].rel_err)
}

/// Layers that are listed one by one.
pub const LISTED_LAYERS: usize = 16;

/// The layers by falling relative error, equal ones as they come and errors that are no numbers
/// last: the positions of those that are listed, and how many are left.
pub fn worst_first(layers: &[QuantReport]) -> (r: (Vec<usize>, usize))
    ensures
        exists|order: Seq<usize>| #[trigger]
            gptq::is_order(order, errors_of(layers@), true) && {
                let shown = if order.len() < LISTED_LAYERS {
                    order.len() as int
                } else {
                    LISTED_LAYERS as int
                };
                &&& r.0@ == order.take(shown)
                &&& r.1 == order.len() - shown
            },
{
    let n: usize = layers.len();
    let mut errors: Vec<u32> = Vec::new();
    for i in 0..n
        invariant
            n == layers@.len(),
            errors@.len() == i,
            forall|j: int| 0 <= j < i ==> errors@[j] == (#[trigger] layers@[j]).rel_err,
    {
        errors.push(layers[i].rel_err);
    }
    assert(errors@ =~= errors_of(layers@));
    let order: Vec<usize> = gptq::order_by_importance(errors.as_slice(), true);
    assert(gptq::is_order(order@, errors_of(layers@), true));
    let shown: usize = if n < LISTED_LAYERS {
        n
    } else {
        LISTED_LAYERS
    };
    let mut top: Vec<usize> = Vec::new();
    for i in 0..shown
        invariant
            shown <= order@.len(),
            top@ == order@.take(i as int),
    {
        top.push(order[i]);
        assert(order@.take(i + 1) =~= order@.take(i as int).push(order@[i as int]));
    }
    (top, n - shown)
}

/// Steps, batches and generated tokens of a benchmark.
#[derive(Clone, Copy, Debug, PartialEq, Eq, Structural)]
pub struct BenchPlan {
    pub warmup_steps: usize,
    /// Past the end, so that nothing is evaluated.
    pub eval_every: usize,
    pub train_tokens: usize,
    /// Tokens generated with a cache.
    pub cached_tokens: usize,
    /// Tokens generated without one.
    pub full_tokens: usize,
}

pub const BENCH_BATCH: usize = 4;

pub const BENCH_WINDOW: usize = 64;

pub const BENCH_FULL_TOKENS: usize = 24;

/// The tokens of the benchmark's window that are left beside a prompt and its first answer.
pub open spec fn bench_room(prompt_len: int) -> int {
    if prompt_len + 1 < BENCH_WINDOW {
        BENCH_WINDOW - (prompt_len + 1)
    } else {
        0
    }
}

/// Plans a benchmark; the cached run must not outgrow the window.
pub fn bench_plan(steps: usize, gen_tokens: usize, prompt_len: usize) -> (r: BenchPlan)
    requires
        steps * BENCH_BATCH * BENCH_WINDOW <= usize::MAX,
        steps < usize::MAX,
        prompt_len < usize::MAX,
    ensures
        r.warmup_steps == if steps < 10 {
            1
        } else {
            steps as int / 10
        },
        r.eval_every == steps + 1,
        r.train_tokens == steps * BENCH_BATCH * BENCH_WINDOW,
        r.cached_tokens == if gen_tokens < bench_room(prompt_len as int) {
            gen_tokens as int
        } else {
            bench_room(prompt_len as int)
        },
        r.full_tokens == if gen_tokens < BENCH_FULL_TOKENS {
            gen_tokens
        } else {
            BENCH_FULL_TOKENS
        },
{
    let room: usize = if prompt_len + 1 >= BENCH_WINDOW {
        0
    } else {
        BENCH_WINDOW - (prompt_len + 1)
    };
    BenchPlan {
        warmup_steps: if steps / 10 < 1 {
            1
        } else {
            steps / 10
        },
        eval_every: steps + 1,
        train_tokens: steps * BENCH_BATCH * BENCH_WINDOW,
        cached_tokens: if gen_tokens < room {
            gen_tokens
        } else {
            room
        },
        full_tokens: if gen_tokens < BENCH_FULL_TOKENS {
            gen_tokens
        } else {
            BENCH_FULL_TOKENS
        },
    }
}

/// What is wrong with a scaling experiment.
#[derive(Clone, Copy, Debug, PartialEq, Eq, Structural)]
pub enum ScalingFault {
    TooFewSteps,
    NoBudget,
    TooFewSizes,
    TooFewMultiples,
}

/// The points that a curve of three unknowns needs.
pub const CURVE_POINTS: usize = 3;

/// The first rule that an experiment breaks. `has_budget` says whether the budget is positive.
pub open spec fn scaling_fault(
    steps: int,
    has_budget: bool,
    sizes: int,
    multiples: int,
) -> Option<ScalingFault> {
    if steps < 2 {
        Some(ScalingFault::TooFewSteps)
    } else if !has_budget {
        Some(ScalingFault::NoBudget)
    } else if sizes < CURVE_POINTS {
        Some(ScalingFault::TooFewSizes)
    } else if multiples < CURVE_POINTS {
        Some(ScalingFault::TooFewMultiples)
    } else {
        None
    }
}

/// The largest of the first `n` multiples.
pub open spec fn largest(v: Seq<usize>, n: nat) -> usize
    decreases n,
{
    if n <= 1 {
        v[0]
    } else {
        let before = largest(v, (n - 1) as nat);
        if v[n - 1] > before {
            v[n - 1]
        } else {
            before
        }
    }
}

/// How large a model of so many layers and such a width is.
pub open spec fn extent(size: (usize, usize)) -> int {
    size.0 * size.1
}

/// Whether size `k` is the smallest of the first `n`, and the first of those.
pub open spec fn is_smallest(sizes: Seq<(usize, usize)>, k: int, n: int) -> bool {
    &&& 0 <= k < n
    &&& forall|i: int| 0 <= i < n ==> extent(sizes[k]) <= extent(#[trigger] sizes[i])
    &&& forall|i: int| 0 <= i < k ==> extent(sizes[k]) < extent(#[trigger] sizes[i])
}

fn smallest(sizes: &[(usize, usize)]) -> (k: usize)
    requires
        sizes@.len() > 0,
    ensures
        is_smallest(sizes@, k as int, sizes@.len() as int),
{
    let mut k: usize = 0;
    for i in 1..sizes.len()
        invariant
            sizes@.len() > 0,
            is_smallest(sizes@, k as int, i as int),
    {
        let (a, b) = sizes[i];
        let (c, d) = sizes[k];
        proof {
            let top: int = 0xffff_ffff_ffff_ffff;
            assert(0 <= a * b <= top * top && 0 <= c * d <= top * top) by (nonlinear_arith)
                requires
                    0 <= a <= top,
                    0 <= b <= top,
                    0 <= c <= top,
                    0 <= d <= top,
            ;
            assert(top * top <= u128::MAX) by (nonlinear_arith)
                requires
                    top == 0xffff_ffff_ffff_ffff,
            ;
        }
        if a as u128 * (b as u128) < c as u128 * (d as u128) {
            k = i;
        }
    }
    k
}

/// A scaling experiment: the grid of sizes, and the steps from which the data is multiplied.
#[derive(Clone, Copy, Debug, PartialEq, Eq, Structural)]
pub struct ScalingPlan {
    /// Layers of the smallest model, on which the data is multiplied.
    pub small_layers: usize,
    /// Width of the smallest model.
    pub small_width: usize,
    /// Steps of the smallest amount of data.
    pub base_steps: usize,
}

/// Checks and plans a scaling experiment.
pub fn scaling_plan(
    steps: usize,
    has_budget: bool,
    sizes: &[(usize, usize)],
    multiples: &[usize],
) -> (r: Result<ScalingPlan, ScalingFault>)
    requires
        forall|i: int| 0 <= i < multiples@.len() ==> multiples@[i] >= 1,
    ensures
        r is Ok == (scaling_fault(
            steps as int,
            has_budget,
            sizes@.len() as int,
            multiples@.len() as int,
        ) is None),
        r matches Err(e) ==> scaling_fault(
            steps as int,
            has_budget,
            sizes@.len() as int,
            multiples@.len() as int,
        ) == Some(e),
        r matches Ok(p) ==> {
            let share = steps as int / largest(multiples@, multiples@.len()) as int;
            &&& exists|k: int| #[trigger]
                is_smallest(sizes@, k, sizes@.len() as int) && sizes@[k] == (
                    p.small_layers,
                    p.small_width,
                )
            &&& p.base_steps == if share < 2 {
                2
            } else {
                share
            }
        },
{
    if steps < 2 {
        return Err(ScalingFault::TooFewSteps);
    }
    if !has_budget {
        return Err(ScalingFault::NoBudget);
    }
    if sizes.len() < CURVE_POINTS {
        return Err(ScalingFault::TooFewSizes);
    }
    if multiples.len() < CURVE_POINTS {
        return Err(ScalingFault::TooFewMultiples);
    }
    let mut top: usize = multiples[0];
    for i in 1..multiples.len()
        invariant
            multiples@.len() >= 1,
            forall|j: int| 0 <= j < multiples@.len() ==> multiples@[j] >= 1,
            top == largest(multiples@, i as nat),
            top >= 1,
    {
        if multiples[i] > top {
            top = multiples[i];
        }
    }
    let share: usize = steps / top;
    let k: usize = smallest(sizes);
    Ok(
        ScalingPlan {
            small_layers: sizes[k].0,
            small_width: sizes[k].1,
            base_steps: if share < 2 {
                2
            } else {
                share
            },
        },
    )
}

/// Which of `n` values a curve of `points` points shows.
pub open spec fn sampled(n: int, points: int) -> Seq<int> {
    let least = if points < n {
        points
    } else {
        n
    };
    let k = if least < 1 {
        1
    } else {
        least
    };
    Seq::new(
        k as nat,
        |i: int|
            if k == 1 {
                0
            } else {
                i * (n - 1) / (k - 1)
            },
    )
}

/// Picks evenly spread values of a curve: the first, the last, and some between.
pub fn sample_curve(values: &[u32], points: usize) -> (r: Vec<u32>)
    requires
        values@.len() >= 1,
        points * values@.len() <= usize::MAX,
    ensures
        r@.len() == sampled(values@.len() as int, points as int).len(),
        forall|i: int|
            0 <= i < r@.len() ==> #[trigger] r@[i] == values@[sampled(
                values@.len() as int,
                points as int,
            )[i]],
{
    let n: usize = values.len();
    let least: usize = if points < n {
        points
    } else {
        n
    };
    let k: usize = if least < 1 {
        1
    } else {
        least
    };
    let mut out: Vec<u32> = Vec::new();
    for i in 0..k
        invariant
            n == values@.len(),
            n >= 1,
            1 <= k <= n,
            k == 1 || k <= points,
            points * n <= usize::MAX,
            k == sampled(n as int, points as int).len(),
            out@.len() == i,
            forall|j: int|
                0 <= j < i ==> #[trigger] out@[j] == values@[sampled(n as int, points as int)[j]],
    {
        let at: usize = if k == 1 {
            0
        } else {
            proof {
                lemma_sample_fits(i as int, n as int, k as int, points as int);
            }
            i * (n - 1) / (k - 1)
        };
        assert(at == sampled(n as int, points as int)[i as int]);
        out.push(values[at]);
    }
    out
}

proof fn lemma_sample_fits(i: int, n: int, k: int, points: int)
    requires
        0 <= i < k,
        2 <= k <= n,
        k <= points,
        points * n <= usize::MAX,
    ensures
        0 <= i * (n - 1) <= usize::MAX,
        0 <= i * (n - 1) / (k - 1) < n,
{
    assert(0 <= i * (n - 1) <= (k - 1) * (n - 1)) by (nonlinear_arith)
        requires
            0 <= i <= k - 1,
            n >= 1,
    ;
    assert((k - 1) * (n - 1) <= points * n) by (nonlinear_arith)
        requires
            0 <= k - 1 <= points,
            0 <= n - 1 <= n,
    ;
    vstd::arithmetic::div_mod::lemma_div_is_ordered(i * (n - 1), (k - 1) * (n - 1), k - 1);
    vstd::arithmetic::div_mod::lemma_div_multiples_vanish(n - 1, k - 1);
    assert((k - 1) * (n - 1) / (k - 1) == n - 1);
}

/// A sampled curve begins with the first value; with two points or more it ends with the last.
pub proof fn curves_keep_their_ends(n: int, points: int)
    requires
        n >= 1,
    ensures
        sampled(n, points)[0] == 0,
        points >= 2 && n >= 2 ==> sampled(n, points).last() == n - 1,
{
    let least = if points < n {
        points
    } else {
        n
    };
    let k = if least < 1 {
        1
    } else {
        least
    };
    if k >= 2 {
        assert(0 * (n - 1) == 0);
        vstd::arithmetic::div_mod::lemma_div_multiples_vanish(n - 1, k - 1);
        vstd::arithmetic::div_mod::lemma_div_of0(k - 1);
    }
}

} // verus!
