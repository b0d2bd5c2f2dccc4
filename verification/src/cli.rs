//! What the command line asks for: names, paths, overrides.

use crate::codes::QBits;
use crate::config::{GPTConfig, LoRAConfig, RopeScaling};
use crate::model;
use crate::model::{ModelView, GPT};
use crate::model_tune;
use crate::block;
use crate::report::QuantMethod;
use crate::text;
use vstd::prelude::*;

verus! {

/// The bit pattern of `32.0`.
pub const YARN_BETA_FAST: u32 = 0x4200_0000;

/// The bit pattern of `1.0`.
pub const YARN_ONE: u32 = 0x3f80_0000;

/// The width that a cache option names: `none`, `int8` or `int4`.
pub open spec fn kv_width(name: Seq<char>) -> Option<Option<QBits>> {
    if name == "none"@ {
        Some(None)
    } else {
        match weight_width(name) {
            Some(b) => Some(Some(b)),
            None => None,
        }
    }
}

/// The width that a weight option names: `int8` or `int4`.
pub open spec fn weight_width(name: Seq<char>) -> Option<QBits> {
    if name == "int8"@ {
        Some(QBits::Int8)
    } else if name == "int4"@ {
        Some(QBits::Int4)
    } else {
        None
    }
}

/// Whether a result is this choice; an unknown name comes back as the error.
pub open spec fn chooses<T>(r: Result<T, String>, name: Seq<char>, choice: Option<T>) -> bool {
    match choice {
        Some(v) => r == Ok::<T, String>(v),
        None => r is Err && r->Err_0@ == name,
    }
}

/// Reads the width of stored keys and values.
pub fn kv_bits_from_name(name: &str) -> (r: Result<Option<QBits>, String>)
    ensures
        chooses(r, name@, kv_width(name@)),
{
    if text::same_text(name, "none") {
        Ok(None)
    } else if text::same_text(name, "int8") {
        Ok(Some(QBits::Int8))
    } else if text::same_text(name, "int4") {
        Ok(Some(QBits::Int4))
    } else {
        Err(String::from_str(name))
    }
}

/// Reads the width of stored weights.
pub fn q_bits_from_name(name: &str) -> (r: Result<QBits, String>)
    ensures
        chooses(r, name@, weight_width(name@)),
{
    if text::same_text(name, "int8") {
        Ok(QBits::Int8)
    } else if text::same_text(name, "int4") {
        Ok(QBits::Int4)
    } else {
        Err(String::from_str(name))
    }
}

/// The algorithm that an option names: `rtn`, `gptq` or `awq`. `hess` is another name of `gptq`.
pub open spec fn algorithm(name: Seq<char>) -> Option<QuantMethod> {
    if name == "rtn"@ {
        Some(QuantMethod::Rtn)
    } else if name == "gptq"@ || name == "hess"@ {
        Some(QuantMethod::Gptq)
    } else if name == "awq"@ {
        Some(QuantMethod::Awq)
    } else {
        None
    }
}

/// Reads the quantisation algorithm.
pub fn q_method_from_name(name: &str) -> (r: Result<QuantMethod, String>)
    ensures
        chooses(r, name@, algorithm(name@)),
{
    if text::same_text(name, "rtn") {
        Ok(QuantMethod::Rtn)
    } else if text::same_text(name, "gptq") || text::same_text(name, "hess") {
        Ok(QuantMethod::Gptq)
    } else if text::same_text(name, "awq") {
        Ok(QuantMethod::Awq)
    } else {
        Err(String::from_str(name))
    }
}

/// The name of every algorithm leads back to it.
pub proof fn algorithm_names_read_back(m: QuantMethod)
    ensures
        algorithm(m.title()) == Some(m),
{
    reveal_strlit("rtn");
    reveal_strlit("gptq");
    reveal_strlit("hess");
    reveal_strlit("awq");
    assert("gptq"@[0] != "rtn"@[0]);
    assert("awq"@[0] != "rtn"@[0] && "awq"@[0] != "gptq"@[0] && "awq"@[0] != "hess"@[0]);
}

/// The truth value that a text names; nothing but `true` and `false` does.
pub open spec fn truth(name: Seq<char>) -> Option<bool> {
    if name == "true"@ {
        Some(true)
    } else if name == "false"@ {
        Some(false)
    } else {
        None
    }
}

/// Reads a truth value.
pub fn bool_from_name(name: &str) -> (r: Result<bool, String>)
    ensures
        chooses(r, name@, truth(name@)),
{
    if text::same_text(name, "true") {
        Ok(true)
    } else if text::same_text(name, "false") {
        Ok(false)
    } else {
        Err(String::from_str(name))
    }
}

/// What the command line says about rotary frequencies. Fractions are bit patterns.
#[derive(Clone, Debug)]
pub struct RopeArgs {
    pub rope_scaling: Option<String>,
    pub rope_factor: u32,
    pub rope_base: Option<u32>,
    pub max_ctx: Option<usize>,
}

/// The stretching that a name and a factor ask for.
pub open spec fn stretching(name: Seq<char>, factor: u32) -> Option<RopeScaling> {
    if name == "linear"@ {
        Some(RopeScaling::Linear { factor })
    } else if name == "ntk"@ {
        Some(RopeScaling::Ntk { factor })
    } else if name == "yarn"@ {
        Some(
            RopeScaling::Yarn {
                factor,
                beta_fast: YARN_BETA_FAST,
                beta_slow: YARN_ONE,
                mscale: YARN_ONE,
            },
        )
    } else {
        None
    }
}

impl RopeArgs {
    /// The name of the stretching, if one is given.
    pub open spec fn scaling_name(&self) -> Option<Seq<char>> {
        match self.rope_scaling {
            Some(s) => Some(s@),
            None => None,
        }
    }

    /// Whether the name of the stretching is unknown.
    pub open spec fn is_bad(&self) -> bool {
        self.scaling_name() matches Some(n) && stretching(n, self.rope_factor) is None
    }

    /// The stretching asked for, if any.
    pub open spec fn asked(&self) -> Option<RopeScaling> {
        match self.scaling_name() {
            Some(n) => stretching(n, self.rope_factor),
            None => None,
        }
    }

    /// Whether anything is to be changed.
    pub open spec fn changes(&self) -> bool {
        self.asked() is Some || self.rope_base is Some || self.max_ctx is Some
    }

    /// The configuration after the change.
    pub open spec fn changed(&self, c: GPTConfig) -> GPTConfig {
        let window = match self.max_ctx {
            Some(n) => n,
            None => c.trained_window(),
        };
        GPTConfig {
            block_size: window,
            rope_base: match self.rope_base {
                Some(b) => b,
                None => c.rope_base,
            },
            rope_scaling: match self.asked() {
                Some(s) => s,
                None => c.rope_scaling,
            },
            rope_train_ctx: if c.trained_window() == 0 {
                window
            } else {
                c.trained_window()
            },
            ..c
        }
    }
}

/// Reads the stretching; an unknown name comes back as the error.
pub fn rope_scaling_from_cli(args: &RopeArgs) -> (r: Result<Option<RopeScaling>, String>)
    ensures
        args.is_bad() ==> r is Err && r->Err_0@ == args.rope_scaling->0@,
        !args.is_bad() ==> r == Ok::<Option<RopeScaling>, String>(args.asked()),
{
    match &args.rope_scaling {
        None => Ok(None),
        Some(name) => {
            let name: &str = name.as_str();
            let factor: u32 = args.rope_factor;
            if text::same_text(name, "linear") {
                Ok(Some(RopeScaling::Linear { factor }))
            } else if text::same_text(name, "ntk") {
                Ok(Some(RopeScaling::Ntk { factor }))
            } else if text::same_text(name, "yarn") {
                Ok(
                    Some(
                        RopeScaling::Yarn {
                            factor,
                            beta_fast: YARN_BETA_FAST,
                            beta_slow: YARN_ONE,
                            mscale: YARN_ONE,
                        },
                    ),
                )
            } else {
                Err(String::from_str(name))
            }
        },
    }
}

/// A change of the rotary frequencies, for the record.
#[derive(Clone, Copy, Debug, PartialEq, Eq, Structural)]
pub struct RopeNote {
    pub old_ctx: usize,
    pub new_ctx: usize,
    pub base: u32,
    pub scaling: RopeScaling,
}

/// Applies what the command line says about rotary frequencies; without any of it, or with an
/// unknown name, the model stays as it is.
pub fn apply_rope_override(model: &mut GPT, args: &RopeArgs) -> (r: Result<
    Option<RopeNote>,
    String,
>)
    ensures
        args.is_bad() ==> r is Err && r->Err_0@ == args.rope_scaling->0@ && *final(model) == *old(model),
        !args.is_bad() && !args.changes() ==> r == Ok::<Option<RopeNote>, String>(None) && *final(model) == *old(model),
        !args.is_bad() && args.changes() ==> {
            let after = args.changed(old(model)@.cfg);
            &&& final(model)@ == old(model)@.rotated(after)
            &&& r == Ok::<Option<RopeNote>, String>(
                Some(
                    RopeNote {
                        old_ctx: old(model)@.cfg.block_size,
                        new_ctx: after.block_size,
                        base: after.rope_base,
                        scaling: after.rope_scaling,
                    },
                ),
            )
        },
        block::records(final(model).blocks@) == block::records(old(model).blocks@),
{
    let scaling: Option<RopeScaling> = match rope_scaling_from_cli(args) {
        Ok(s) => s,
        Err(name) => {
            return Err(name);
        },
    };
    if scaling.is_none() && args.rope_base.is_none() && args.max_ctx.is_none() {
        return Ok(None);
    }
    let train_ctx: usize = model.cfg.rope_train_ctx();
    let new_ctx: usize = match args.max_ctx {
        Some(n) => n,
        None => train_ctx,
    };
    let base: u32 = match args.rope_base {
        Some(b) => b,
        None => model.cfg.rope_base,
    };
    let scaling: RopeScaling = match scaling {
        Some(s) => s,
        None => model.cfg.rope_scaling,
    };
    let old_ctx: usize = model.set_rope(base, scaling, train_ctx, new_ctx);
    Ok(Some(RopeNote { old_ctx, new_ctx, base, scaling }))
}

/// A wider window at inference does not change the window that the model was trained with.
pub proof fn overrides_keep_the_training_window(args: RopeArgs, c: GPTConfig)
    requires
        c.trained_window() > 0,
    ensures
        args.changed(c).trained_window() == c.trained_window(),
        args.changed(c).frequencies().train_ctx == c.trained_window(),
{
}

/// The archive to read: the one given, or the latest of the output directory.
pub fn resolve_ckpt(ckpt: Option<&str>, out_dir: &str) -> (r: String)
    ensures
        r@ == match ckpt {
            Some(p) => p@,
            None => out_dir@ + "/latest.ckpt"@,
        },
{
    match ckpt {
        Some(p) => String::from_str(p),
        None => text::joined(out_dir, "/latest.ckpt"),
    }
}

/// A path given, or a file of the output directory.
pub fn path_or(given: Option<&str>, out_dir: &str, file: &str) -> (r: String)
    ensures
        r@ == match given {
            Some(p) => p@,
            None => out_dir@ + "/"@ + file@,
        },
{
    match given {
        Some(p) => String::from_str(p),
        None => {
            let mut s: String = text::joined(out_dir, "/");
            s.append(file);
            s
        },
    }
}

/// Where a tokenizer comes from.
#[derive(Clone, Debug)]
pub enum TokenizerSource {
    /// A file.
    File(String),
    /// It is trained on the corpus.
    Corpus,
}

/// Whether a source is this file, or the corpus.
pub open spec fn comes_from(s: TokenizerSource, path: Option<Seq<char>>) -> bool {
    match path {
        Some(p) => s is File && s->File_0@ == p,
        None => s is Corpus,
    }
}

/// The file that inference reads a tokenizer from: the one given, the one configured, or the one
/// that training saved.
pub open spec fn tokenizer_file(
    given: Option<Seq<char>>,
    configured: Option<Seq<char>>,
    out_dir: Seq<char>,
    saved: bool,
) -> Option<Seq<char>> {
    match (given, configured) {
        (Some(p), _) => Some(p),
        (None, Some(p)) => Some(p),
        (None, None) => if saved {
            Some(out_dir + "/tokenizer.json"@)
        } else {
            None
        },
    }
}

/// The text behind an optional reference.
pub open spec fn text_of(s: Option<&str>) -> Option<Seq<char>> {
    match s {
        Some(t) => Some(t@),
        None => None,
    }
}

/// Chooses the tokenizer of inference. `saved` says whether training left a file in `out_dir`.
pub fn inference_tokenizer(
    given: Option<&str>,
    configured: Option<&str>,
    out_dir: &str,
    saved: bool,
) -> (r: TokenizerSource)
    ensures
        comes_from(r, tokenizer_file(text_of(given), text_of(configured), out_dir@, saved)),
{
    match (given, configured) {
        (Some(p), _) => TokenizerSource::File(String::from_str(p)),
        (None, Some(p)) => TokenizerSource::File(String::from_str(p)),
        (None, None) => if saved {
            TokenizerSource::File(text::joined(out_dir, "/tokenizer.json"))
        } else {
            TokenizerSource::Corpus
        },
    }
}

/// Chooses the tokenizer of training: the configured file where it exists, otherwise the corpus.
pub fn training_tokenizer(configured: Option<&str>, exists: bool) -> (r: TokenizerSource)
    ensures
        comes_from(
            r,
            if exists {
                text_of(configured)
            } else {
                None
            },
        ),
{
    match configured {
        Some(p) => if exists {
            TokenizerSource::File(String::from_str(p))
        } else {
            TokenizerSource::Corpus
        },
        None => TokenizerSource::Corpus,
    }
}

/// A tokenizer and a model of different vocabularies.
#[derive(Clone, Copy, Debug, PartialEq, Eq, Structural)]
pub struct VocabMismatch {
    pub found: usize,
    pub expected: usize,
}

/// Checks a tokenizer against a model; an expectation of zero accepts all.
pub fn check_vocab(found: usize, expected: usize) -> (r: Result<(), VocabMismatch>)
    ensures
        r is Ok == (expected == 0 || found == expected),
        r matches Err(e) ==> e == (VocabMismatch { found, expected }),
{
    if expected == 0 || found == expected {
        Ok(())
    } else {
        Err(VocabMismatch { found, expected })
    }
}

/// The configuration of training: a vocabulary of zero is the tokenizer's.
pub fn with_vocab(cfg: GPTConfig, tokenizer_vocab: usize) -> (r: GPTConfig)
    ensures
        r == if cfg.vocab_size == 0 {
            GPTConfig { vocab_size: tokenizer_vocab, ..cfg }
        } else {
            cfg
        },
{
    let mut r: GPTConfig = cfg;
    if r.vocab_size == 0 {
        r.vocab_size = tokenizer_vocab;
    }
    r
}

/// The model that an archive describes, before its parameters are read.
pub open spec fn described(
    cfg: GPTConfig,
    lora: Option<LoRAConfig>,
    tape: Seq<u32>,
    adapter_tape: Seq<u32>,
) -> ModelView {
    let plain = model::drawn_model(cfg, tape);
    match lora {
        Some(l) => plain.adapted(l, adapter_tape),
        None => plain,
    }
}

/// Builds the model that an archive describes, with its adapters where it has any: the parameters
/// are then read by name, so those of the adapters must be there.
pub fn rebuild_model(
    cfg: GPTConfig,
    lora: Option<LoRAConfig>,
    tape: &[u32],
    adapter_tape: &[u32],
) -> (m: GPT)
    requires
        block::buildable(cfg),
        tape@.len() == model::model_draws(cfg),
        lora matches Some(l) ==> {
            let plain = model::drawn_model(cfg, tape@);
            &&& l.rank >= 1
            &&& model_tune::adaptable(plain, l)
            &&& adapter_tape@.len() == model_tune::adapter_draws(plain, l)
        },
    ensures
        m@.wf(),
        m@ == described(cfg, lora, tape@, adapter_tape@),
{
    let n: usize = tape.len();
    let k: usize = adapter_tape.len();
    let mut m: GPT = GPT::new(cfg, tape);
    if let Some(l) = lora {
        m.apply_lora(&l, adapter_tape);
    }
    m
}

/// What became of a request to merge adapters.
#[derive(Clone, Copy, Debug, PartialEq, Eq, Structural)]
pub enum MergeOutcome {
    NotAsked,
    NoAdapters,
    /// So many adapters were merged.
    Merged(usize),
}

/// Merges the adapters where that is asked for and there are any.
pub fn maybe_merge_lora(model: &mut GPT, merge_lora: bool) -> (r: MergeOutcome)
    requires
        old(model)@.wf(),
    ensures
        final(model)@.wf(),
        !merge_lora ==> r == MergeOutcome::NotAsked && *final(model) == *old(model),
        merge_lora && !old(model)@.has_lora() ==> r == MergeOutcome::NoAdapters && *final(model)
            == *old(model),
        merge_lora && old(model)@.has_lora() ==> r == MergeOutcome::Merged(
            (old(model)@.adapters().len() / 2) as usize,
        ) && final(model)@ == old(model)@.merged(),
        block::records(final(model).blocks@) == block::records(old(model).blocks@),
{
    if !merge_lora {
        return MergeOutcome::NotAsked;
    }
    if !model.has_lora() {
        return MergeOutcome::NoAdapters;
    }
    let adapters: usize = {
        let ps = model.lora_parameters();
        assert(ps@.len() == crate::params::views(ps@).len());
        ps.len() / 2
    };
    model.merge_lora();
    MergeOutcome::Merged(adapters)
}

/// Whether and how keys and values are kept between tokens.
#[derive(Clone, Copy, Debug, PartialEq, Eq, Structural)]
pub struct KvOpts {
    pub enable: bool,
    pub sink: usize,
    pub bits: Option<QBits>,
}

impl KvOpts {
    pub fn on(sink: usize, bits: Option<QBits>) -> (r: Self)
        ensures
            r == (KvOpts { enable: true, sink, bits }),
    {
        KvOpts { enable: true, sink, bits }
    }

    pub fn off() -> (r: Self)
        ensures
            r == (KvOpts { enable: false, sink: 0, bits: None }),
    {
        KvOpts { enable: false, sink: 0, bits: None }
    }
}

/// How the stored numbers are described.
pub open spec fn width_text(bits: Option<QBits>) -> Seq<char> {
    match bits {
        None => "f32"@,
        Some(QBits::Int8) => "Int8 量化"@,
        Some(QBits::Int4) => "Int4 量化"@,
    }
}

/// Describes the cache in words.
pub fn describe_kv(kv: &KvOpts) -> (r: String)
    ensures
        r@ == if kv.enable {
            "开（"@ + width_text(kv.bits) + "，Attention Sink "@ + text::digits(kv.sink as nat)
                + ")"@
        } else {
            "关（每次全量前向）"@
        },
{
    if !kv.enable {
        return String::from_str("关（每次全量前向）");
    }
    let width: &str = match kv.bits {
        None => "f32",
        Some(QBits::Int8) => "Int8 量化",
        Some(QBits::Int4) => "Int4 量化",
    };
    let mut s: String = text::joined("开（", width);
    s.append("，Attention Sink ");
    s.append(text::decimal(kv.sink).as_str());
    s.append(")");
    s
}

/// The names of the widths lead back to them.
pub proof fn width_names_read_back()
    ensures
        weight_width("int8"@) == Some(QBits::Int8),
        weight_width("int4"@) == Some(QBits::Int4),
        kv_width("int8"@) == Some(Some(QBits::Int8)),
        kv_width("int4"@) == Some(Some(QBits::Int4)),
        kv_width("none"@) == Some(None::<QBits>),
{
    reveal_strlit("int8");
    reveal_strlit("int4");
    reveal_strlit("none");
    assert("int8"@[3] == '8');
    assert("int4"@[3] == '4');
    assert("none"@[0] == 'n');
    assert("int8"@[0] == 'i');
    assert("int4"@[0] == 'i');
}

} // verus!
