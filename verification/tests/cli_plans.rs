use tiny_llm::calib::CALIB_FULL_HESSIAN_MAX_DIM;
use tiny_llm::cli::apply_rope_override;
use tiny_llm::cli::bool_from_name;
use tiny_llm::cli::check_vocab;
use tiny_llm::cli::describe_kv;
use tiny_llm::cli::inference_tokenizer;
use tiny_llm::cli::kv_bits_from_name;
use tiny_llm::cli::maybe_merge_lora;
use tiny_llm::cli::path_or;
use tiny_llm::cli::q_bits_from_name;
use tiny_llm::cli::q_method_from_name;
use tiny_llm::cli::rebuild_model;
use tiny_llm::cli::resolve_ckpt;
use tiny_llm::cli::rope_scaling_from_cli;
use tiny_llm::cli::training_tokenizer;
use tiny_llm::cli::with_vocab;
use tiny_llm::cli::KvOpts;
use tiny_llm::cli::MergeOutcome;
use tiny_llm::cli::RopeArgs;
use tiny_llm::cli::TokenizerSource;
use tiny_llm::codes::QBits;
use tiny_llm::config::GPTConfig;
use tiny_llm::config::LoRAConfig;
use tiny_llm::config::LoRATargets;
use tiny_llm::config::RopeScaling;
use tiny_llm::gptq::GptqOpts;
use tiny_llm::model::GPT;
use tiny_llm::params::Module;
use tiny_llm::plans::all_layers_seen;
use tiny_llm::plans::bench_plan;
use tiny_llm::plans::calib_plan;
use tiny_llm::plans::finetune_schedule;
use tiny_llm::plans::lora_plan;
use tiny_llm::plans::narrow;
use tiny_llm::plans::prepare_adapters;
use tiny_llm::plans::quant_opts;
use tiny_llm::plans::sample_curve;
use tiny_llm::plans::scaling_plan;
use tiny_llm::plans::sft_schedule;
use tiny_llm::plans::tuned_dir;
use tiny_llm::plans::tuning_corpus;
use tiny_llm::plans::worst_first;
use tiny_llm::plans::LoraArgs;
use tiny_llm::plans::LoraFault;
use tiny_llm::plans::LoraPlan;
use tiny_llm::plans::ScalingFault;
use tiny_llm::plans::Schedule;
use tiny_llm::quant::QAxis;
use tiny_llm::report::CalibStats;
use tiny_llm::report::LayerCalib;
use tiny_llm::report::QuantMethod;
use tiny_llm::report::QuantReport;
use tiny_llm::report::QuantSummary;
use tiny_llm::report_text::LayerNumbers;
use tiny_llm::report_text::ModelNumbers;

fn tape(n: usize) -> Vec<u32> {
    (0..n).map(|i| ((i as f32 * 0.7).sin()).to_bits()).collect()
}

fn small() -> GPTConfig {
    GPTConfig { n_embd: 16, n_layer: 2, ..GPTConfig::tiny(8) }
}

fn draws(cfg: &GPTConfig) -> usize {
    cfg.n_layer * 12 * cfg.n_embd * cfg.n_embd + cfg.vocab_size * cfg.n_embd
}

fn plain_model() -> GPT {
    let cfg = small();
    GPT::new(cfg, &tape(draws(&cfg)))
}

fn v_only(rank: usize) -> LoRAConfig {
    LoRAConfig {
        rank,
        alpha: 4.0f32.to_bits(),
        targets: LoRATargets { q: false, k: false, v: true, o: false, mlp: false },
    }
}

#[test]
fn names_choose_widths_and_methods() {
    assert_eq!(kv_bits_from_name("none"), Ok(None));
    assert_eq!(kv_bits_from_name("int8"), Ok(Some(QBits::Int8)));
    assert_eq!(kv_bits_from_name("int4"), Ok(Some(QBits::Int4)));
    assert_eq!(kv_bits_from_name("fp8"), Err("fp8".to_string()));
    assert_eq!(q_bits_from_name("int8"), Ok(QBits::Int8));
    assert_eq!(q_bits_from_name("none"), Err("none".to_string()));
    assert_eq!(q_method_from_name("rtn"), Ok(QuantMethod::Rtn));
    assert_eq!(q_method_from_name("hess"), Ok(QuantMethod::Gptq));
    assert_eq!(q_method_from_name("awq"), Ok(QuantMethod::Awq));
    for m in [QuantMethod::Rtn, QuantMethod::Gptq, QuantMethod::Awq] {
        assert_eq!(q_method_from_name(m.name()), Ok(m));
    }
    assert_eq!(q_method_from_name("x"), Err("x".to_string()));
    assert_eq!(bool_from_name("true"), Ok(true));
    assert_eq!(bool_from_name("false"), Ok(false));
    assert_eq!(bool_from_name("yes"), Err("yes".to_string()));
    for b in [QBits::Int8, QBits::Int4] {
        assert_eq!(q_bits_from_name(b.name()), Ok(b));
    }
}

fn rope(name: Option<&str>) -> RopeArgs {
    RopeArgs {
        rope_scaling: match name {
            Some(n) => Some(n.to_string()),
            None => None,
        },
        rope_factor: 2.0f32.to_bits(),
        rope_base: None,
        max_ctx: None,
    }
}

#[test]
fn stretching_is_read_by_name() {
    let f = 2.0f32.to_bits();
    assert_eq!(rope_scaling_from_cli(&rope(None)), Ok(None));
    assert_eq!(rope_scaling_from_cli(&rope(Some("none"))), Err("none".to_string()));
    assert_eq!(
        rope_scaling_from_cli(&rope(Some("linear"))),
        Ok(Some(RopeScaling::Linear { factor: f }))
    );
    assert_eq!(rope_scaling_from_cli(&rope(Some("ntk"))), Ok(Some(RopeScaling::Ntk { factor: f })));
    assert_eq!(
        rope_scaling_from_cli(&rope(Some("yarn"))),
        Ok(Some(RopeScaling::Yarn {
            factor: f,
            beta_fast: 32.0f32.to_bits(),
            beta_slow: 1.0f32.to_bits(),
            mscale: 1.0f32.to_bits(),
        }))
    );
    assert_eq!(rope_scaling_from_cli(&rope(Some("spiral"))), Err("spiral".to_string()));
}

#[test]
fn overrides_change_the_window() {
    let mut m = plain_model();
    assert!(matches!(apply_rope_override(&mut m, &rope(None)), Ok(None)));
    assert!(apply_rope_override(&mut m, &rope(Some("spiral"))).is_err());
    assert_eq!(m.cfg, small());
    let args = RopeArgs { max_ctx: Some(100), ..rope(Some("ntk")) };
    let note = apply_rope_override(&mut m, &args).unwrap().expect("something changed");
    assert_eq!((note.old_ctx, note.new_ctx), (32, 100));
    assert_eq!(m.cfg.block_size, 100);
    assert_eq!(m.cfg.rope_train_ctx(), 32);
    assert_eq!(m.blocks[1].attn.rope, m.cfg.rope_spec());
}

#[test]
fn paths_have_defaults() {
    assert_eq!(resolve_ckpt(Some("a.ckpt"), "out"), "a.ckpt");
    assert_eq!(resolve_ckpt(None, "out"), "out/latest.ckpt");
    assert_eq!(path_or(None, "out", "x.json"), "out/x.json");
    assert_eq!(path_or(Some("y"), "out", "x.json"), "y");
    let file = |s: &TokenizerSource| match s {
        TokenizerSource::File(p) => p.clone(),
        TokenizerSource::Corpus => String::new(),
    };
    assert_eq!(file(&inference_tokenizer(Some("t.json"), Some("c.json"), "out", true)), "t.json");
    assert_eq!(file(&inference_tokenizer(None, Some("c.json"), "out", true)), "c.json");
    assert_eq!(file(&inference_tokenizer(None, None, "out", true)), "out/tokenizer.json");
    assert_eq!(file(&inference_tokenizer(None, None, "out", false)), "");
    assert_eq!(file(&training_tokenizer(Some("c.json"), true)), "c.json");
    assert_eq!(file(&training_tokenizer(Some("c.json"), false)), "");
    assert_eq!(tuned_dir(None, "out", "-sft"), "out-sft");
    assert_eq!(tuned_dir(Some("d"), "out", "-sft"), "d");
    assert_eq!(tuning_corpus(Some("a"), Some("b")), Some("a".to_string()));
    assert_eq!(tuning_corpus(None, Some("b")), Some("b".to_string()));
    assert_eq!(tuning_corpus(None, None), None);
}

#[test]
fn vocabularies_must_match() {
    assert!(check_vocab(10, 10).is_ok());
    assert!(check_vocab(10, 0).is_ok());
    let e = check_vocab(9, 10).unwrap_err();
    assert_eq!((e.found, e.expected), (9, 10));
    assert_eq!(with_vocab(GPTConfig::tiny(0), 77).vocab_size, 77);
    assert_eq!(with_vocab(GPTConfig::tiny(5), 77).vocab_size, 5);
}

#[test]
fn adapters_are_rebuilt_and_merged() {
    let cfg = small();
    let t = tape(draws(&cfg));
    let mut plain = rebuild_model(cfg, None, &t, &[]);
    assert!(!plain.has_lora());
    assert!(matches!(maybe_merge_lora(&mut plain, false), MergeOutcome::NotAsked));
    assert!(matches!(maybe_merge_lora(&mut plain, true), MergeOutcome::NoAdapters));
    let lora = v_only(2);
    let mut m = rebuild_model(cfg, Some(lora), &t, &tape(2 * 2 * 16));
    assert!(m.has_lora());
    assert!(matches!(maybe_merge_lora(&mut m, true), MergeOutcome::Merged(2)));
    assert!(!m.has_lora());
}

#[test]
fn caches_are_described() {
    assert_eq!(describe_kv(&KvOpts::off()), "关（每次全量前向）");
    assert_eq!(describe_kv(&KvOpts::on(4, None)), "开（f32，Attention Sink 4)");
    assert_eq!(describe_kv(&KvOpts::on(0, Some(QBits::Int4))), "开（Int4 量化，Attention Sink 0)");
}

#[test]
fn schedules_are_shortened() {
    assert_eq!(narrow(100, 50), 5);
    assert_eq!(narrow(3, 50), 3);
    assert_eq!(narrow(100, 5), 1);
    let s = Schedule {
        steps: 1000,
        max_lr: 1.0f32.to_bits(),
        min_lr: 0.5f32.to_bits(),
        warmup_steps: 100,
        eval_every: 20,
    };
    let t = sft_schedule(s, None, None);
    assert_eq!((t.steps, t.warmup_steps, t.eval_every), (1000, 100, 20));
    assert_eq!(t.max_lr, (1.0f32 / 10.0).to_bits());
    assert_eq!(t.min_lr, ((1.0f32 / 10.0) * 0.1).to_bits());
    let t = finetune_schedule(s, 50, 0.25f32.to_bits());
    assert_eq!((t.steps, t.warmup_steps, t.eval_every), (50, 5, 5));
    assert_eq!(t.min_lr, (0.25f32 * 0.1).to_bits());
}

#[test]
fn adapters_are_planned() {
    let none = LoraArgs { rank: None, alpha: None, targets: None, resume: false };
    match lora_plan(none, None, false) {
        Ok(LoraPlan::Fresh(l)) => assert_eq!(l.rank, 16),
        _ => panic!("fresh adapters are the rule"),
    }
    match lora_plan(LoraArgs { rank: Some(3), ..none }, Some(v_only(5)), false) {
        Ok(LoraPlan::Fresh(l)) => {
            assert_eq!((l.rank, l.alpha, l.targets), (3, v_only(5).alpha, v_only(5).targets))
        }
        _ => panic!("fresh adapters are the rule"),
    }
    let resume = LoraArgs { resume: true, ..none };
    assert_eq!(lora_plan(resume, None, false), Err(LoraFault::NoAdapters));
    let shaped = LoraArgs { rank: Some(2), ..resume };
    assert_eq!(lora_plan(shaped, None, true), Err(LoraFault::ShapeGiven));
    assert_eq!(lora_plan(resume, None, true), Ok(LoraPlan::Resume));

    let mut m = plain_model();
    prepare_adapters(&mut m, LoraPlan::Fresh(v_only(2)), &tape(2 * 2 * 16));
    assert_eq!(m.lora_parameters().len(), 4);
    prepare_adapters(&mut m, LoraPlan::Resume, &[]);
    assert_eq!(m.trainable_parameters().len(), 4);
}

#[test]
fn calibration_is_planned() {
    assert!(calib_plan(QuantMethod::Rtn, 8, 0, 32).is_none());
    let p = calib_plan(QuantMethod::Gptq, 8, 0, 32).unwrap();
    assert_eq!((p.opts.max_tokens, p.opts.max_seq, p.max_chars), (256, 32, 2048));
    assert_eq!(p.opts.full_hessian_max_dim, CALIB_FULL_HESSIAN_MAX_DIM);
    let p = calib_plan(QuantMethod::Awq, 8, 100, 32).unwrap();
    assert_eq!((p.opts.max_tokens, p.max_chars), (100, 800));
    let p = calib_plan(QuantMethod::Awq, usize::MAX, 0, 2).unwrap();
    assert_eq!((p.opts.max_tokens, p.max_chars), (usize::MAX, usize::MAX));
    let o = quant_opts(true, 0.5f32.to_bits(), 64, None);
    assert_eq!(o.axis, QAxis::Col);
    assert!(o.gptq.act_order);
    assert_eq!((o.gptq.damp, o.gptq.block, o.awq_alpha), (0.5f32.to_bits(), 64, None));
}

fn layer(tokens: usize) -> LayerCalib {
    LayerCalib {
        hessian: None,
        act_abs_mean: None,
        n_tokens: tokens,
    }
}

#[test]
fn layers_without_data_are_noticed() {
    let seen = CalibStats { per_layer: vec![("a".to_string(), layer(3)), ("b".to_string(), layer(1))] };
    assert!(all_layers_seen(&seen));
    let gap = CalibStats { per_layer: vec![("a".to_string(), layer(3)), ("b".to_string(), layer(0))] };
    assert!(!all_layers_seen(&gap));
    assert_eq!(seen.get("b").unwrap().n_tokens, 1);
    assert!(seen.get("c").is_none());
}

fn report(name: &str, rel: f32) -> QuantReport {
    QuantReport {
        name: name.to_string(),
        method: QuantMethod::Gptq,
        bits: QBits::Int8,
        f32_bytes: 4096,
        quant_bytes: 1088,
        max_abs_err: 0.0012f32.to_bits(),
        rel_err: rel.to_bits(),
        alpha: None,
    }
}

#[test]
fn the_worst_layers_come_first() {
    let layers: Vec<QuantReport> =
        (0..20).map(|i| report("l", if i == 7 { 9.0 } else { i as f32 * 0.1 })).collect();
    let (shown, hidden) = worst_first(&layers);
    assert_eq!(shown[..3], [7, 19, 18]);
    assert_eq!((shown.len(), hidden), (16, 4));
    // An error that is no number comes last.
    let odd = [report("a", f32::NAN), report("b", 0.1), report("c", 0.2)];
    assert_eq!(worst_first(&odd), (vec![2, 1, 0], 0));
    let s = QuantSummary {
        method: QuantMethod::Gptq,
        bits: QBits::Int8,
        f32_bytes: 10,
        quant_bytes: 4,
        layers,
        skipped: 0,
    };
    assert_eq!(f32::from_bits(s.worst_layer().unwrap().rel_err), 9.0);
    let r = s.ratio();
    assert_eq!(r.num as f64 / r.den as f64, 2.5);
}

#[test]
fn benches_are_planned() {
    let p = bench_plan(30, 40, 10);
    assert_eq!((p.warmup_steps, p.eval_every, p.train_tokens), (3, 31, 30 * 4 * 64));
    assert_eq!((p.cached_tokens, p.full_tokens), (40, 24));
    let p = bench_plan(5, 100, 10);
    assert_eq!((p.warmup_steps, p.cached_tokens), (1, 53));
    let p = bench_plan(5, 8, 70);
    assert_eq!((p.cached_tokens, p.full_tokens), (0, 8));
}

#[test]
fn scaling_runs_are_planned() {
    let sizes = [(1, 32), (2, 48), (2, 64)];
    let p = scaling_plan(100, true, &sizes, &[1, 2, 4]).unwrap();
    assert_eq!((p.small_layers, p.small_width, p.base_steps), (1, 32, 25));
    // The data is multiplied on the smallest model, wherever it is listed; the first of equals.
    let p = scaling_plan(8, true, &[(4, 128), (2, 64), (3, 96)], &[1, 2, 4]).unwrap();
    assert_eq!((p.small_layers, p.small_width, p.base_steps), (2, 64, 2));
    let p = scaling_plan(8, true, &[(4, 128), (2, 32), (1, 64)], &[1, 2, 4]).unwrap();
    assert_eq!((p.small_layers, p.small_width), (2, 32));
    let p = scaling_plan(5, true, &sizes, &[1, 2, 4]).unwrap();
    assert_eq!(p.base_steps, 2);
    assert_eq!(scaling_plan(1, true, &sizes, &[1, 2, 4]).unwrap_err(), ScalingFault::TooFewSteps);
    assert_eq!(scaling_plan(9, false, &sizes, &[1, 2, 4]).unwrap_err(), ScalingFault::NoBudget);
    assert_eq!(scaling_plan(9, true, &sizes[..2], &[1, 2, 4]).unwrap_err(), ScalingFault::TooFewSizes);
    assert_eq!(scaling_plan(9, true, &sizes, &[1, 2]).unwrap_err(), ScalingFault::TooFewMultiples);
    assert_eq!(sample_curve(&[10, 11, 12, 13, 14], 3), vec![10, 12, 14]);
    assert_eq!(sample_curve(&[10, 11], 5), vec![10, 11]);
    assert_eq!(sample_curve(&[10, 11], 0), vec![10]);
}

#[test]
fn reports_are_put_in_words() {
    let o = GptqOpts { act_order: true, damp: 0.01f32.to_bits(), block: 0 };
    assert_eq!(o.describe("0.01"), "act-order=开，damp=0.01，block=不分块");
    let o = GptqOpts { act_order: false, block: 128, ..o };
    assert_eq!(o.describe("0.01"), "act-order=关，damp=0.01，block=128");

    let mut r = report("blocks.0.attn.c_q", 0.5);
    let n = LayerNumbers {
        ratio: format!("{:.2}", 4096.0 / 1088.0),
        max_abs: format!("{:.3e}", 0.0012f32),
        rel: format!("{:.2}", 50.0),
        alpha: "0.25".to_string(),
    };
    let want = format!(
        "{:<28} {} {:<4} {:>9} → {:>9} B（{:>5.2}×）max-abs {:.3e} rel {:.2}%",
        r.name, "int8", r.method.name(), 4096, 1088, 4096.0 / 1088.0, 0.0012f32, 50.0
    );
    assert_eq!(r.describe(&n), want);
    r.alpha = Some(0.25f32.to_bits());
    assert_eq!(r.describe(&n), format!("{}，α=0.25", want));

    let s = QuantSummary {
        method: QuantMethod::Rtn,
        bits: QBits::Int4,
        f32_bytes: 100,
        quant_bytes: 20,
        layers: Vec::new(),
        skipped: 0,
    };
    let m = ModelNumbers {
        f32_mb: "0.01".to_string(),
        quant_mb: "0.00".to_string(),
        ratio: "5.00".to_string(),
        worst_rel: String::new(),
    };
    assert_eq!(
        s.describe(&m),
        format!(
            "int4 rtn 量化（{}）：权重 100 → 20（0.01 MB → 0.00 MB，压缩 5.00×，命中 0 层）",
            QuantMethod::Rtn.describe()
        )
    );
    assert!(!QuantMethod::Rtn.needs_calib() && QuantMethod::Awq.needs_calib());
}
