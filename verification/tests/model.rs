use std::cell::RefCell;
use tiny_llm::attention::expand_kv_head;
use tiny_llm::attention::fold_kv_head_grad;
use tiny_llm::attention::MultiHeadAttention;
use tiny_llm::block::Ffn;
use tiny_llm::calib::CalibOpts;
use tiny_llm::calibrate::token_stream;
use tiny_llm::calibrate::Captured;
use tiny_llm::codes::QBits;
use tiny_llm::config::GPTConfig;
use tiny_llm::config::LoRAConfig;
use tiny_llm::config::LoRATargets;
use tiny_llm::config::RopeScaling;
use tiny_llm::config::ROPE_BASE;
use tiny_llm::layers::Linear;
use tiny_llm::layers::LoraAdapter;
use tiny_llm::loss::cross_entropy_loss;
use tiny_llm::mlp::MLPEnum;
use tiny_llm::model::GPT;
use tiny_llm::model_run::build_mask;
use tiny_llm::model_run::sight;
use tiny_llm::model_run::window_geometry;
use tiny_llm::model_run::CacheState;
use tiny_llm::model_run::Sight;
use tiny_llm::optim::AdamW;
use tiny_llm::optim::Optimizer;
use tiny_llm::params::Module;
use tiny_llm::params::Param;
use tiny_llm::quant_steps::calib_account;
use tiny_llm::quant_steps::quantise_and_report;
use tiny_llm::report::QuantMethod;
use tiny_llm::report::QuantOpts;
use tiny_llm::resident::STACK_PARAMS_PER_LAYER;
use tiny_llm::sparse::Ratio;

struct Rng {
    state: u64,
}

impl Rng {
    fn new(seed: u64) -> Rng {
        Rng { state: seed.wrapping_mul(0x9e37_79b9_7f4a_7c15).wrapping_add(0x1234_5678_9abc_def1) }
    }

    fn next_f32(&mut self) -> f32 {
        self.state = self.state.wrapping_add(0x9e37_79b9_7f4a_7c15);
        let mut z = self.state;
        z = (z ^ (z >> 30)).wrapping_mul(0xbf58_476d_1ce4_e5b9);
        z = (z ^ (z >> 27)).wrapping_mul(0x94d0_49bb_1331_11eb);
        z ^= z >> 31;
        (z >> 40) as f32 / (1u64 << 24) as f32
    }

    fn randn(&mut self) -> f32 {
        let u = self.next_f32().max(1e-7);
        let v = self.next_f32();
        (-2.0 * u.ln()).sqrt() * (2.0 * std::f32::consts::PI * v).cos()
    }

    fn tape(&mut self, n: usize) -> Vec<u32> {
        (0..n).map(|_| self.randn().to_bits()).collect()
    }
}

fn floats(v: &[u32]) -> Vec<f32> {
    v.iter().map(|x| f32::from_bits(*x)).collect()
}

fn bits(v: &[f32]) -> Vec<u32> {
    v.iter().map(|x| x.to_bits()).collect()
}

fn exp(v: u32) -> u32 {
    f32::from_bits(v).exp().to_bits()
}

fn ln(v: u32) -> u32 {
    f32::from_bits(v).ln().to_bits()
}

fn gelu(v: u32) -> u32 {
    let x = f32::from_bits(v);
    (0.5 * x * (1.0 + (0.797_884_6 * (x + 0.044715 * x * x * x)).tanh())).to_bits()
}

fn swiglu(g: u32, u: u32) -> u32 {
    let g = f32::from_bits(g);
    (g / (1.0 + (-g).exp()) * f32::from_bits(u)).to_bits()
}

fn ratio(r: &Ratio) -> f64 {
    r.num as f64 / r.den as f64
}

fn model_of(cfg: GPTConfig, rng: &mut Rng) -> GPT {
    let d = cfg.n_embd;
    let kv = if cfg.n_kv_head == 0 { cfg.n_head } else { cfg.n_kv_head };
    let w = kv * (d / cfg.n_head);
    let h = (8 * d / 3 + 255) / 256 * 256;
    let each = if cfg.use_swiglu { 3 * d * h } else { 8 * d * d };
    let ffn = if cfg.n_expert > 1 { cfg.n_expert * each + d * cfg.n_expert } else { each };
    let tape = rng.tape(cfg.n_layer * (ffn + 2 * d * d + 2 * d * w) + cfg.vocab_size * d);
    GPT::new(cfg, &tape)
}

fn qkv_lora(rank: usize, alpha: f32) -> LoRAConfig {
    LoRAConfig {
        rank,
        alpha: alpha.to_bits(),
        targets: LoRATargets { q: true, k: true, v: true, o: false, mlp: false },
    }
}

fn attach(model: &mut GPT, lora: &LoRAConfig, rng: &mut Rng) {
    let d = model.cfg.n_embd;
    let t = lora.targets;
    let each = t.q as usize + t.k as usize + t.v as usize + t.o as usize;
    let mlp = if t.mlp { d + 4 * d } else { 0 };
    let n = model.cfg.n_layer * lora.rank * (each * d + mlp);
    model.apply_lora(lora, &rng.tape(n));
}

fn copy_linear(l: &Linear) -> Linear {
    Linear {
        weight: l.weight.copy(),
        bias: l.bias.copy(),
        lora: match &l.lora {
            Some(a) => {
                Some(LoraAdapter { a: a.a.copy(), b: a.b.copy(), rank: a.rank, alpha: a.alpha })
            }
            None => None,
        },
        quant: l.quant.clone(),
    }
}

fn copy_attention(a: &MultiHeadAttention) -> MultiHeadAttention {
    MultiHeadAttention {
        c_q: copy_linear(&a.c_q),
        c_k: copy_linear(&a.c_k),
        c_v: copy_linear(&a.c_v),
        c_proj: copy_linear(&a.c_proj),
        n_head: a.n_head,
        n_kv_head: a.n_kv_head,
        rope: a.rope,
    }
}

fn rotate(v: &mut [f32], hd: usize, pos: usize, base: f32) {
    for h in v.chunks_mut(hd) {
        for i in 0..hd / 2 {
            let angle = pos as f32 / base.powf(2.0 * i as f32 / hd as f32);
            let (s, c) = (angle.sin(), angle.cos());
            let (a, b) = (h[2 * i], h[2 * i + 1]);
            h[2 * i] = a * c - b * s;
            h[2 * i + 1] = a * s + b * c;
        }
    }
}

/// The rotated keys and the values of the positions that are kept.
struct Kept {
    k: Vec<f32>,
    v: Vec<f32>,
}

/// Attention of new tokens over those that are kept and themselves; also returns what the output
/// projection received.
fn attention(
    a: &MultiHeadAttention,
    x: &[u32],
    d: usize,
    sight: &Sight,
    kept: &mut Kept,
) -> (Vec<u32>, Vec<u32>) {
    let n = x.len() / d;
    let hd = d / a.n_head;
    let w = a.n_kv_head * hd;
    let mut q = floats(&a.c_q.forward(x, n));
    let mut k = floats(&a.c_k.forward(x, n));
    let base = f32::from_bits(a.rope.base);
    for p in 0..n {
        rotate(&mut q[p * d..(p + 1) * d], hd, sight.base + p, base);
        rotate(&mut k[p * w..(p + 1) * w], hd, sight.base + p, base);
    }
    kept.k.extend(k);
    kept.v.extend(floats(&a.c_v.forward(x, n)));
    let total = sight.t_total;
    let gone = kept.k.len() - total * w;
    kept.k.drain(..gone);
    kept.v.drain(..gone);
    let mask = floats(&sight.mask);
    let rep = a.n_head / a.n_kv_head;
    let mut mixed = vec![0.0f32; n * d];
    for h in 0..a.n_head {
        let kh = h / rep;
        for p in 0..n {
            let scores: Vec<f32> = (0..total)
                .map(|j| {
                    let dot: f32 = (0..hd)
                        .map(|t| q[p * d + h * hd + t] * kept.k[j * w + kh * hd + t])
                        .sum();
                    dot / (hd as f32).sqrt() + mask[p * total + j]
                })
                .collect();
            let m = scores.iter().cloned().fold(f32::NEG_INFINITY, f32::max);
            let sum: f32 = scores.iter().map(|s| (s - m).exp()).sum();
            for (j, s) in scores.iter().enumerate() {
                let weight = (s - m).exp() / sum;
                for t in 0..hd {
                    mixed[p * d + h * hd + t] += weight * kept.v[j * w + kh * hd + t];
                }
            }
        }
    }
    let received = bits(&mixed);
    (a.c_proj.forward(&received, n), received)
}

fn empty_caches(model: &GPT) -> Vec<RefCell<Kept>> {
    model.blocks.iter().map(|_| RefCell::new(Kept { k: Vec::new(), v: Vec::new() })).collect()
}

/// The logits of tokens that follow what the caches hold.
fn logits_after(
    model: &mut GPT,
    idx: &[usize],
    state: Option<CacheState>,
    caches: &[RefCell<Kept>],
) -> Vec<f32> {
    let parts: Vec<MultiHeadAttention> =
        model.blocks.iter().map(|b| copy_attention(&b.attn)).collect();
    let d = model.cfg.n_embd;
    let attn = |layer: usize, x: Vec<u32>, sight: &Sight| -> Vec<u32> {
        attention(&parts[layer], &x, d, sight, &mut caches[layer].borrow_mut()).0
    };
    let keep = |x: Vec<u32>, _rate: u32, _training: bool| -> Vec<u32> { x };
    let n = idx.len();
    floats(&model.forward(idx, 1, n, state, false, &attn, &keep, &exp, &ln, &gelu, &swiglu))
}

fn logits_of(model: &mut GPT, idx: &[usize]) -> Vec<f32> {
    let caches = empty_caches(model);
    logits_after(model, idx, None, &caches)
}

/// Attention up to its output projection.
fn mixed(model: &GPT, layer: usize, x: &[u32], sight: &Sight) -> Vec<u32> {
    let mut kept = Kept { k: Vec::new(), v: Vec::new() };
    attention(&model.blocks[layer].attn, x, model.cfg.n_embd, sight, &mut kept).1
}

/// What every layer receives, worked out by hand.
fn received(model: &GPT, idx: &[usize]) -> Vec<Captured> {
    let d = model.cfg.n_embd;
    let n = idx.len();
    let mut x = model.embed(idx, 1, n);
    let mut seen = Vec::new();
    let add = |a: &[u32], b: &[u32]| -> Vec<u32> {
        a.iter().zip(b).map(|(p, q)| (f32::from_bits(*p) + f32::from_bits(*q)).to_bits()).collect()
    };
    for b in &model.blocks {
        let h = b.ln1.forward(&x, n, d);
        let mut kept = Kept { k: Vec::new(), v: Vec::new() };
        let (y, received) = attention(&b.attn, &h, d, &sight(None, n), &mut kept);
        for _ in 0..3 {
            seen.push(Captured { data: h.clone(), shape: vec![n, d] });
        }
        seen.push(Captured { data: received, shape: vec![n, d] });
        x = add(&x, &y);
        let h = b.ln2.forward(&x, n, d);
        match &b.ffn {
            Ffn::Dense(MLPEnum::GELU { linear1, linear2 }) => {
                let hidden: Vec<u32> =
                    linear1.forward(&h, n).iter().map(|v| gelu(*v)).collect();
                seen.push(Captured { data: h, shape: vec![n, d] });
                x = add(&x, &linear2.forward(&hidden, n));
                seen.push(Captured { data: hidden, shape: vec![n, 4 * d] });
            }
            _ => unreachable!(),
        }
    }
    seen
}

fn for_adapters(model: &mut GPT, set: &dyn Fn(usize, usize) -> f32) {
    let mut i = 0;
    for b in model.blocks.iter_mut() {
        for l in [&mut b.attn.c_q, &mut b.attn.c_k, &mut b.attn.c_v] {
            let a = l.lora.as_mut().unwrap();
            for p in [&mut a.a, &mut a.b] {
                let n = p.data.len();
                p.data = (0..n).map(|j| set(i, j).to_bits()).collect();
                i += 1;
            }
        }
    }
}

#[test]
fn test_kv_cache_matches_full_forward() {
    let mut rng = Rng::new(42);
    let mut model = model_of(GPTConfig::tiny(32), &mut rng);
    let v = model.cfg.vocab_size;
    let seq = vec![1, 5, 7, 3, 9, 2, 8, 4, 6, 0];

    let caches = empty_caches(&model);
    let window = model.new_kv_cache()[0].window;
    let _ = logits_after(&mut model, &seq, Some(CacheState { seen: 0, window }), &caches);
    let new_id = 3;
    let state = CacheState { seen: seq.len(), window };
    let one = logits_after(&mut model, &[new_id], Some(state), &caches);
    let last_one = one[one.len() - v..].to_vec();

    let mut seq2 = seq;
    seq2.push(new_id);
    let full = logits_of(&mut model, &seq2);
    let last_full = full[full.len() - v..].to_vec();

    assert!(
        last_one.iter().zip(&last_full).all(|(a, b)| (a - b).abs() < 1e-4),
        "the cached pass and the full one differ"
    );
}

#[test]
fn test_kv_cache_sliding_window_matches_full_window_forward() {
    let mut rng = Rng::new(42);
    let mut cfg = GPTConfig::tiny(32);
    cfg.block_size = 8;
    cfg.n_layer = 1;
    let mut model = model_of(cfg, &mut rng);
    let w = model.cfg.block_size;
    let v = model.cfg.vocab_size;
    let seq: Vec<usize> = (0..w * 3).map(|i| (i * 7 + 1) % v).collect();

    let caches = empty_caches(&model);
    let window = model.new_kv_cache()[0].window;
    let mut state = CacheState { seen: 0, window };
    let _ = logits_after(&mut model, &seq[..w], Some(state), &caches);
    state.seen += w;
    let mut last_one = Vec::new();
    for &id in &seq[w..] {
        let out = logits_after(&mut model, &[id], Some(state), &caches);
        state.seen += 1;
        last_one = out[out.len() - v..].to_vec();
    }
    let width = model.cfg.n_embd / model.cfg.n_head * model.blocks[0].attn.n_kv_head;
    assert_eq!(caches[0].borrow().k.len() / width, w, "the window keeps so many rows");
    assert_eq!(state.seen, seq.len(), "positions count all tokens that were fed");

    let tail = &seq[seq.len() - w..];
    let full = logits_of(&mut model, tail);
    let last_full = full[full.len() - v..].to_vec();

    let max_diff =
        last_one.iter().zip(&last_full).map(|(a, b)| (a - b).abs()).fold(0.0f32, f32::max);
    assert!(max_diff < 1e-3, "{}", max_diff);
}

#[test]
fn test_set_rope_extends_window_without_touching_weights() {
    let mut rng = Rng::new(7);
    let mut model = model_of(GPTConfig::tiny(32), &mut rng);
    let before: Vec<Vec<u32>> = model.parameters().iter().map(|p| p.data.clone()).collect();
    let train_ctx = model.cfg.rope_train_ctx();
    let new_ctx = train_ctx * 4;

    let old =
        model.set_rope(ROPE_BASE, RopeScaling::Ntk { factor: 4.0f32.to_bits() }, train_ctx, new_ctx);
    assert_eq!(old, train_ctx);
    assert_eq!(model.cfg.block_size, new_ctx);
    assert_eq!(model.cfg.rope_train_ctx(), train_ctx);

    let spec = model.cfg.rope_spec();
    assert!(!spec.is_plain());
    for b in model.blocks.iter() {
        assert_eq!(b.attn.rope, spec);
    }
    let after: Vec<Vec<u32>> = model.parameters().iter().map(|p| p.data.clone()).collect();
    assert_eq!(before, after);

    let seq: Vec<usize> = (0..new_ctx).map(|i| i % 32).collect();
    let cache = model.new_kv_cache();
    assert_eq!(cache.len(), model.cfg.n_layer);
    assert!(cache.iter().all(|c| c.window == new_ctx));
    let kept = empty_caches(&model);
    let state = CacheState { seen: 0, window: cache[0].window };
    let logits = logits_after(&mut model, &seq, Some(state), &kept);
    let width = model.cfg.n_embd / model.cfg.n_head * model.blocks[0].attn.n_kv_head;
    for c in &kept {
        assert_eq!(c.borrow().k.len() / width, new_ctx, "the whole window is kept after the pass");
    }
    assert_eq!(logits.len(), new_ctx * 32);
    assert!(logits.iter().all(|v| v.is_finite()));
}

#[test]
fn test_apply_lora_freezes_backbone_and_trains_adapters_only() {
    let mut rng = Rng::new(7);
    let mut model = model_of(GPTConfig::tiny(32), &mut rng);
    let total: usize = model.parameters().iter().map(|p| p.numel()).sum();
    let lora = qkv_lora(4, 8.0);
    attach(&mut model, &lora, &mut rng);

    let names: Vec<String> = model
        .named_parameters()
        .into_iter()
        .filter(|(_, t)| t.requires_grad)
        .map(|(n, _)| n)
        .collect();
    assert_eq!(names.len(), 3 * 2 * model.cfg.n_layer);
    assert!(names.iter().all(|n| n.ends_with(".lora_a") || n.ends_with(".lora_b")));
    let d = model.cfg.n_embd;
    let trainable_count: usize = model.trainable_parameters().iter().map(|p| p.numel()).sum();
    assert_eq!(trainable_count, 3 * 2 * lora.rank * d * model.cfg.n_layer);
    assert!(trainable_count * 10 < total, "{} vs {}", trainable_count, total);
    for (name, t) in model.named_parameters() {
        if !(name.ends_with(".lora_a") || name.ends_with(".lora_b")) {
            assert!(!t.requires_grad, "{}", name);
        }
    }

    // One step: the slope along one entry of the first adapter, measured on the loss.
    let idx = vec![1usize, 2, 3, 4, 5, 6, 7, 8];
    let targets = vec![2usize, 3, 4, 5, 6, 7, 8, 9];
    let loss = |m: &mut GPT| -> f32 {
        let l = bits(&logits_of(m, &idx));
        f32::from_bits(cross_entropy_loss(&l, idx.len(), 32, &targets, &exp, &ln))
    };
    let value = loss(&mut model);
    assert!(value.is_finite(), "{}", value);
    let step = 0.05f32;
    model.blocks[0].attn.c_v.lora.as_mut().unwrap().b.data[0] = step.to_bits();
    let up = loss(&mut model);
    model.blocks[0].attn.c_v.lora.as_mut().unwrap().b.data[0] = (-step).to_bits();
    let down = loss(&mut model);
    model.blocks[0].attn.c_v.lora.as_mut().unwrap().b.data[0] = 0;
    model.blocks[0].attn.c_v.lora.as_mut().unwrap().b.grad[0] = ((up - down) / (2.0 * step)).to_bits();

    let mut held: Vec<Param> = model.parameters().iter().map(|p| p.copy()).collect();
    for p in held.iter_mut() {
        if !p.requires_grad {
            let n = p.numel();
            p.grad = bits(&vec![1.0; n]);
        }
    }
    let before: Vec<Vec<u32>> = held.iter().map(|p| p.data.clone()).collect();
    let frozen: Vec<bool> = held.iter().map(|p| !p.requires_grad).collect();
    let mut opt = AdamW::new(1e-2f32.to_bits(), held, 0.1f32.to_bits());
    opt.step();
    let after = opt.into_params();
    let mut moved = false;
    for i in 0..after.len() {
        if frozen[i] {
            assert_eq!(after[i].data, before[i]);
        } else {
            moved = moved || after[i].data != before[i];
        }
    }
    assert!(moved);
}

#[test]
fn test_lora_targets_control_where_adapters_land() {
    let mut rng = Rng::new(3);
    let mut model = model_of(GPTConfig::tiny(32), &mut rng);
    let lora = LoRAConfig {
        rank: 2,
        alpha: 2.0f32.to_bits(),
        targets: LoRATargets { q: false, k: false, v: true, o: false, mlp: true },
    };
    attach(&mut model, &lora, &mut rng);
    assert!(model.has_lora());

    let lora_names: Vec<String> = model
        .named_parameters()
        .into_iter()
        .filter(|(n, _)| n.contains(".lora_"))
        .map(|(n, _)| n)
        .collect();
    assert!(lora_names.iter().all(|n| n.contains(".c_v.") || n.contains(".mlp")));
    let mlp_linears = if model.cfg.use_swiglu { 3 } else { 2 };
    assert_eq!(lora_names.len(), (1 + mlp_linears) * 2 * model.cfg.n_layer);
    assert!(!model.blocks[0].attn.c_q.weight.requires_grad);
    assert!(!model.blocks[0].attn.c_proj.weight.requires_grad);
}

#[test]
fn test_merge_lora_matches_two_branch_forward() {
    let mut rng = Rng::new(9);
    let mut model = model_of(GPTConfig::tiny(32), &mut rng);
    attach(&mut model, &qkv_lora(4, 8.0), &mut rng);
    for_adapters(&mut model, &|i, j| ((i * 7 + j) as f32 * 0.13).sin() * 0.5);

    let idx: Vec<usize> = (0..8).collect();
    let before = logits_of(&mut model, &idx);
    let w_before = model.blocks[0].attn.c_q.weight.data.clone();

    model.merge_lora();

    assert!(!model.has_lora());
    assert!(model.lora.is_none());
    assert!(model.lora_parameters().is_empty());
    assert!(w_before != model.blocks[0].attn.c_q.weight.data);

    let after = logits_of(&mut model, &idx);
    let diff = before.iter().zip(&after).map(|(a, b)| (a - b).abs()).fold(0.0f32, f32::max);
    assert!(diff < 1e-4, "{}", diff);
}

#[test]
fn test_resume_lora_keeps_adapter_values_and_unfreezes() {
    let mut rng = Rng::new(21);
    let lora = qkv_lora(4, 8.0);
    let mut model = model_of(GPTConfig::tiny(32), &mut rng);
    attach(&mut model, &lora, &mut rng);
    for_adapters(&mut model, &|i, j| ((i * 5 + j) as f32 * 0.11).cos() * 0.3);
    let saved: Vec<Vec<u32>> = model.lora_parameters().iter().map(|p| p.data.clone()).collect();

    // A second model of the same form takes over the values.
    let mut rng2 = Rng::new(999);
    let mut restored = model_of(model.cfg, &mut rng2);
    attach(&mut restored, &lora, &mut rng2);
    for_adapters(&mut restored, &|i, j| ((i * 5 + j) as f32 * 0.11).cos() * 0.3);
    let taken: Vec<Vec<u32>> = restored.lora_parameters().iter().map(|p| p.data.clone()).collect();
    assert_eq!(saved, taken);

    restored.resume_lora();

    let after: Vec<Vec<u32>> = restored.lora_parameters().iter().map(|p| p.data.clone()).collect();
    assert_eq!(saved, after);
    assert!(restored.lora_parameters().iter().all(|p| p.requires_grad));
    assert_eq!(restored.trainable_parameters().len(), restored.lora_parameters().len());
    for (name, t) in restored.named_parameters() {
        if !name.contains(".lora_") {
            assert!(!t.requires_grad, "{}", name);
        }
    }
}

fn alphabet(n: usize) -> Vec<usize> {
    (0..n).map(|i| i % 10).collect()
}

#[test]
fn quantize_weights_reduces_bytes_and_keeps_loss_close() {
    let ids = alphabet(160);
    let mut rng = Rng::new(2024);
    let mut model = model_of(GPTConfig::tiny(64), &mut rng);
    let seq = ids.len().min(model.cfg.block_size);
    let loss_of = |m: &mut GPT| -> f32 {
        let l = bits(&logits_of(m, &ids[..seq]));
        f32::from_bits(cross_entropy_loss(&l, seq, 64, &ids[1..seq + 1], &exp, &ln))
    };
    let before = loss_of(&mut model);
    assert!(before.is_finite(), "{}", before);

    let mix = |layer: usize, x: Vec<u32>, s: &Sight| -> Vec<u32> { mixed(&model, layer, &x, s) };
    let texts = vec![ids.clone()];
    let stats = model.calibrate(&texts, CalibOpts::default(), &mix, &exp, &gelu, &swiglu);
    assert!(!stats.per_layer.is_empty());
    for (name, c) in &stats.per_layer {
        assert_eq!(c.n_tokens, ids.len(), "{}", name);
        let h = c.hessian.as_ref().expect("every layer has its moments");
        let a = floats(c.act_abs_mean.as_ref().expect("and its mean magnitudes"));
        assert!(a.iter().all(|v| v.is_finite() && *v >= 0.0), "{}", name);
        assert!(a.iter().any(|v| *v > 0.0), "{}", name);
        assert_eq!(h.dim(), a.len(), "{}", name);
        let d = floats(&h.diagonal());
        assert!(d.iter().all(|v| v.is_finite()), "{}", name);
        assert!(d.iter().any(|v| *v > 0.0), "{}", name);
    }
    assert!(stats.per_layer.iter().all(|(_, c)| c.hessian.as_ref().unwrap().is_full()));

    let diag_stats = model.calibrate(
        &texts,
        CalibOpts { full_hessian_max_dim: 0, ..CalibOpts::default() },
        &mix,
        &exp,
        &gelu,
        &swiglu,
    );
    assert!(diag_stats.per_layer.iter().all(|(_, c)| !c.hessian.as_ref().unwrap().is_full()));
    for ((name, full), (_, diag)) in stats.per_layer.iter().zip(diag_stats.per_layer.iter()) {
        let (f, d) = (full.hessian.as_ref().unwrap(), diag.hessian.as_ref().unwrap());
        assert_eq!(f.dim(), d.dim(), "{}", name);
        assert_eq!(f.diagonal(), d.diagonal(), "{}", name);
        assert!(d.byte_len() < f.byte_len(), "{}", name);
    }

    let reports = model.quantize_weights(
        QBits::Int8,
        QuantMethod::Gptq,
        Some(&stats),
        &QuantOpts::default(),
        &ln,
        &exp,
    );
    assert_eq!(reports.len(), stats.per_layer.len());
    assert!(model.has_quant() && model.is_quantized());
    assert!(model.refuses_gradients(true) && !model.refuses_gradients(false));
    let summary = model.quant_summary(reports);
    assert_eq!(summary.skipped, 0);
    assert!(summary.quant_bytes < summary.f32_bytes);
    assert_eq!(summary.f32_bytes, model.f32_bytes());
    assert_eq!(summary.quant_bytes, model.quant_bytes());
    assert!(ratio(&summary.ratio()) > 2.0);
    assert!(match summary.worst_layer() {
        Some(w) => f32::from_bits(w.rel_err).is_finite(),
        None => false,
    });
    let after = loss_of(&mut model);
    assert!((after - before).abs() < 0.5, "{} vs {}", before, after);

    let meta = model.quant_meta().expect("the model remembers how it was quantised");
    assert_eq!(meta.bits, QBits::Int8);
    assert_eq!(meta.method, QuantMethod::Gptq);
    assert_eq!((meta.orig_bytes, meta.quant_bytes), (summary.f32_bytes, summary.quant_bytes));

    model.dequantize_weights();
    assert!(!model.has_quant() && !model.refuses_gradients(true));
    assert!(model.quant_meta().is_some());
    let baked = loss_of(&mut model);
    assert!((baked - after).abs() < 1e-5, "{} vs {}", after, baked);
}

#[test]
fn diagonal_calibration_makes_gptq_degenerate_to_rtn() {
    let ids = alphabet(160);
    let mut model = model_of(GPTConfig::tiny(64), &mut Rng::new(7));
    let diag = CalibOpts { full_hessian_max_dim: 0, ..CalibOpts::default() };
    let mix = |layer: usize, x: Vec<u32>, s: &Sight| -> Vec<u32> { mixed(&model, layer, &x, s) };
    let stats = model.calibrate(&vec![ids], diag, &mix, &exp, &gelu, &swiglu);
    assert!(stats.per_layer.iter().all(|(_, c)| !c.hessian.as_ref().unwrap().is_full()));

    let reports = model.quantize_weights(
        QBits::Int8,
        QuantMethod::Gptq,
        Some(&stats),
        &QuantOpts::default(),
        &ln,
        &exp,
    );
    assert!(!reports.is_empty());
    assert!(reports.iter().all(|r| f32::from_bits(r.rel_err).is_finite()));
    let mut rtn_model = model_of(GPTConfig::tiny(64), &mut Rng::new(7));
    let rtn =
        rtn_model.quantize_weights(QBits::Int8, QuantMethod::Rtn, None, &QuantOpts::default(), &ln, &exp);
    let codes = |m: &GPT| -> Vec<Vec<u8>> {
        m.named_linears().iter().map(|(_, l)| l.quant.as_ref().unwrap().q.bytes().to_vec()).collect()
    };
    let gptq_codes = codes(&model);
    let rtn_codes = codes(&rtn_model);
    assert_eq!(gptq_codes.len(), rtn_codes.len());
    assert_eq!(gptq_codes, rtn_codes);
    assert_eq!(rtn.len(), gptq_codes.len());
}

#[test]
fn a_second_run_finds_nothing_to_quantise() {
    let mut model = model_of(GPTConfig::tiny(16), &mut Rng::new(3));
    let opts = QuantOpts::default();
    assert!(!model.quantize_weights(QBits::Int4, QuantMethod::Rtn, None, &opts, &ln, &exp).is_empty());
    let bytes = |m: &GPT| -> Vec<Vec<u8>> {
        m.named_linears().iter().map(|(_, l)| l.quant.as_ref().unwrap().q.bytes().to_vec()).collect()
    };
    let first = bytes(&model);
    assert!(model.quantize_weights(QBits::Int8, QuantMethod::Rtn, None, &opts, &ln, &exp).is_empty());
    assert_eq!(bytes(&model), first);
}

#[test]
fn tokens_depend_on_the_past_only() {
    let mut rng = Rng::new(12);
    let mut model = model_of(GPTConfig::tiny(32), &mut rng);
    let long = logits_of(&mut model, &[1, 5, 7, 3, 9, 2]);
    let short = logits_of(&mut model, &[1, 5, 7, 3]);
    for i in 0..4 * 32 {
        assert!((long[i] - short[i]).abs() < 1e-5);
    }
}

#[test]
fn masks_show_a_window_of_the_past() {
    // The third and the fourth token with a window of three.
    let g = window_geometry(2, 3, 2).unwrap();
    assert_eq!((g.base, g.t_total, g.visible_before), (2, 3, 1));
    let m = floats(&build_mask(2, &g));
    assert_eq!(m, vec![0.0, 0.0, f32::NEG_INFINITY, 0.0, 0.0, 0.0]);
    // Without a window everything before stays in sight.
    let g = window_geometry(2, 0, 2).unwrap();
    assert_eq!((g.base, g.t_total, g.visible_before), (2, 4, 2));
    // More tokens than the window holds cannot be taken at once.
    assert!(window_geometry(0, 3, 4).is_none());
}

#[test]
fn the_vocabulary_grows_and_keeps_its_rows() {
    let mut rng = Rng::new(4);
    let mut model = model_of(GPTConfig::tiny(8), &mut rng);
    let before = model.tok_emb.table.data.clone();
    let d = model.cfg.n_embd;
    let draws = rng.tape(2 * d);
    model.resize_vocab(10, &draws);
    assert_eq!(model.cfg.vocab_size, 10);
    assert_eq!(model.tok_emb.table.shape, vec![10, d]);
    assert_eq!(model.tok_emb.table.data[..8 * d], before[..]);
    let std = 0.02f32;
    for i in 0..2 * d {
        assert_eq!(
            f32::from_bits(model.tok_emb.table.data[8 * d + i]),
            f32::from_bits(draws[i]) * std
        );
    }
}

#[test]
fn names_are_distinct_and_complete() {
    let mut rng = Rng::new(6);
    let cfg = GPTConfig { n_expert: 3, moe_top_k: 2, n_embd: 16, ..GPTConfig::tiny(8) };
    let model = model_of(cfg, &mut rng);
    let mut names: Vec<String> = model.named_parameters().into_iter().map(|(n, _)| n).collect();
    assert_eq!(names.len(), model.parameters().len());
    assert_eq!(names[0], "tok_emb.table");
    let count = names.len();
    names.sort();
    names.dedup();
    assert_eq!(names.len(), count);
}

#[test]
fn experts_route_inside_the_model() {
    let mut rng = Rng::new(8);
    let cfg = GPTConfig {
        n_expert: 4,
        moe_top_k: 2,
        n_embd: 16,
        moe_aux_coef: 0.5f32.to_bits(),
        ..GPTConfig::tiny(8)
    };
    let mut model = model_of(cfg, &mut rng);
    assert!(model.aux_loss().is_none());
    let _ = logits_of(&mut model, &[1, 2, 3, 4, 5]);
    let st = model.route_stats().expect("a model of experts has statistics");
    assert_eq!(st.n_tokens, 5 * model.cfg.n_layer);
    assert_eq!(st.counts.iter().sum::<usize>(), 2 * 5 * model.cfg.n_layer);
    let aux = f32::from_bits(model.aux_loss().expect("and a loss"));
    assert!(aux > 0.0 && aux.is_finite());
    assert!(model.set_moe_capacity_factor(1.0f32.to_bits()));
    // A setting leaves the record of the last pass alone, and the next pass replaces it.
    assert_eq!(model.route_stats().expect("still there").counts, st.counts);
    let _ = logits_of(&mut model, &[1, 1, 1, 1, 1, 1]);
    let full = model.route_stats().expect("and renewed");
    assert_eq!(full.n_tokens, 6 * model.cfg.n_layer);
    assert!(full.dropped > 0);
    assert_eq!(full.counts.iter().sum::<usize>() + full.dropped, 2 * 6 * model.cfg.n_layer);
    let share = full.dropped_ratio(2);
    assert!(0 < share.num && share.num <= share.den);
    let mut dense = model_of(GPTConfig { n_embd: 16, ..GPTConfig::tiny(8) }, &mut rng);
    assert!(!dense.set_moe_capacity_factor(1.0f32.to_bits()));
    assert!(dense.route_stats().is_none());
}

#[test]
fn heads_are_repeated_and_summed_back() {
    // Two heads of two numbers each, every one serving two query heads.
    let w = bits(&[1.0, 2.0, 3.0, 4.0]);
    let wide = expand_kv_head(&w, 1, 2, 2, 2);
    assert_eq!(floats(&wide), vec![1.0, 2.0, 1.0, 2.0, 3.0, 4.0, 3.0, 4.0]);
    let g = fold_kv_head_grad(&wide, 1, 2, 2, 2);
    assert_eq!(floats(&g), vec![2.0, 4.0, 6.0, 8.0]);
    assert_eq!(expand_kv_head(&w, 1, 2, 2, 1), w);
}

#[test]
fn resident_blocks_list_their_slots() {
    let mut rng = Rng::new(10);
    let mut model = model_of(GPTConfig { n_embd: 16, ..GPTConfig::tiny(8) }, &mut rng);
    let args = model.blocks_resident(true, 2, 3).expect("a plain model can stay on the device");
    assert_eq!((args.b, args.t, args.d, args.n_head), (2, 3, 16, model.cfg.n_head));
    assert_eq!(args.is_rms, model.blocks[0].ln1.norm_params().3);
    let slots = args.slots;
    assert_eq!(slots.len(), STACK_PARAMS_PER_LAYER * model.cfg.n_layer);
    let grads: Vec<Vec<Vec<u32>>> = (0..model.cfg.n_layer)
        .map(|l| {
            slots[l * STACK_PARAMS_PER_LAYER..(l + 1) * STACK_PARAMS_PER_LAYER]
                .iter()
                .map(|s| bits(&vec![1.0; s.len()]))
                .collect()
        })
        .collect();
    let before: Vec<Vec<u32>> = model.parameters().iter().map(|p| p.data.clone()).collect();
    model.accept_stack_grads(&grads);
    assert_eq!(floats(&model.blocks[0].attn.c_q.weight.grad), vec![1.0; 16 * 16]);
    let after: Vec<Vec<u32>> = model.parameters().iter().map(|p| p.data.clone()).collect();
    assert_eq!(before, after);
    // Adapters keep a model off the device.
    attach(&mut model, &qkv_lora(2, 2.0), &mut rng);
    assert!(model.blocks_resident(true, 2, 3).is_none());
    assert!(model.blocks[0].attn_resident(true, &[2, 3, 16]).is_none());
}

#[test]
fn single_layers_are_handed_to_the_kernel() {
    let mut rng = Rng::new(12);
    let cfg = GPTConfig { n_embd: 16, n_head: 4, n_kv_head: 2, ..GPTConfig::tiny(8) };
    let mut model = model_of(cfg, &mut rng);
    let block = &mut model.blocks[0];
    let attn = block.attn_resident(true, &[2, 3, 16]).expect("plain attention fuses");
    assert_eq!((attn.b, attn.t, attn.d, attn.n_head), (2, 3, 16, 4));
    let sizes: Vec<usize> = attn.slots.iter().map(|s| s.len()).collect();
    assert_eq!(sizes, vec![16, 16, 256, 16, 256, 16, 256, 16, 256, 16]);
    // Two query heads share the columns of one key head.
    assert_eq!(attn.slots[5][0..4], attn.slots[5][4..8]);
    assert_eq!(attn.slots[4][0..4], block.attn.c_k.weight.data[0..4]);
    assert_eq!(attn.slots[4][4..8], block.attn.c_k.weight.data[0..4]);
    let ones: Vec<Vec<u32>> = sizes.iter().map(|n| bits(&vec![1.0; *n])).collect();
    block.accept_attention(&ones, 16);
    assert_eq!(floats(&block.attn.c_q.bias.grad), vec![1.0; 16]);
    assert_eq!(floats(&block.attn.c_k.bias.grad), vec![2.0; 8]);
    assert!(block.attn_resident(false, &[2, 3, 16]).is_none());
    assert!(block.attn_resident(true, &[6, 16]).is_none());
    let before = block.ln2.norm_params().0.grad.clone();
    assert_eq!(before, vec![0; 16]);
    let mlp = block.mlp_resident(true, &[2, 3, 16]).expect("a plain block fuses");
    assert_eq!((mlp.rows, mlp.d, mlp.hidden), (6, 16, 64));
    let ones: Vec<Vec<u32>> = mlp.slots.iter().map(|s| bits(&vec![0.5; s.len()])).collect();
    block.accept_ffn(&ones, 16);
    assert_eq!(floats(&block.ln2.norm_params().0.grad), vec![0.5; 16]);
    assert!(block.mlp_resident(true, &[6, 16]).is_none());
}

#[test]
fn stretched_frequencies_keep_a_stack_off_the_device() {
    let mut rng = Rng::new(13);
    let mut model = model_of(GPTConfig { n_embd: 16, ..GPTConfig::tiny(8) }, &mut rng);
    assert!(model.blocks_resident(true, 1, 4).is_some());
    assert!(model.blocks_resident(false, 1, 4).is_none());
    model.blocks[1].attn.rope.scaling = RopeScaling::Linear { factor: 2.0f32.to_bits() };
    assert!(model.blocks_resident(true, 1, 4).is_none());
}

#[test]
fn the_table_is_the_output_head() {
    let mut rng = Rng::new(14);
    let model = model_of(GPTConfig::tiny(8), &mut rng);
    assert_eq!(model.head_weight().shape, vec![8, model.cfg.n_embd]);
    assert_eq!(model.head_weight().data, model.tok_emb.table.data);
}

#[test]
fn streams_stop_at_the_budget() {
    let texts = vec![vec![1, 2, 3], vec![4, 5], vec![6]];
    assert_eq!(token_stream(&texts, 4), vec![1, 2, 3, 4]);
    assert_eq!(token_stream(&texts, 100), vec![1, 2, 3, 4, 5, 6]);
    assert!(token_stream(&texts, 0).is_empty());
}

#[test]
fn recorded_passes_hold_what_the_layers_received() {
    let small = GPTConfig { n_embd: 8, n_head: 2, ..GPTConfig::tiny(64) };
    let idx = [3, 1, 4, 1, 5];
    let same = |a: &Captured, b: &Captured| a.data == b.data && a.shape == b.shape;

    let model = model_of(small, &mut Rng::new(31));
    let mix = |layer: usize, x: Vec<u32>, s: &Sight| -> Vec<u32> { mixed(&model, layer, &x, s) };
    let seen = model.traced(&idx, &mix, &exp, &gelu, &swiglu);
    let by_hand = received(&model, &idx);
    assert_eq!(seen.len(), model.named_linears().len());
    assert_eq!(seen.len(), by_hand.len());
    assert!(seen.iter().zip(&by_hand).all(|(a, b)| same(a, b)));
    for (c, (name, l)) in seen.iter().zip(model.named_linears()) {
        assert_eq!(c.shape, vec![5, l.dims().0], "{}", name);
    }
    // What the second block normalises is what the first one makes of the embeddings.
    let mut forward = model_of(small, &mut Rng::new(31));
    let part = copy_attention(&forward.blocks[0].attn);
    let d = small.n_embd;
    let attn = |_layer: usize, x: Vec<u32>, s: &Sight| -> Vec<u32> {
        attention(&part, &x, d, s, &mut Kept { k: Vec::new(), v: Vec::new() }).0
    };
    let keep = |x: Vec<u32>, _rate: u32, _training: bool| -> Vec<u32> { x };
    let x = forward.embed(&idx, 1, 5);
    let y = forward.blocks[0].forward(
        &x, 5, d, 0, false, &attn, &sight(None, 5), &keep, &exp, &ln, &gelu, &swiglu,
    );
    assert_eq!(model.blocks[1].ln1.forward(&y, 5, d), seen[6].data);

    let gated = model_of(GPTConfig { use_swiglu: true, ..small }, &mut Rng::new(32));
    let mix = |layer: usize, x: Vec<u32>, s: &Sight| -> Vec<u32> { mixed(&gated, layer, &x, s) };
    let seen = gated.traced(&idx, &mix, &exp, &gelu, &swiglu);
    assert_eq!(seen.len(), 7 * gated.cfg.n_layer);
    assert_eq!(seen[4].data, seen[5].data);
    assert_eq!(seen[6].shape, vec![5, 256]);

    // Layers of experts report their attention only.
    let sparse = model_of(
        GPTConfig { n_expert: 2, moe_top_k: 1, ..small },
        &mut Rng::new(33),
    );
    let mix = |layer: usize, x: Vec<u32>, s: &Sight| -> Vec<u32> { mixed(&sparse, layer, &x, s) };
    let seen = sparse.traced(&idx, &mix, &exp, &gelu, &swiglu);
    assert_eq!(seen.len(), 4 * sparse.cfg.n_layer);
    let again = sparse.traced(&idx, &mix, &exp, &gelu, &swiglu);
    assert!(seen.iter().zip(&again).all(|(a, b)| same(a, b)));
    let stats =
        sparse.calibrate(&[idx.to_vec()], CalibOpts::default(), &mix, &exp, &gelu, &swiglu);
    assert_eq!(stats.per_layer.len(), 4 * sparse.cfg.n_layer);
}

#[test]
fn the_limit_decides_only_what_is_kept_of_the_moments() {
    let ids = alphabet(20);
    let small = GPTConfig { n_embd: 8, n_head: 2, ..GPTConfig::tiny(64) };
    let model = model_of(small, &mut Rng::new(31));
    let mix = |layer: usize, x: Vec<u32>, s: &Sight| -> Vec<u32> { mixed(&model, layer, &x, s) };
    let with = |limit: usize| {
        let opts = CalibOpts { full_hessian_max_dim: limit, ..CalibOpts::default() };
        model.calibrate(&[ids.clone()], opts, &mix, &exp, &gelu, &swiglu)
    };
    let (a, b) = (with(8), with(100));
    assert_eq!(a.per_layer.len(), b.per_layer.len());
    for ((name, x), (other, y)) in a.per_layer.iter().zip(&b.per_layer) {
        let (h, g) = (x.hessian.as_ref().unwrap(), y.hessian.as_ref().unwrap());
        let width = x.act_abs_mean.as_ref().unwrap().len();
        assert_eq!(name, other);
        assert_eq!((h.diagonal(), &x.act_abs_mean), (g.diagonal(), &y.act_abs_mean));
        assert_eq!((x.n_tokens, y.n_tokens), (ids.len(), ids.len()));
        assert_eq!((h.dim(), g.dim()), (width, width));
        assert_eq!((h.is_full(), g.is_full()), (width <= 8, true));
    }
}

#[test]
fn quantising_reports_what_it_did() {
    let ids = alphabet(20);
    let mut rng = Rng::new(31);
    let mut model = model_of(GPTConfig { n_embd: 8, n_head: 2, ..GPTConfig::tiny(64) }, &mut rng);
    let mix = |layer: usize, x: Vec<u32>, s: &Sight| -> Vec<u32> { mixed(&model, layer, &x, s) };
    let full = model.calibrate(&[ids.clone()], CalibOpts::default(), &mix, &exp, &gelu, &swiglu);
    let account = calib_account(&full);
    assert_eq!((account.tokens, account.layers), (20, full.per_layer.len()));
    assert_eq!(account.full, account.layers);
    let bytes: usize =
        full.per_layer.iter().map(|(_, c)| c.hessian.as_ref().unwrap().byte_len()).sum();
    assert_eq!(account.bytes, bytes);
    let opts = CalibOpts { full_hessian_max_dim: 0, ..CalibOpts::default() };
    let diagonal = calib_account(&model.calibrate(&[ids], opts, &mix, &exp, &gelu, &swiglu));
    assert_eq!(diagonal.full, 0);
    assert!(diagonal.bytes < account.bytes);

    let summary = quantise_and_report(
        &mut model,
        QBits::Int4,
        QuantMethod::Rtn,
        None,
        &QuantOpts::default(),
        &ln,
        &exp,
    );
    assert!(model.is_quantized());
    assert_eq!((summary.layers.len(), summary.skipped), (full.per_layer.len(), 0));
    assert_eq!((summary.bits, summary.method), (QBits::Int4, QuantMethod::Rtn));
    assert_eq!(model.quant_meta().unwrap().quant_bytes, summary.quant_bytes);

    // A layer with an adapter is left alone, and counted as such.
    let mut tuned = model_of(GPTConfig { n_embd: 8, n_head: 2, ..GPTConfig::tiny(64) }, &mut rng);
    let lora = LoRAConfig {
        targets: LoRATargets { q: true, k: true, v: true, o: true, mlp: true },
        ..qkv_lora(2, 2.0)
    };
    attach(&mut tuned, &lora, &mut rng);
    let none =
        quantise_and_report(&mut tuned, QBits::Int8, QuantMethod::Rtn, None, &QuantOpts::default(), &ln, &exp);
    assert!(none.layers.is_empty() && !tuned.is_quantized());
    assert_eq!(none.skipped, full.per_layer.len());
}

#[test]
fn layers_can_be_changed_by_name() {
    let mut rng = Rng::new(41);
    let mut model = model_of(GPTConfig { use_swiglu: true, ..GPTConfig::tiny(8) }, &mut rng);
    if let Ffn::Dense(m) = &mut model.blocks[0].ffn {
        let names: Vec<String> =
            m.named_linears("ffn").iter().map(|(name, _)| name.clone()).collect();
        for (i, (name, layer)) in m.named_linears_mut("ffn").into_iter().enumerate() {
            assert_eq!(name, names[i]);
            layer.bias.data[0] = (i as f32 + 1.0).to_bits();
        }
        for (i, (_, layer)) in m.named_linears("ffn").iter().enumerate() {
            assert_eq!(f32::from_bits(layer.bias.data[0]), i as f32 + 1.0);
        }
        assert_eq!(names, vec!["ffn.w_gate", "ffn.w_up", "ffn.w_down"]);
    } else {
        panic!("a dense model has dense layers");
    }
}

#[test]
fn hidden_rows_lead_to_the_logits() {
    let mut rng = Rng::new(51);
    let mut model = model_of(GPTConfig { dropout: 0.25f32.to_bits(), ..GPTConfig::tiny(16) }, &mut rng);
    let idx = [3usize, 1, 4, 1, 5];
    let parts: Vec<MultiHeadAttention> =
        model.blocks.iter().map(|b| copy_attention(&b.attn)).collect();
    let d = model.cfg.n_embd;
    let caches = empty_caches(&model);
    let attn = |layer: usize, x: Vec<u32>, sight: &Sight| -> Vec<u32> {
        let mut kept = caches[layer].borrow_mut();
        if sight.base == 0 {
            *kept = Kept { k: Vec::new(), v: Vec::new() };
        }
        attention(&parts[layer], &x, d, sight, &mut kept).0
    };
    let asked = RefCell::new(Vec::new());
    let keep = |x: Vec<u32>, rate: u32, training: bool| -> Vec<u32> {
        asked.borrow_mut().push((f32::from_bits(rate), training));
        x
    };
    // The rate is that of the time the model was made.
    model.cfg.dropout = 0.5f32.to_bits();
    let hidden = model.forward_hidden(&idx, 1, 5, false, &attn, &keep, &exp, &ln, &gelu, &swiglu);
    // Once for the embeddings and twice in every block.
    assert_eq!(asked.borrow().len(), 1 + 2 * model.blocks.len());
    assert!(asked.borrow().iter().all(|a| *a == (0.25, false)));
    let logits =
        model.forward(&idx, 1, 5, None, false, &attn, &keep, &exp, &ln, &gelu, &swiglu);
    assert_eq!(model.output_head(&hidden, 5), logits);

    let start = Some(CacheState { seen: 0, window: 0 });
    let first = model
        .forward_hidden_cached(&idx[..3], 1, 3, start, false, &attn, &keep, &exp, &ln, &gelu, &swiglu);
    assert_eq!(first, hidden[..3 * d]);
    let later = Some(CacheState { seen: 3, window: 0 });
    let rest = model
        .forward_hidden_cached(&idx[3..], 1, 2, later, false, &attn, &keep, &exp, &ln, &gelu, &swiglu);
    for (a, b) in floats(&rest).iter().zip(floats(&hidden[3 * d..])) {
        assert!((a - b).abs() < 1e-4, "{} vs {}", a, b);
    }
}
