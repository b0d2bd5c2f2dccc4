use tiny_llm::awq::awq_alpha_grid;
use tiny_llm::awq::AWQ_ALPHA;
use tiny_llm::calib::HessianKind;
use tiny_llm::codes::QBits;
use tiny_llm::gptq::GPTQ_BLOCK;
use tiny_llm::gptq::GPTQ_DAMP;
use tiny_llm::gptq::GptqOpts;
use tiny_llm::layers::Linear;
use tiny_llm::layers::swiglu_hidden;
use tiny_llm::layers::LoraAdapter;
use tiny_llm::mlp::SwiGLUMLP;
use tiny_llm::optim::AdamW;
use tiny_llm::optim::Optimizer;
use tiny_llm::params::zero_grad_all;
use tiny_llm::params::Module;
use tiny_llm::params::Param;
use tiny_llm::report::LayerCalib;
use tiny_llm::report::QuantMethod;
use tiny_llm::report::QuantOpts;
use tiny_llm::sparse::Ratio;

struct Rng {
    state: u64,
}

impl Rng {
    fn new(seed: u64) -> Rng {
        Rng { state: seed.wrapping_mul(0x9e37_79b9_7f4a_7c15).wrapping_add(0x1234_5678_9abc_def1) }
    }

    fn next_f32(&mut self) -> f32 {
        self.state = self.state.wrapping_add(0x9e37_79b9_7f4a_7c15);
        let mut z = self.state;
        z = (z ^ (z >> 30)).wrapping_mul(0xbf58_476d_1ce4_e5b9);
        z = (z ^ (z >> 27)).wrapping_mul(0x94d0_49bb_1331_11eb);
        z ^= z >> 31;
        (z >> 40) as f32 / (1u64 << 24) as f32
    }

    fn randn(&mut self) -> f32 {
        let u = self.next_f32().max(1e-7);
        let v = self.next_f32();
        (-2.0 * u.ln()).sqrt() * (2.0 * std::f32::consts::PI * v).cos()
    }

    fn tape(&mut self, n: usize) -> Vec<u32> {
        (0..n).map(|_| self.randn().to_bits()).collect()
    }
}

fn bits(v: &[f32]) -> Vec<u32> {
    v.iter().map(|x| x.to_bits()).collect()
}

fn floats(v: &[u32]) -> Vec<f32> {
    v.iter().map(|x| f32::from_bits(*x)).collect()
}

fn exp(v: u32) -> u32 {
    f32::from_bits(v).exp().to_bits()
}

fn ln(v: u32) -> u32 {
    f32::from_bits(v).ln().to_bits()
}

fn ratio(r: &Ratio) -> f64 {
    r.num as f64 / r.den as f64
}

fn linear(i: usize, o: usize, rng: &mut Rng) -> Linear {
    Linear::new(i, o, &rng.tape(i * o))
}

fn hand_linear() -> Linear {
    Linear {
        weight: Param::param(bits(&[1.0, 2.0, 3.0, 4.0]), vec![2, 2]),
        bias: Param::param(bits(&[0.0, 0.0]), vec![2]),
        lora: None,
        quant: None,
    }
}

fn hand_lora() -> LoraAdapter {
    LoraAdapter {
        a: Param::param(bits(&[1.0, 1.0]), vec![1, 2]),
        b: Param::param(bits(&[1.0, 1.0]), vec![2, 1]),
        rank: 1,
        alpha: 1.0f32.to_bits(),
    }
}

fn forward(l: &Linear, x: &[f32], n: usize) -> Vec<f32> {
    floats(&l.forward(&bits(x), n))
}

fn folded(l: &Linear) -> Vec<f32> {
    floats(&l.quant.as_ref().unwrap().weights())
}

fn freeze(l: &mut Linear) {
    l.weight.set_requires_grad(false);
    l.bias.set_requires_grad(false);
}

#[test]
fn test_lora_forward_matches_formula() {
    let lin = hand_linear();
    let mut lin_lora = hand_linear();
    lin_lora.lora = Some(hand_lora());
    let x = [1.0, 0.0];
    assert_eq!(forward(&lin, &x, 1), vec![1.0, 2.0]);
    assert_eq!(forward(&lin_lora, &x, 1), vec![2.0, 3.0]);

    let mut doubled = hand_lora();
    doubled.alpha = 2.0f32.to_bits();
    lin_lora.lora = Some(doubled);
    assert_eq!(forward(&lin_lora, &x, 1), vec![3.0, 4.0]);
}

#[test]
fn test_lora_zero_init_keeps_forward_identical() {
    let mut rng = Rng::new(1);
    let mut lin = linear(8, 5, &mut rng);
    let x: Vec<f32> = (0..16).map(|i| (i as f32 * 0.3).sin()).collect();
    let before = forward(&lin, &x, 2);
    lin.attach_lora(4, 4.0f32.to_bits(), &rng.tape(4 * 8));
    assert_eq!(forward(&lin, &x, 2), before);
}

#[test]
fn test_lora_forward_3d() {
    let mut lin = hand_linear();
    lin.lora = Some(hand_lora());
    let x = [1.0, 0.0, 0.0, 1.0, 1.0, 1.0];
    assert_eq!(lin.output_shape(&[1, 3, 2]), Ok(vec![1, 3, 2]));
    assert_eq!(forward(&lin, &x, 3), vec![2.0, 3.0, 4.0, 5.0, 6.0, 8.0]);
}

#[test]
fn test_frozen_weight_gets_no_grad_while_lora_does() {
    // The layer is linear in its input and in either half of its adapter, so that a step of one
    // gives the slope of the sum of the outputs.
    let sum = |l: &Linear, x: &[f32]| -> f32 { forward(l, x, 1).iter().sum() };
    let mut plain = hand_linear();
    freeze(&mut plain);
    let x = [1.0, 0.0];
    let at = sum(&plain, &x);
    assert_eq!([sum(&plain, &[2.0, 0.0]) - at, sum(&plain, &[1.0, 1.0]) - at], [3.0, 7.0]);
    assert!(plain.trainable_parameters().is_empty());
    assert_eq!(floats(&plain.weight.grad), vec![0.0; 4]);

    let mut lin = hand_linear();
    lin.lora = Some(hand_lora());
    freeze(&mut lin);
    let at = sum(&lin, &x);
    let slope = |first: bool, i: usize| -> f32 {
        let mut l = hand_linear();
        let mut lora = hand_lora();
        let p = if first { &mut lora.a } else { &mut lora.b };
        p.data[i] = (f32::from_bits(p.data[i]) + 1.0).to_bits();
        l.lora = Some(lora);
        sum(&l, &x) - at
    };
    assert_eq!([slope(true, 0), slope(true, 1)], [2.0, 0.0]);
    assert_eq!([slope(false, 0), slope(false, 1)], [1.0, 1.0]);
    assert_eq!(floats(&lin.weight.grad), vec![0.0; 4]);
    assert!(!lin.weight.requires_grad && !lin.bias.requires_grad);
    assert_eq!(lin.trainable_parameters().len(), 2);

    zero_grad_all(&mut lin);
    assert!(lin.parameters().iter().all(|p| p.grad.iter().all(|g| *g == 0)));
    let mut held: Vec<Param> = lin.parameters().iter().map(|p| p.copy()).collect();
    for p in held.iter_mut() {
        let n = p.numel();
        p.grad = bits(&vec![1.0; n]);
    }
    let mut opt = AdamW::new(0.1f32.to_bits(), held, 0.5f32.to_bits());
    opt.step();
    let after = opt.into_params();
    assert_eq!(floats(&after[0].data), vec![1.0, 2.0, 3.0, 4.0]);
    assert_eq!(floats(&after[1].data), vec![0.0, 0.0]);
    // The adapter: two parameters of two numbers each, all moved.
    assert!(floats(&after[2].data).iter().all(|v| *v != 1.0));
    assert!(floats(&after[3].data).iter().all(|v| *v != 1.0));
}

#[test]
fn test_merge_lora_into_weight_is_in_place() {
    let mut lin = hand_linear();
    lin.lora = Some(hand_lora());
    let x = [1.0, 0.0];
    let before = forward(&lin, &x, 1);

    lin.merge_lora();
    assert_eq!(floats(&lin.weight.data), vec![2.0, 3.0, 4.0, 5.0]);
    assert!(lin.lora.is_none());
    assert_eq!(forward(&lin, &x, 1), before);

    let mut plain = hand_linear();
    plain.merge_lora();
    assert_eq!(floats(&plain.weight.data), vec![1.0, 2.0, 3.0, 4.0]);
}

#[test]
fn quantized_forward_matches_dequantized_reference() {
    let mut rng = Rng::new(9);
    let (m, k, n) = (3, 8, 5);
    let mut lin = linear(k, n, &mut rng);
    lin.bias.data = bits(&[0.1, -0.2, 0.3, 0.0, 0.5]);
    let xd: Vec<f32> = (0..m * k).map(|i| (i as f32 * 0.37).sin()).collect();
    // Three dimensions: the rows are folded for the product, the output keeps its dimensions.
    let x3 = [1, m, k];
    let (y, got) = lin.recorded(&bits(&xd), &x3).expect("three dimensions are accepted");
    let before = floats(&y);
    assert_eq!(lin.output_shape(&x3), Ok(vec![1, m, n]));
    assert_eq!(before, forward(&lin, &xd, m));
    assert_eq!(got.shape, vec![m, k], "a record holds one row per token");
    assert_eq!(floats(&got.data), xd, "and the input as it was");

    let report = lin
        .quantize_weight("test.weight", QBits::Int8, QuantMethod::Rtn, &QuantOpts::default(), None, &ln, &exp)
        .expect("a plain layer can be quantised");
    assert!(lin.has_quant());
    assert_eq!(report.name, "test.weight");
    assert_eq!(report.method, QuantMethod::Rtn);
    assert_eq!(report.f32_bytes, k * n * 4);
    let rel = f32::from_bits(report.rel_err);
    assert!(rel > 0.0 && rel.is_finite());
    let (orig_b, cur_b) = lin.weight_bytes();
    assert_eq!(orig_b, k * n * 4);
    assert!(cur_b < orig_b, "{} vs {}", cur_b, orig_b);

    let w = folded(&lin);
    let bias = floats(&lin.bias.data);
    let mut expect = vec![0.0f32; m * n];
    for i in 0..m {
        for j in 0..n {
            let mut s = bias[j];
            for t in 0..k {
                s += xd[i * k + t] * w[t * n + j];
            }
            expect[i * n + j] = s;
        }
    }
    let after = floats(&lin.recorded(&bits(&xd), &x3).expect("three dimensions").0);
    for (i, (a, b)) in after.iter().zip(&expect).enumerate() {
        assert!((a - b).abs() < 1e-4, "{}: {} vs {}", i, a, b);
    }
    let drift = after.iter().zip(&before).fold(0.0f32, |m, (a, b)| m.max((a - b).abs()));
    let mag = before.iter().fold(0.0f32, |m, v| m.max(v.abs()));
    assert!(drift < mag * 0.05, "{} vs {}", drift, mag);

    let mut awq = linear(k, n, &mut rng);
    let w0 = awq.weight.data.clone();
    let act: Vec<f32> = (0..k).map(|j| 0.2 + j as f32 * 0.9).collect();
    let calib = LayerCalib {
        hessian: None,
        act_abs_mean: Some(bits(&act)),
        n_tokens: m,
    };
    awq.quantize_weight(
        "awq.weight",
        QBits::Int8,
        QuantMethod::Awq,
        &QuantOpts { awq_alpha: Some(AWQ_ALPHA), ..QuantOpts::default() },
        Some(&calib),
        &ln,
        &exp,
    )
    .expect("and so can this one");
    let awq_out = floats(&awq.recorded(&bits(&xd), &x3).expect("three dimensions").0);
    let mut plain = linear(k, n, &mut rng);
    plain.weight.data = w0;
    plain.bias.data = awq.bias.data.clone();
    let ref_out = forward(&plain, &xd, m);
    let drift = awq_out.iter().zip(&ref_out).fold(0.0f32, |m, (a, b)| m.max((a - b).abs()));
    let mag = ref_out.iter().fold(0.0f32, |m, v| m.max(v.abs()));
    assert!(drift < mag * 0.1, "{} vs {}", drift, mag);
}

#[test]
fn records_take_two_or_three_dimensions() {
    let lin = hand_linear();
    let x = bits(&[1.0, 2.0, 3.0, 4.0]);
    let (y, c) = lin.recorded(&x, &[2, 2]).expect("two dimensions");
    assert_eq!((c.data, c.shape), (x.clone(), vec![2, 2]));
    assert_eq!(floats(&y), vec![7.0, 10.0, 15.0, 22.0]);
    assert!(matches!(lin.recorded(&x, &[4]), Err(1)));
    assert!(matches!(lin.recorded(&x, &[1, 1, 2, 2]), Err(4)));
}

#[test]
fn layers_are_quantised_once() {
    let opts = QuantOpts::default();
    let mut lin = linear(6, 4, &mut Rng::new(5));
    assert!(lin.quantize_weight("w", QBits::Int8, QuantMethod::Rtn, &opts, None, &ln, &exp).is_some());
    let first = lin.quant.as_ref().unwrap().q.bytes().to_vec();
    assert!(lin.quantize_weight("w", QBits::Int4, QuantMethod::Rtn, &opts, None, &ln, &exp).is_none());
    assert_eq!(lin.quant.as_ref().unwrap().q.bytes().to_vec(), first);
    let mut adapted = hand_linear();
    adapted.lora = Some(hand_lora());
    assert!(adapted.quantize_weight("w", QBits::Int8, QuantMethod::Rtn, &opts, None, &ln, &exp).is_none());
    assert_eq!(floats(&adapted.weight.data), vec![1.0, 2.0, 3.0, 4.0]);
}

#[test]
fn quantize_weight_releases_the_f32_buffer() {
    let mut rng = Rng::new(77);
    let (k, n) = (32, 24);
    let mut lin = linear(k, n, &mut rng);
    assert_eq!(lin.weight.numel(), k * n);
    assert_eq!(lin.dims(), (k, n));

    let report = lin
        .quantize_weight("big.weight", QBits::Int4, QuantMethod::Rtn, &QuantOpts::default(), None, &ln, &exp)
        .expect("a plain layer can be quantised");

    assert_eq!(lin.weight.numel(), 1);
    assert_eq!(lin.weight.shape, vec![1]);
    assert_eq!(lin.dims(), (k, n));
    assert_eq!(report.f32_bytes, k * n * 4);
    assert!(report.quant_bytes < report.f32_bytes / 2);
    assert!(ratio(&report.ratio()) > 2.0);

    lin.dequantize_weight();
    assert!(!lin.has_quant());
    assert_eq!(lin.weight.shape, vec![k, n]);
    assert_eq!(lin.weight.numel(), k * n);
    assert_eq!(lin.dims(), (k, n));
    assert!(lin.weight.requires_grad);
    assert!(floats(&lin.weight.data).iter().all(|v| v.is_finite()));
}

#[test]
fn quantized_output_error_stays_within_budget() {
    let mut rng = Rng::new(21);
    let (m, k, n) = (16, 64, 48);
    let lin = linear(k, n, &mut rng);
    let x: Vec<f32> = (0..m * k).map(|i| (i as f32 * 0.21).sin() * 1.5).collect();
    let y0 = forward(&lin, &x, m);
    let mag = y0.iter().fold(0.0f32, |m, v| m.max(v.abs()));

    for (width, budget) in [(QBits::Int8, 0.05f32), (QBits::Int4, 0.20)] {
        let mut q = linear(k, n, &mut rng);
        q.weight.data = lin.weight.data.clone();
        q.bias.data = lin.bias.data.clone();
        q.quantize_weight("layer.weight", width, QuantMethod::Rtn, &QuantOpts::default(), None, &ln, &exp)
            .expect("a plain layer can be quantised");
        let y1 = forward(&q, &x, m);
        let drift = y0.iter().zip(&y1).fold(0.0f32, |m, (a, b)| m.max((a - b).abs()));
        assert!(drift < mag * budget, "[{}] {} vs {}", width.name(), drift, mag * budget);
    }
}

#[test]
fn hess_layer_really_consumes_the_calibration_hessian() {
    let mut rng = Rng::new(404);
    let (k, n) = (24, 20);
    let base = linear(k, n, &mut rng);
    let w = base.weight.data.clone();
    let rho = 0.9f32;
    let s = (1.0 - rho * rho).sqrt();
    let tokens = 200;
    let mut x: Vec<f32> = Vec::with_capacity(tokens * k);
    let mut rng2 = Rng::new(55);
    for _ in 0..tokens {
        let mut prev = rng2.randn();
        for _ in 0..k {
            prev = rho * prev + s * rng2.randn();
            x.push(prev);
        }
    }
    let mut h = vec![0.0f32; k * k];
    for t in 0..tokens {
        for i in 0..k {
            for j in 0..k {
                h[i * k + j] += x[t * k + i] * x[t * k + j];
            }
        }
    }
    let diag: Vec<f32> = (0..k).map(|i| h[i * k + i]).collect();

    let quantized_with = |rng: &mut Rng, stats: Option<&LayerCalib>, method: QuantMethod| {
        let mut lin = linear(k, n, rng);
        lin.weight.data = w.clone();
        let opts = if method == QuantMethod::Gptq {
            QuantOpts { gptq: GptqOpts::default(), ..QuantOpts::default() }
        } else {
            QuantOpts::default()
        };
        lin.quantize_weight("l.weight", QBits::Int4, method, &opts, stats, &ln, &exp)
            .expect("a plain layer can be quantised");
        folded(&lin)
    };

    let rtn_code = quantized_with(&mut rng, None, QuantMethod::Rtn);
    let full = quantized_with(
        &mut rng,
        Some(&LayerCalib {
            hessian: Some(HessianKind::Full(bits(&h))),
            act_abs_mean: Some(bits(&diag)),
            n_tokens: tokens,
        }),
        QuantMethod::Gptq,
    );
    let diagonal = quantized_with(
        &mut rng,
        Some(&LayerCalib {
            hessian: Some(HessianKind::Diagonal(bits(&diag))),
            act_abs_mean: None,
            n_tokens: tokens,
        }),
        QuantMethod::Gptq,
    );
    assert_eq!(diagonal, rtn_code);
    assert_ne!(full, rtn_code);
    assert_eq!(quantized_with(&mut rng, None, QuantMethod::Gptq), rtn_code);
}

#[test]
fn awq_scale_length_is_in_features() {
    let mut rng = Rng::new(88);
    let (k, n) = (20, 12);
    let mut lin = linear(k, n, &mut rng);
    let act: Vec<f32> = (0..k).map(|j| 0.1 + j as f32 * 0.5).collect();
    let report = lin
        .quantize_weight(
            "awq.weight",
            QBits::Int8,
            QuantMethod::Awq,
            &QuantOpts { awq_alpha: Some(AWQ_ALPHA), ..QuantOpts::default() },
            Some(&LayerCalib {
                hessian: None,
                act_abs_mean: Some(bits(&act)),
                n_tokens: 64,
            }),
            &ln,
            &exp,
        )
        .expect("a plain layer can be quantised");
    assert_eq!(report.method, QuantMethod::Awq);
    assert_eq!(report.alpha, Some(AWQ_ALPHA));
    let qw = lin.quant.as_ref().unwrap();
    let s = floats(qw.input_scale.as_ref().expect("the scales are kept"));
    assert_eq!(s.len(), k);
    assert!(s.iter().all(|v| v.is_finite() && *v > 0.0));
    assert_eq!(qw.byte_len(), qw.q.byte_len() + k * 4);

    let mut searched = linear(k, n, &mut rng);
    let act: Vec<f32> = (0..k).map(|j| 0.1 + 4.0f32.powi(j as i32 % 5 - 2)).collect();
    let r2 = searched
        .quantize_weight(
            "awq.weight",
            QBits::Int4,
            QuantMethod::Awq,
            &QuantOpts { awq_alpha: None, ..QuantOpts::default() },
            Some(&LayerCalib {
                hessian: None,
                act_abs_mean: Some(bits(&act)),
                n_tokens: 64,
            }),
            &ln,
            &exp,
        )
        .expect("a plain layer can be quantised");
    let a = r2.alpha.expect("a search reports what it chose");
    assert!(awq_alpha_grid().contains(&a));
}

#[test]
fn lora_layer_is_skipped_by_quantization() {
    let mut rng = Rng::new(3);
    let mut lin = linear(8, 6, &mut rng);
    lin.attach_lora(2, 4.0f32.to_bits(), &rng.tape(2 * 8));
    assert!(lin
        .quantize_weight("lora.weight", QBits::Int8, QuantMethod::Rtn, &QuantOpts::default(), None, &ln, &exp)
        .is_none());
    assert!(!lin.has_quant());
    assert_eq!(lin.weight.numel(), 48);

    lin.merge_lora();
    assert!(lin
        .quantize_weight("lora.weight", QBits::Int8, QuantMethod::Rtn, &QuantOpts::default(), None, &ln, &exp)
        .is_some());
}

#[test]
#[should_panic(expected = "量化层不能参与训练")]
fn quantized_forward_panics_in_grad_mode() {
    let mut rng = Rng::new(12);
    let mut lin = linear(4, 3, &mut rng);
    lin.quantize_weight(
        "w",
        QBits::Int8,
        QuantMethod::Rtn,
        &QuantOpts::default(),
        None,
        &ln,
        &exp,
    )
    .expect("a plain layer can be quantised");
    let _ = lin.forward_in(&bits(&[1.0; 4]), 1, true).expect("量化层不能参与训练");
}

#[test]
fn only_quantised_layers_refuse_gradients() {
    let mut lin = linear(4, 3, &mut Rng::new(12));
    let x = bits(&[1.0, -2.0, 0.5, 3.0]);
    assert!(!lin.refuses_gradients(true) && !lin.refuses_gradients(false));
    assert_eq!(lin.forward_in(&x, 1, true), Some(lin.forward(&x, 1)));
    let opts = QuantOpts::default();
    lin.quantize_weight("w", QBits::Int8, QuantMethod::Rtn, &opts, None, &ln, &exp).unwrap();
    assert!(lin.refuses_gradients(true) && !lin.refuses_gradients(false));
    assert_eq!(lin.forward_in(&x, 1, true), None);
    assert_eq!(lin.forward_in(&x, 1, false), Some(lin.forward(&x, 1)));
    lin.dequantize_weight();
    assert!(!lin.refuses_gradients(true));
    assert_eq!(
        (opts.gptq.act_order, opts.gptq.damp, opts.gptq.block),
        (true, GPTQ_DAMP, GPTQ_BLOCK)
    );
}

#[test]
fn merge_lora_on_quantized_layer_dequantizes_first() {
    let mut lin = hand_linear();
    lin.quantize_weight("w", QBits::Int8, QuantMethod::Rtn, &QuantOpts::default(), None, &ln, &exp)
        .expect("a plain layer can be quantised");
    let deq = folded(&lin);
    lin.lora = Some(hand_lora());

    lin.merge_lora();
    assert!(lin.quant.is_none());
    assert!(!lin.has_quant());
    let w = floats(&lin.weight.data);
    for i in 0..4 {
        let expect = deq[i] + 1.0;
        assert!((w[i] - expect).abs() < 1e-5, "{}: {} vs {}", i, w[i], expect);
    }
    assert!((w[0] - 2.0).abs() > 1e-3, "{}", w[0]);
    let y = forward(&lin, &[1.0, 0.0], 1);
    assert!((y[0] - w[0]).abs() < 1e-5 && (y[1] - w[1]).abs() < 1e-5);
}

#[test]
fn fresh_layers_follow_their_draws() {
    let draws = bits(&[1.0, -1.0, 2.0, 0.5, 0.25, -3.0]);
    let l = Linear::new(2, 3, &draws);
    let std = (2.0f32 / 5.0).sqrt();
    let want: Vec<f32> = floats(&draws).iter().map(|v| v * std).collect();
    assert_eq!(floats(&l.weight.data), want);
    assert_eq!(l.weight.shape, vec![2, 3]);
    assert_eq!(floats(&l.bias.data), vec![0.0; 3]);
    assert!(l.weight.requires_grad && l.bias.requires_grad);
}

#[test]
fn shapes_that_do_not_fit_are_refused() {
    let l = hand_linear();
    assert_eq!(l.output_shape(&[5, 2]), Ok(vec![5, 2]));
    assert_eq!(l.output_shape(&[2, 5, 2]), Ok(vec![2, 5, 2]));
    assert_eq!(l.output_shape(&[2]), Err(1));
    assert_eq!(l.output_shape(&[1, 1, 1, 2]), Err(4));
}

#[test]
fn merging_twice_is_merging_once() {
    let mut lin = hand_linear();
    lin.lora = Some(hand_lora());
    lin.merge_lora();
    let once = lin.weight.data.clone();
    lin.merge_lora();
    assert_eq!(lin.weight.data, once);
}

#[test]
fn dequantising_keeps_what_the_layer_computes() {
    let mut rng = Rng::new(5);
    let mut lin = linear(12, 7, &mut rng);
    let x: Vec<f32> = (0..24).map(|i| (i as f32 * 0.4).cos()).collect();
    for width in [QBits::Int8, QBits::Int4] {
        lin.quantize_weight("w", width, QuantMethod::Rtn, &QuantOpts::default(), None, &ln, &exp).unwrap();
        let before = forward(&lin, &x, 2);
        lin.dequantize_weight();
        assert_eq!(forward(&lin, &x, 2), before);
    }
}

#[test]
fn parameters_carry_their_names() {
    let mut lin = hand_linear();
    lin.lora = Some(hand_lora());
    let names: Vec<String> = lin.named_parameters("h.c_q").into_iter().map(|(n, _)| n).collect();
    assert_eq!(names, vec!["h.c_q.weight", "h.c_q.bias", "h.c_q.lora_a", "h.c_q.lora_b"]);
}

#[test]
fn gated_blocks_multiply_two_branches() {
    let (d, n) = (4usize, 2usize);
    let mut rng = Rng::new(91);
    let tape = rng.tape(3 * 4 * 256);
    let block = SwiGLUMLP::new(d, &tape, 0);
    let h = block.w_gate.weight.shape[1];
    assert_eq!(block.w_down.weight.shape, vec![h, d]);
    let x = rng.tape(n * d);
    let silu = |g: u32, u: u32| {
        let v = f32::from_bits(g);
        (v / (1.0 + (-v).exp()) * f32::from_bits(u)).to_bits()
    };
    let y = block.forward(&x, n, d, &silu);
    let gate = block.w_gate.forward(&x, n);
    let up = block.w_up.forward(&x, n);
    let hidden: Vec<u32> = gate.iter().zip(&up).map(|(g, u)| silu(*g, *u)).collect();
    assert_eq!(y, block.w_down.forward(&hidden, n));
    assert_eq!(y.len(), n * d);
}

#[test]
fn gated_widths_are_rounded_up() {
    assert_eq!(swiglu_hidden(4096), 11008);
    assert_eq!((swiglu_hidden(0), swiglu_hidden(1), swiglu_hidden(96)), (0, 256, 256));
    let top = (usize::MAX - 2) / 8;
    assert_eq!(swiglu_hidden(top) % 256, 0);
}
