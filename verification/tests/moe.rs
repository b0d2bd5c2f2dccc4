use tiny_llm::config::GPTConfig;
use tiny_llm::config::MoeConfigError;
use tiny_llm::layers::Linear;
use tiny_llm::loss::mse_loss;
use tiny_llm::mlp::MLPEnum;
use tiny_llm::moe::expert_capacity;
use tiny_llm::moe::round_up;
use tiny_llm::moe::top_k_gate;
use tiny_llm::moe::RoutePlan;
use tiny_llm::moe_forward::Forward;
use tiny_llm::moe_layer::balance_loss;
use tiny_llm::moe_layer::MoELayer;
use tiny_llm::optim::AdamW;
use tiny_llm::optim::Optimizer;
use tiny_llm::params::Module;
use tiny_llm::params::Param;
use tiny_llm::softmax::softmax_rows;
use tiny_llm::sparse::merge_stats;
use tiny_llm::sparse::sparse_stats;
use tiny_llm::sparse::Ratio;
use tiny_llm::sparse::RouteStats;

struct Rng {
    state: u64,
}

impl Rng {
    fn new(seed: u64) -> Rng {
        Rng { state: seed.wrapping_mul(0x9e37_79b9_7f4a_7c15).wrapping_add(0x1234_5678_9abc_def1) }
    }

    fn next_f32(&mut self) -> f32 {
        self.state = self.state.wrapping_add(0x9e37_79b9_7f4a_7c15);
        let mut z = self.state;
        z = (z ^ (z >> 30)).wrapping_mul(0xbf58_476d_1ce4_e5b9);
        z = (z ^ (z >> 27)).wrapping_mul(0x94d0_49bb_1331_11eb);
        z ^= z >> 31;
        (z >> 40) as f32 / (1u64 << 24) as f32
    }

    fn randn(&mut self) -> f32 {
        let u = self.next_f32().max(1e-7);
        let v = self.next_f32();
        (-2.0 * u.ln()).sqrt() * (2.0 * std::f32::consts::PI * v).cos()
    }
}

fn bits(v: &[f32]) -> Vec<u32> {
    v.iter().map(|x| x.to_bits()).collect()
}

fn floats(v: &[u32]) -> Vec<f32> {
    v.iter().map(|x| f32::from_bits(*x)).collect()
}

fn exp(v: u32) -> u32 {
    f32::from_bits(v).exp().to_bits()
}

fn ln(v: u32) -> u32 {
    f32::from_bits(v).ln().to_bits()
}

fn gelu_of(x: f32) -> f32 {
    0.5 * x * (1.0 + (0.797_884_6 * (x + 0.044715 * x * x * x)).tanh())
}

fn gelu(v: u32) -> u32 {
    gelu_of(f32::from_bits(v)).to_bits()
}

fn swiglu(g: u32, u: u32) -> u32 {
    let g = f32::from_bits(g);
    (g / (1.0 + (-g).exp()) * f32::from_bits(u)).to_bits()
}

fn tape(n: usize, seed: u64) -> Vec<u32> {
    let mut rng = Rng::new(seed);
    (0..n).map(|_| rng.randn().to_bits()).collect()
}

fn layer_of(cfg: &GPTConfig, seed: u64) -> MoELayer {
    let d = cfg.n_embd;
    let each = if cfg.use_swiglu {
        let h = ((8 * d / 3) + 255) / 256 * 256;
        3 * d * h
    } else {
        8 * d * d
    };
    assert_eq!(cfg.check_moe(), Ok(()));
    MoELayer::new(cfg, &tape(cfg.n_expert * each + d * cfg.n_expert, seed), 0)
}

fn build(d: usize, n_expert: usize, top_k: usize, seed: u64) -> MoELayer {
    let cfg = GPTConfig {
        vocab_size: 16,
        n_embd: d,
        n_expert,
        moe_top_k: top_k,
        moe_capacity_factor: 0.0f32.to_bits(),
        moe_aux_coef: 0.0f32.to_bits(),
        moe_switch_gate: top_k == 1,
        ..GPTConfig::default()
    };
    layer_of(&cfg, seed)
}

fn rand_x(n: usize, d: usize, seed: u64) -> Vec<f32> {
    let mut rng = Rng::new(seed);
    (0..n * d).map(|_| rng.randn()).collect()
}

fn run(layer: &mut MoELayer, x: &[f32], d: usize) -> Forward {
    layer.forward_with_aux(&bits(x), x.len() / d, d, &exp, &ln, &gelu, &swiglu)
}

fn output(layer: &mut MoELayer, x: &[f32], d: usize) -> Vec<f32> {
    floats(&run(layer, x, d).y)
}

fn ratio(r: &Ratio) -> f64 {
    r.num as f64 / r.den as f64
}

fn plan_of(layer: &MoELayer, x: &[f32], d: usize) -> RoutePlan {
    layer.route_plan(&bits(x), x.len() / d, d)
}

#[test]
fn test_top_k_gate_picks_highest_logits() {
    let e = 4;
    let n = 3;
    let logits = vec![
        0.1, 0.9, 5.0, 0.2, //
        7.0, 0.3, 0.4, 0.5, //
        1.0, 1.0, 1.0, 1.0,
    ];
    let plan = top_k_gate(&bits(&logits), n, e, 2, usize::MAX);
    assert_eq!(plan.sel[0], vec![1, 2]);
    assert_eq!(plan.sel[1], vec![0, 2]);
    assert_eq!(plan.sel[2], vec![0]);
    assert_eq!(plan.sel[3], vec![1]);
    assert_eq!(plan.dropped, 0);
    assert_eq!(plan.routed, vec![2, 2, 1, 1]);
    assert!((floats(&plan.f).iter().sum::<f32>() - 1.0).abs() < 1e-6);
    let penalty = floats(&plan.penalty);
    let mask = floats(&plan.mask);
    for i in 0..n {
        for j in 0..e {
            let selected = plan.sel[j].contains(&i);
            assert_eq!(penalty[i * e + j] == 0.0, selected);
            assert_eq!(mask[i * e + j] == 1.0, selected);
        }
    }
}

#[test]
fn test_top_k_gate_matches_full_sort() {
    let (n, e, k) = (17usize, 13usize, 3usize);
    let mut rng = Rng::new(123);
    let logits: Vec<f32> = (0..n * e).map(|_| (rng.next_f32() * 8.0).floor() * 0.25).collect();
    let got = top_k_gate(&bits(&logits), n, e, k, usize::MAX);

    let mut sel_ref: Vec<Vec<usize>> = vec![Vec::new(); e];
    let mut penalty_ref = vec![f32::NEG_INFINITY; n * e];
    let mut mask_ref = vec![0.0f32; n * e];
    let mut routed_ref = vec![0usize; e];
    for i in 0..n {
        let row = &logits[i * e..(i + 1) * e];
        let mut order: Vec<usize> = (0..e).collect();
        order.sort_by(|&a, &b| match row[b].total_cmp(&row[a]) {
            std::cmp::Ordering::Equal => a.cmp(&b),
            o => o,
        });
        for &j in &order[..k] {
            penalty_ref[i * e + j] = 0.0;
            mask_ref[i * e + j] = 1.0;
            routed_ref[j] += 1;
            sel_ref[j].push(i);
        }
    }
    assert_eq!(got.sel, sel_ref);
    assert_eq!(got.routed, routed_ref);
    assert_eq!(floats(&got.penalty), penalty_ref);
    assert_eq!(floats(&got.mask), mask_ref);
    assert_eq!(got.dropped, 0);
    let f_ref: Vec<f32> = routed_ref.iter().map(|&c| c as f32 / (n * k) as f32).collect();
    assert_eq!(floats(&got.f), f_ref);
}

fn z_loss_config(d: usize, e: usize, coef: f32) -> GPTConfig {
    GPTConfig {
        vocab_size: 16,
        n_embd: d,
        n_expert: e,
        moe_top_k: 1,
        moe_switch_gate: false,
        moe_z_loss_coef: coef.to_bits(),
        ..GPTConfig::default()
    }
}

#[test]
fn test_z_loss_value_and_router_gradient() {
    let (d, e, n) = (4usize, 3usize, 6usize);
    let x = rand_x(n, d, 8);
    let mut layer = layer_of(&z_loss_config(d, e, 1.0), 23);
    let aux = f32::from_bits(run(&mut layer, &x, d).aux.expect("a positive coefficient gives a loss"));

    let logits = floats(&layer.router.forward(&bits(&x), n));
    let mut z_ref = 0.0f32;
    for i in 0..n {
        let row = &logits[i * e..(i + 1) * e];
        let m = row.iter().cloned().fold(f32::NEG_INFINITY, f32::max);
        let s: f32 = row.iter().map(|&v| (v - m).exp()).sum();
        let lse = m + s.ln();
        z_ref += lse * lse;
    }
    z_ref /= n as f32;
    assert!((aux - z_ref).abs() < 1e-4, "{} vs {}", aux, z_ref);

    // The slope of the loss along every weight of the router.
    let mut gsum = 0.0f32;
    for i in 0..d * e {
        let before = layer.router.weight.data[i];
        let step = 1e-2f32;
        layer.router.weight.data[i] = (f32::from_bits(before) + step).to_bits();
        let up = f32::from_bits(run(&mut layer, &x, d).aux.unwrap());
        layer.router.weight.data[i] = (f32::from_bits(before) - step).to_bits();
        let down = f32::from_bits(run(&mut layer, &x, d).aux.unwrap());
        layer.router.weight.data[i] = before;
        gsum += ((up - down) / (2.0 * step)).abs();
    }
    assert!(gsum > 1e-6, "{}", gsum);

    let mut layer0 = layer_of(&z_loss_config(d, e, 0.0), 23);
    assert!(run(&mut layer0, &x, d).aux.is_none());
}

#[test]
fn test_gate_weights_are_softmax_over_topk_only() {
    let e = 4usize;
    let n = 2usize;
    let logits = vec![0.0f32, 2.0, 1.0, -1.0, 3.0, 3.0, 0.0, 0.0];
    let plan = top_k_gate(&bits(&logits), n, e, 2, usize::MAX);
    let weights = |l: &[f32]| -> Vec<f32> {
        let shifted: Vec<f32> = l.iter().zip(floats(&plan.penalty)).map(|(a, b)| a + b).collect();
        floats(&softmax_rows(&exp, &bits(&shifted), n, e))
    };
    let wd = weights(&logits);
    for i in 0..n {
        let row = &wd[i * e..(i + 1) * e];
        assert!((row.iter().sum::<f32>() - 1.0).abs() < 1e-6, "{:?}", row);
        let nonzero = row.iter().filter(|v| **v > 0.0).count();
        assert_eq!(nonzero, 2, "{:?}", row);
    }
    let (a, b) = (1.0f32.exp(), 1.0f32);
    assert!((wd[1] - a / (a + b)).abs() < 1e-6);
    assert!((wd[2] - b / (a + b)).abs() < 1e-6);
    assert!((wd[4] - 0.5).abs() < 1e-6 && (wd[5] - 0.5).abs() < 1e-6);

    // The slope of a weighted sum along every logit.
    let weighed = |l: &[f32]| -> f32 {
        weights(l).iter().enumerate().map(|(i, w)| w * (0.5 + i as f32 * 0.3)).sum()
    };
    let slope = |j: usize| -> f32 {
        let mut up = logits.clone();
        up[j] += 0.01;
        let mut down = logits.clone();
        down[j] -= 0.01;
        (weighed(&up) - weighed(&down)) / 0.02
    };
    assert!(slope(3).abs() < 1e-7 && slope(6).abs() < 1e-7 && slope(7).abs() < 1e-7);
    assert!(slope(1).abs() > 1e-3 && slope(4).abs() > 1e-3);
}

#[test]
fn test_moe_forward_matches_dense_reference() {
    let (d, e, k, n) = (4usize, 3usize, 2usize, 5usize);
    let mut layer = build(d, e, k, 11);
    let x = rand_x(n, d, 7);

    let got = output(&mut layer, &x, d);
    assert_eq!(got.len(), n * d);

    let logits = floats(&layer.router.forward(&bits(&x), n));
    let mut expect = vec![0.0f32; n * d];
    for i in 0..n {
        let row = &logits[i * e..(i + 1) * e];
        let mut order: Vec<usize> = (0..e).collect();
        order.sort_by(|&a, &b| match row[b].total_cmp(&row[a]) {
            std::cmp::Ordering::Equal => a.cmp(&b),
            o => o,
        });
        let picked = &order[..k];
        let m = picked.iter().fold(f32::NEG_INFINITY, |acc, &j| acc.max(row[j]));
        let denom: f32 = picked.iter().map(|&j| (row[j] - m).exp()).sum();
        for &j in picked {
            let wij = (row[j] - m).exp() / denom;
            let yj = floats(
                &layer.experts[j].forward(&bits(&x[i * d..(i + 1) * d]), 1, d, &gelu, &swiglu),
            );
            for t in 0..d {
                expect[i * d + t] += wij * yj[t];
            }
        }
    }
    for (idx, (a, b)) in got.iter().zip(&expect).enumerate() {
        assert!((a - b).abs() < 2e-5, "element {}: {} vs {}", idx, a, b);
    }
}

#[test]
fn test_moe_routing_is_per_token() {
    let (d, e, k) = (6usize, 4usize, 2usize);
    let mut layer = build(d, e, k, 3);
    let x = rand_x(5, d, 21);
    let full = output(&mut layer, &x, d);
    let single = output(&mut layer, &x[2 * d..3 * d], d);
    for t in 0..d {
        assert!((full[2 * d + t] - single[t]).abs() < 1e-6);
    }
}

#[test]
fn test_capacity_factor_drops_overflow() {
    let (d, e, k, n) = (3usize, 2usize, 1usize, 6usize);
    let mut layer = build(d, e, k, 5);
    layer.router.weight.data = bits(&vec![0.0; d * e]);
    layer.router.bias.data = bits(&[5.0, 0.0]);
    let x = rand_x(n, d, 9);

    layer.capacity_factor = 0.5f32.to_bits();
    let plan = plan_of(&layer, &x, d);
    assert_eq!(plan.sel[0], vec![0, 1]);
    assert!(plan.sel[1].is_empty());
    assert_eq!(plan.dropped, 4);
    assert_eq!(plan.routed, vec![n, 0]);

    let out = output(&mut layer, &x, d);
    for i in 2..n {
        for t in 0..d {
            assert_eq!(out[i * d + t], 0.0);
        }
    }
    assert!(out[..2 * d].iter().any(|v| *v != 0.0));

    layer.capacity_factor = 0.0f32.to_bits();
    let plan = plan_of(&layer, &x, d);
    assert_eq!(plan.sel[0].len(), n);
    assert_eq!(plan.dropped, 0);

    let _ = output(&mut layer, &x, d);
    let st = &layer.stats;
    assert_eq!(st.counts, vec![n, 0]);
    assert_eq!(st.dropped, 0);
    assert!((ratio(&st.imbalance()) - 2.0).abs() < 1e-9);
}

#[test]
fn test_aux_loss_minimum_at_uniform() {
    let aux_of = |f: Vec<f32>, p: Vec<f32>| -> f32 { f32::from_bits(balance_loss(&bits(&f), &bits(&p))) };

    assert!((aux_of(vec![0.25; 4], vec![0.25; 4]) - 1.0).abs() < 1e-6);
    assert!(
        (aux_of(vec![1.0, 0.0, 0.0, 0.0], vec![1.0, 0.0, 0.0, 0.0]) - 4.0).abs() < 1e-6
    );

    for f in [vec![0.7, 0.1, 0.1, 0.1], vec![0.4, 0.3, 0.2, 0.1], vec![0.25; 4]] {
        let v = aux_of(f.clone(), f.clone());
        assert!(v >= 1.0 - 1e-6, "{:?}: {}", f, v);
    }

    let disjoint = aux_of(vec![0.5, 0.5, 0.0, 0.0], vec![0.0, 0.0, 0.5, 0.5]);
    assert!(disjoint.abs() < 1e-6, "{}", disjoint);

    let f_one_hot = aux_of(vec![1.0, 0.0, 0.0, 0.0], vec![0.25; 4]);
    assert!((f_one_hot - 1.0).abs() < 1e-6, "{}", f_one_hot);

    let matched = aux_of(vec![0.5, 0.5, 0.0, 0.0], vec![0.5, 0.5, 0.0, 0.0]);
    let shifted = aux_of(vec![0.5, 0.5, 0.0, 0.0], vec![0.0, 0.5, 0.5, 0.0]);
    assert!(shifted < matched, "{} vs {}", shifted, matched);
}

#[test]
fn test_layer_aux_loss_is_above_one_when_skewed() {
    let (d, e) = (4usize, 4usize);
    let mut layer = build(d, e, 1, 13);
    layer.router.weight.data = bits(&vec![0.0; d * e]);
    layer.router.bias.data = bits(&[2.0, 0.0, 0.0, 0.0]);
    let x = rand_x(8, d, 4);
    layer.aux_coef = 1.0f32.to_bits();
    let aux = f32::from_bits(run(&mut layer, &x, d).aux.expect("a positive coefficient gives a loss"));
    assert!(aux > 1.05, "{}", aux);
    assert_eq!(layer.stats.counts, vec![8, 0, 0, 0]);

    layer.router.bias.data = bits(&vec![0.0; e]);
    let aux = f32::from_bits(run(&mut layer, &x, d).aux.unwrap());
    assert!(aux < 1.3, "{}", aux);

    layer.aux_coef = 0.0f32.to_bits();
    assert!(run(&mut layer, &x, d).aux.is_none());
}

#[test]
fn test_k1_renorm_gate_has_no_router_gradient() {
    let (d, e) = (4usize, 3usize);
    let x = rand_x(4, d, 6);
    // The slopes of a weighted sum of the output along the weights of the router.
    let router_grad_sum = |switch_gate: bool| -> f32 {
        let cfg = GPTConfig {
            vocab_size: 16,
            n_embd: d,
            n_expert: e,
            moe_top_k: 1,
            moe_switch_gate: switch_gate,
            ..GPTConfig::default()
        };
        let mut layer = layer_of(&cfg, 17);
        let routes = plan_of(&layer, &x, d).sel;
        let mut sum = 0.0f32;
        for i in 0..d * e {
            let before = layer.router.weight.data[i];
            let mut value = [0.0f32; 2];
            for s in 0..2 {
                let step = if s == 0 { 1e-3f32 } else { -1e-3f32 };
                layer.router.weight.data[i] = (f32::from_bits(before) + step).to_bits();
                assert_eq!(plan_of(&layer, &x, d).sel, routes);
                value[s] = output(&mut layer, &x, d)
                    .iter()
                    .enumerate()
                    .map(|(j, y)| y * (0.3 + j as f32 * 0.07))
                    .sum();
            }
            layer.router.weight.data[i] = before;
            sum += ((value[0] - value[1]) / 2e-3).abs();
        }
        sum
    };
    let renorm = router_grad_sum(false);
    let switch = router_grad_sum(true);
    assert!(renorm < 1e-7, "{}", renorm);
    assert!(switch > 1e-4, "{}", switch);
}

fn experts_of(layer: &MoELayer, e: usize) -> Vec<Param> {
    match &layer.experts[e] {
        MLPEnum::GELU { linear1, linear2 } => {
            vec![linear1.weight.copy(), linear1.bias.copy(), linear2.weight.copy(), linear2.bias.copy()]
        }
        MLPEnum::SwiGLU(_) => unreachable!(),
    }
}

fn restore(layer: &mut MoELayer, e: usize, kept: &[Param]) {
    match &mut layer.experts[e] {
        MLPEnum::GELU { linear1, linear2 } => {
            linear1.weight.data = kept[0].data.clone();
            linear1.bias.data = kept[1].data.clone();
            linear2.weight.data = kept[2].data.clone();
            linear2.bias.data = kept[3].data.clone();
        }
        MLPEnum::SwiGLU(_) => unreachable!(),
    }
}

fn nudge(layer: &mut MoELayer, e: usize, step: f32) {
    match &mut layer.experts[e] {
        MLPEnum::GELU { linear1, linear2 } => {
            for p in [&mut linear1.weight, &mut linear1.bias, &mut linear2.weight, &mut linear2.bias] {
                for v in p.data.iter_mut() {
                    *v = (f32::from_bits(*v) + step).to_bits();
                }
            }
        }
        MLPEnum::SwiGLU(_) => unreachable!(),
    }
}

#[test]
fn test_only_selected_experts_receive_gradients() {
    let (d, e) = (4usize, 3usize);
    let mut layer = build(d, e, 1, 17);
    layer.router.weight.data = bits(&vec![0.0; d * e]);
    layer.router.bias.data = bits(&[3.0, 0.0, 0.0]);
    let x = rand_x(4, d, 6);
    let base: f32 = output(&mut layer, &x, d).iter().sum();

    // The output moves with the router and with the chosen expert, and with no other.
    let before = layer.router.weight.data[0];
    layer.router.weight.data[0] = (f32::from_bits(before) + 0.05).to_bits();
    let moved: f32 = output(&mut layer, &x, d).iter().sum();
    layer.router.weight.data[0] = before;
    assert!((moved - base).abs() > 1e-6);
    for i in 0..e {
        let kept = experts_of(&layer, i);
        assert_eq!(kept.len(), 4);
        nudge(&mut layer, i, 0.01);
        let now: f32 = output(&mut layer, &x, d).iter().sum();
        if i == 0 {
            assert!((now - base).abs() > 1e-6);
        } else {
            assert_eq!(now, base);
        }
        restore(&mut layer, i, &kept);
    }
}

#[test]
fn test_sparse_stats_matches_real_layer() {
    for use_swiglu in [false, true] {
        let (d, e, k) = (8usize, 4usize, 2usize);
        let cfg = GPTConfig {
            vocab_size: 16,
            n_embd: d,
            n_expert: e,
            moe_top_k: k,
            use_swiglu,
            ..GPTConfig::default()
        };
        let layer = layer_of(&cfg, 2);
        let measured: usize = layer.parameters().iter().map(|p| p.numel()).sum();
        let ss = sparse_stats(e, k, d, use_swiglu);
        assert_eq!(measured, ss.total_params());
        assert_eq!(ss.active_params(), k * ss.expert_params + ss.router_params);
        assert!((ratio(&ss.param_ratio()) - 2.0).abs() < 0.05);
        assert!((ratio(&ss.flops_saving()) - 0.5).abs() < 0.05);
    }
}

/// The slopes of the balance loss along the logits: the shares of the experts stay fixed, and
/// their mean probabilities move.
fn balance_slopes(logits: &[f32], f: &[f32], n: usize, e: usize, coef: f32) -> Vec<f32> {
    let mut g = vec![0.0f32; n * e];
    for i in 0..n {
        let row = &logits[i * e..(i + 1) * e];
        let m = row.iter().cloned().fold(f32::NEG_INFINITY, f32::max);
        let sum: f32 = row.iter().map(|v| (v - m).exp()).sum();
        let p: Vec<f32> = row.iter().map(|v| (v - m).exp() / sum).collect();
        let dot: f32 = p.iter().zip(f).map(|(a, b)| a * b).sum();
        for j in 0..e {
            g[i * e + j] = coef * e as f32 * p[j] * (f[j] - dot) / n as f32;
        }
    }
    g
}

/// The gradient of `x · w + b` in `w` and `b`, from the gradient of the product.
fn linear_slopes(x: &[f32], g: &[f32], n: usize, i: usize, o: usize) -> (Vec<f32>, Vec<f32>) {
    let mut gw = vec![0.0f32; i * o];
    let mut gb = vec![0.0f32; o];
    for r in 0..n {
        for c in 0..o {
            gb[c] += g[r * o + c];
            for t in 0..i {
                gw[t * o + c] += x[r * i + t] * g[r * o + c];
            }
        }
    }
    (gw, gb)
}

#[test]
fn test_aux_loss_gradient_balances_routing() {
    let (d, e, n) = (8usize, 4usize, 32usize);
    let mut layer = build(d, e, 1, 23);
    layer.aux_coef = 1.0f32.to_bits();
    layer.router.bias.data = bits(&[3.0, 0.0, 0.0, 0.0]);
    let x = rand_x(n, d, 8);
    let _ = run(&mut layer, &x, d);
    let imb_before = ratio(&layer.stats.imbalance());
    assert!(imb_before > 2.0, "{}", imb_before);

    let params = vec![layer.router.weight.copy(), layer.router.bias.copy()];
    let mut opt = AdamW::new(0.1f32.to_bits(), params, 0.0f32.to_bits());
    for _ in 0..60 {
        let r = run(&mut layer, &x, d);
        assert!(r.aux.is_some());
        let logits = floats(&layer.logits(&bits(&x), n, d));
        let g = balance_slopes(&logits, &floats(&r.plan.f), n, e, 1.0);
        let (gw, gb) = linear_slopes(&x, &g, n, d, e);
        let (t, m, v) = opt.state();
        let (t, m, v) = (t, m.clone(), v.clone());
        let mut held = opt.into_params();
        held[0].grad = bits(&gw);
        held[1].grad = bits(&gb);
        opt = AdamW::new(0.1f32.to_bits(), held, 0.0f32.to_bits());
        if t > 0 {
            opt.restore_state(t, m, v);
        }
        opt.step();
        layer.router.weight.data = opt.params()[0].data.clone();
        layer.router.bias.data = opt.params()[1].data.clone();
    }
    let _ = run(&mut layer, &x, d);
    let imb_after = ratio(&layer.stats.imbalance());
    assert!(imb_after < imb_before - 1.0, "{} -> {}", imb_before, imb_after);
}

fn sample_clusters(
    centers: &[Vec<f32>],
    maps: &[Vec<f32>],
    batch: usize,
    d: usize,
    rng: &mut Rng,
) -> (Vec<f32>, Vec<f32>) {
    let mut xs = vec![0.0f32; batch * d];
    let mut ys = vec![0.0f32; batch * d];
    for i in 0..batch {
        let c = (rng.next_f32() * centers.len() as f32) as usize % centers.len();
        let x: Vec<f32> = (0..d).map(|j| centers[c][j] + rng.randn() * 0.3).collect();
        for r in 0..d {
            let mut acc = 0.0;
            for j in 0..d {
                acc += x[j] * maps[c][r * d + j];
            }
            ys[i * d + r] = acc.tanh();
        }
        xs[i * d..(i + 1) * d].copy_from_slice(&x);
    }
    (xs, ys)
}

/// The gradient of `x · w` in `x`.
fn input_slopes(g: &[f32], w: &[f32], n: usize, i: usize, o: usize) -> Vec<f32> {
    let mut gx = vec![0.0f32; n * i];
    for r in 0..n {
        for t in 0..i {
            for c in 0..o {
                gx[r * i + t] += g[r * o + c] * w[t * o + c];
            }
        }
    }
    gx
}

fn accumulate(p: &mut Param, g: &[f32]) {
    for (a, b) in p.grad.iter_mut().zip(g) {
        *a = (f32::from_bits(*a) + b).to_bits();
    }
}

#[test]
fn test_moe_layer_trains() {
    let (d, e, k, cluster, steps) = (8usize, 4usize, 1usize, 2usize, 80usize);
    let mut rng = Rng::new(31);
    let centers: Vec<Vec<f32>> =
        (0..cluster).map(|_| (0..d).map(|_| rng.randn() * 2.0).collect()).collect();
    let maps: Vec<Vec<f32>> =
        (0..cluster).map(|_| (0..d * d).map(|_| rng.randn() * 0.5).collect()).collect();
    let mut head = Linear::new(d, d, &tape(d * d, 32));
    let cfg = GPTConfig {
        vocab_size: 16,
        n_embd: d,
        n_expert: e,
        moe_top_k: k,
        moe_aux_coef: 0.01f32.to_bits(),
        use_swiglu: false,
        ..GPTConfig::default()
    };
    let mut moe = layer_of(&cfg, 33);
    let batch = 32usize;
    let mut eval_rng = Rng::new(99);

    let eval = |moe: &mut MoELayer, head: &Linear, rng: &mut Rng| -> f32 {
        let (x, y) = sample_clusters(&centers, &maps, batch, d, rng);
        let h = run(moe, &x, d).y;
        f32::from_bits(mse_loss(&head.forward(&h, batch), &bits(&y)))
    };
    let first = eval(&mut moe, &head, &mut eval_rng);

    // The order of the parameters: the experts, the router, the head.
    let mut held: Vec<Param> = Vec::new();
    for i in 0..e {
        held.extend(experts_of(&moe, i));
    }
    held.push(moe.router.weight.copy());
    held.push(moe.router.bias.copy());
    held.push(head.weight.copy());
    held.push(head.bias.copy());
    let mut opt = AdamW::new(0.05f32.to_bits(), held, 0.0f32.to_bits());

    for _ in 0..steps {
        let (x, y) = sample_clusters(&centers, &maps, batch, d, &mut rng);
        let r = run(&mut moe, &x, d);
        let h = floats(&r.y);
        let pred = floats(&head.forward(&r.y, batch));
        let (t, m, v) = opt.state();
        let (t, m, v) = (t, m.clone(), v.clone());
        let mut ps = opt.into_params();
        for p in ps.iter_mut() {
            p.zero_grad();
        }
        let scale = 2.0 / (batch * d) as f32;
        let gp: Vec<f32> = pred.iter().zip(&y).map(|(a, b)| (a - b) * scale).collect();
        let (gw, gb) = linear_slopes(&h, &gp, batch, d, d);
        accumulate(&mut ps[4 * e + 2], &gw);
        accumulate(&mut ps[4 * e + 3], &gb);
        let gh = input_slopes(&gp, &floats(&head.weight.data), batch, d, d);
        for j in 0..e {
            for &i in &r.plan.sel[j] {
                // A single expert has weight one, so the token's gradient passes as it is.
                let xi = &x[i * d..(i + 1) * d];
                let gi = &gh[i * d..(i + 1) * d];
                let w1 = floats(&ps[4 * j].data);
                let b1 = floats(&ps[4 * j + 1].data);
                let w2 = floats(&ps[4 * j + 2].data);
                let hid = 4 * d;
                let mut pre = b1.clone();
                for c in 0..hid {
                    for q in 0..d {
                        pre[c] += xi[q] * w1[q * hid + c];
                    }
                }
                let act: Vec<f32> = pre.iter().map(|v| gelu_of(*v)).collect();
                let (gw2, gb2) = linear_slopes(&act, gi, 1, hid, d);
                accumulate(&mut ps[4 * j + 2], &gw2);
                accumulate(&mut ps[4 * j + 3], &gb2);
                let mut ga = input_slopes(gi, &w2, 1, hid, d);
                for c in 0..hid {
                    ga[c] *= (gelu_of(pre[c] + 1e-3) - gelu_of(pre[c] - 1e-3)) / 2e-3;
                }
                let (gw1, gb1) = linear_slopes(xi, &ga, 1, d, hid);
                accumulate(&mut ps[4 * j], &gw1);
                accumulate(&mut ps[4 * j + 1], &gb1);
            }
        }
        let logits = floats(&moe.logits(&bits(&x), batch, d));
        let gl = balance_slopes(&logits, &floats(&r.plan.f), batch, e, 0.01);
        let (gw, gb) = linear_slopes(&x, &gl, batch, d, e);
        accumulate(&mut ps[4 * e], &gw);
        accumulate(&mut ps[4 * e + 1], &gb);

        opt = AdamW::new(0.05f32.to_bits(), ps, 0.0f32.to_bits());
        if t > 0 {
            opt.restore_state(t, m, v);
        }
        opt.step();
        for j in 0..e {
            match &mut moe.experts[j] {
                MLPEnum::GELU { linear1, linear2 } => {
                    linear1.weight.data = opt.params()[4 * j].data.clone();
                    linear1.bias.data = opt.params()[4 * j + 1].data.clone();
                    linear2.weight.data = opt.params()[4 * j + 2].data.clone();
                    linear2.bias.data = opt.params()[4 * j + 3].data.clone();
                }
                MLPEnum::SwiGLU(_) => unreachable!(),
            }
        }
        moe.router.weight.data = opt.params()[4 * e].data.clone();
        moe.router.bias.data = opt.params()[4 * e + 1].data.clone();
        head.weight.data = opt.params()[4 * e + 2].data.clone();
        head.bias.data = opt.params()[4 * e + 3].data.clone();
    }
    let last = eval(&mut moe, &head, &mut eval_rng);
    assert!(last < first * 0.5, "{} -> {}", first, last);
}

#[test]
fn every_fault_of_the_experts_is_named() {
    let good = GPTConfig { vocab_size: 16, n_expert: 4, moe_top_k: 2, ..GPTConfig::default() };
    assert_eq!(good.check_moe(), Ok(()));
    let c = GPTConfig { n_expert: 1, ..good };
    assert_eq!(c.check_moe(), Err(MoeConfigError::TooFewExperts));
    let c = GPTConfig { moe_top_k: 5, ..good };
    assert_eq!(c.check_moe(), Err(MoeConfigError::TopKOutOfRange));
    let c = GPTConfig { moe_top_k: 0, ..good };
    assert_eq!(c.check_moe(), Err(MoeConfigError::TopKOutOfRange));
    let c = GPTConfig { moe_capacity_factor: (-1.0f32).to_bits(), ..good };
    assert_eq!(c.check_moe(), Err(MoeConfigError::NegativeCapacity));
    let c = GPTConfig { moe_aux_coef: (-1.0f32).to_bits(), ..good };
    assert_eq!(c.check_moe(), Err(MoeConfigError::NegativeAuxCoef));
    let c = GPTConfig { moe_z_loss_coef: (-1.0f32).to_bits(), ..good };
    assert_eq!(c.check_moe(), Err(MoeConfigError::NegativeZLossCoef));
}

#[test]
fn the_capacity_is_the_share_rounded_up() {
    assert_eq!(round_up(1.5f32.to_bits()), 2);
    assert_eq!(round_up(2.0f32.to_bits()), 2);
    assert_eq!(round_up(0.1f32.to_bits()), 1);
    assert_eq!(expert_capacity(6, 2, 1, 0.5f32.to_bits()), 2);
    assert_eq!(expert_capacity(64, 4, 2, 1.25f32.to_bits()), 40);
    assert_eq!(expert_capacity(64, 4, 2, 0.0f32.to_bits()), usize::MAX);
    assert_eq!(expert_capacity(1, 8, 1, 0.01f32.to_bits()), 1);
}

#[test]
fn nothing_is_lost_on_the_way() {
    let (n, e, k, cap) = (23usize, 5usize, 2usize, 6usize);
    let logits = bits(&rand_x(n, e, 77));
    let plan = top_k_gate(&logits, n, e, k, cap);
    let taken: usize = plan.sel.iter().map(|s| s.len()).sum();
    let routed: usize = plan.routed.iter().sum();
    assert_eq!(taken + plan.dropped, n * k);
    assert_eq!(routed, n * k);
    assert!(plan.sel.iter().all(|s| s.len() <= cap));
    assert!(plan.dropped > 0);
    // The first come are the first served: what an expert takes is a prefix of what chose it.
    let free = top_k_gate(&logits, n, e, k, usize::MAX);
    for j in 0..e {
        assert_eq!(plan.sel[j][..], free.sel[j][..plan.sel[j].len()]);
        assert!(free.sel[j].windows(2).all(|w| w[0] < w[1]));
    }
    let wide = top_k_gate(&logits, n, e, k, n);
    assert_eq!(wide.sel, free.sel);
    assert_eq!(wide.dropped, 0);
}

#[test]
fn merged_statistics_add_up() {
    let a = RouteStats { counts: vec![3, 1], dropped: 2, n_tokens: 4, aux: 1.5f32.to_bits() };
    let b = RouteStats { counts: vec![1, 5], dropped: 0, n_tokens: 4, aux: 2.5f32.to_bits() };
    let m = merge_stats(&[a, b]);
    assert_eq!(m.counts, vec![4, 6]);
    assert_eq!(m.dropped, 2);
    assert_eq!(m.n_tokens, 8);
    assert_eq!(f32::from_bits(m.aux), 2.0);
    let imb = m.imbalance();
    assert!((ratio(&imb) - 1.2).abs() < 1e-12);
    assert!((ratio(&m.dropped_ratio(1)) - 0.25).abs() < 1e-12);
    let none = merge_stats(&[]);
    assert!(none.counts.is_empty());
    assert_eq!(none.n_tokens, 0);
}

#[test]
fn sparse_counts_are_exact() {
    let s = sparse_stats(8, 2, 16, false);
    assert_eq!(s.expert_params, 16 * 64 + 64 + 64 * 16 + 16);
    assert_eq!(s.router_params, 16 * 8 + 8);
    assert_eq!(s.total_params(), 8 * 2128 + 136);
    assert_eq!(s.active_params(), 2 * 2128 + 136);
}

#[test]
fn a_plain_pass_gives_what_the_full_one_gives() {
    let (d, n) = (8usize, 5usize);
    let x = rand_x(n, d, 71);
    let mut layer = build(d, 4, 2, 72);
    let full = run(&mut layer, &x, d).y;
    let plain = layer.forward(&bits(&x), n, d, &exp, &ln, &gelu, &swiglu);
    assert_eq!(full, plain);
    let stats = layer.stats();
    assert_eq!(stats.dropped, 0);
    assert_eq!(stats.counts.iter().sum::<usize>(), n * 2);
}

#[test]
fn a_single_choice_weighs_one() {
    let d = 8;
    let mut layer = build(d, 4, 1, 73);
    layer.switch_gate = false;
    let x = rand_x(3, d, 74);
    let plan = plan_of(&layer, &x, d);
    let y = output(&mut layer, &x, d);
    for t in 0..3 {
        let e = (0..4).find(|e| plan.sel[*e].contains(&t)).expect("an expert takes the token");
        let alone = layer.experts[e].forward(
            &bits(&x[t * d..(t + 1) * d]),
            1,
            d,
            &gelu,
            &swiglu,
        );
        for (a, b) in floats(&alone).iter().zip(&y[t * d..(t + 1) * d]) {
            assert_eq!(a, b);
        }
    }
}
