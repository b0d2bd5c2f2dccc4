use tiny_llm::embedding::Embedding;
use tiny_llm::loss::count_supervised;
use tiny_llm::loss::cross_entropy_grad;
use tiny_llm::loss::cross_entropy_loss;
use tiny_llm::loss::cross_entropy_loss_masked;
use tiny_llm::loss::mean_nll;
use tiny_llm::loss::mse_loss;
use tiny_llm::loss::row_nll;
use tiny_llm::norms::LayerNorm;
use tiny_llm::norms::NormLayer;
use tiny_llm::norms::RMSNorm;
use tiny_llm::optim::power;
use tiny_llm::optim::AdamW;
use tiny_llm::optim::Optimizer;
use tiny_llm::optim::SGD;
use tiny_llm::params::Param;
use tiny_llm::softmax::larger_of;
use tiny_llm::softmax::log_sum_exp;
use tiny_llm::softmax::softmax_rows;

fn bits(v: &[f32]) -> Vec<u32> {
    v.iter().map(|x| x.to_bits()).collect()
}

fn floats(v: &[u32]) -> Vec<f32> {
    v.iter().map(|x| f32::from_bits(*x)).collect()
}

fn exp(v: u32) -> u32 {
    f32::from_bits(v).exp().to_bits()
}

fn ln(v: u32) -> u32 {
    f32::from_bits(v).ln().to_bits()
}

fn param(data: &[f32], grad: &[f32]) -> Param {
    let mut p = Param::param(bits(data), vec![data.len()]);
    p.grad = bits(grad);
    p
}

#[test]
fn plain_descent_takes_one_step() {
    let mut frozen = param(&[5.0], &[1.0]);
    frozen.set_requires_grad(false);
    let mut o = SGD::new(0.5f32.to_bits(), vec![param(&[1.0, 2.0], &[1.0, -2.0]), frozen]);
    o.step();
    let ps = o.into_params();
    assert_eq!(floats(&ps[0].data), vec![0.5, 3.0]);
    assert_eq!(floats(&ps[1].data), vec![5.0]);
}

#[test]
fn the_adaptive_step_follows_its_formula() {
    let (lr, decay) = (0.1f32, 0.01f32);
    let mut o =
        AdamW::new(lr.to_bits(), vec![param(&[1.0, -2.0], &[0.5, -0.25])], decay.to_bits());
    let mut want = vec![1.0f32, -2.0];
    let grads = [0.5f32, -0.25];
    let (b1, b2, eps) = (0.9f32, 0.999f32, 1e-8f32);
    let mut m = [0.0f32; 2];
    let mut v = [0.0f32; 2];
    for t in 1..=3 {
        o.step();
        for i in 0..2 {
            m[i] = b1 * m[i] + (1.0 - b1) * grads[i];
            v[i] = b2 * v[i] + (1.0 - b2) * grads[i] * grads[i];
            let mh = m[i] / (1.0 - b1.powi(t));
            let vh = v[i] / (1.0 - b2.powi(t));
            want[i] -= lr * (mh / (vh.sqrt() + eps) + decay * want[i]);
        }
    }
    for (a, b) in floats(&o.params()[0].data).iter().zip(&want) {
        assert!((a - b).abs() < 1e-5, "{} vs {}", a, b);
    }
    let (t, ms, vs) = o.state();
    assert_eq!((t, ms.len(), vs.len()), (3, 1, 1));
}

#[test]
fn a_restored_state_goes_on_alike() {
    let make = || AdamW::new(0.1f32.to_bits(), vec![param(&[1.0], &[0.5])], 0);
    let mut a = make();
    a.step();
    let (t, m, v) = a.state();
    let (t, m, v) = (t, m.clone(), v.clone());
    let data = a.params()[0].data.clone();
    let mut b = AdamW::new(0.1f32.to_bits(), vec![param(&floats(&data), &[0.5])], 0);
    b.restore_state(t, m, v);
    a.step();
    b.step();
    assert_eq!(a.params()[0].data, b.params()[0].data);
    a.set_lr(0.0f32.to_bits());
    let before = a.params()[0].data.clone();
    a.step();
    assert_eq!(a.params()[0].data, before);
}

#[test]
fn powers_are_products() {
    assert_eq!(f32::from_bits(power(3.0f32.to_bits(), 0)), 1.0);
    assert_eq!(f32::from_bits(power(3.0f32.to_bits(), 4)), 81.0);
    assert_eq!(f32::from_bits(power(0.5f32.to_bits(), 3)), 0.125);
}

#[test]
fn softmax_rows_sum_to_one() {
    let x = bits(&[1.0, 2.0, 3.0, 0.0, 0.0, 0.0]);
    let p = floats(&softmax_rows(&exp, &x, 2, 3));
    let z: f32 = [1.0f32, 2.0, 3.0].iter().map(|v| (v - 3.0).exp()).sum();
    for i in 0..3 {
        let want = ([1.0f32, 2.0, 3.0][i] - 3.0).exp() / z;
        assert!((p[i] - want).abs() < 1e-6);
        assert!((p[3 + i] - 1.0 / 3.0).abs() < 1e-6);
    }
    let l = floats(&log_sum_exp(&exp, &ln, &x, 2, 3));
    assert!((l[0] - (3.0 + z.ln())).abs() < 1e-6);
    assert!((l[1] - 3.0f32.ln()).abs() < 1e-6);
    assert_eq!(f32::from_bits(larger_of(1.0f32.to_bits(), 2.0f32.to_bits())), 2.0);
    assert_eq!(f32::from_bits(larger_of(f32::NAN.to_bits(), 2.0f32.to_bits())), 2.0);
}

#[test]
fn the_loss_is_the_mean_negative_logarithm() {
    let logits = [2.0f32, 1.0, 0.0, 0.0, 3.0, 1.0];
    let targets = [0usize, 2];
    let row = |r: usize| -> f32 {
        let z: f32 = (0..3).map(|j| logits[r * 3 + j].exp()).sum();
        -(logits[r * 3 + targets[r]].exp() / z).ln()
    };
    let got = f32::from_bits(cross_entropy_loss(&bits(&logits), 2, 3, &targets, &exp, &ln));
    assert!((got - (row(0) + row(1)) / 2.0).abs() < 1e-5, "{}", got);

    let one = [true, false];
    let got = f32::from_bits(cross_entropy_loss_masked(
        &bits(&logits),
        2,
        3,
        &targets,
        Some(&one),
        &exp,
        &ln,
    ));
    assert!((got - row(0)).abs() < 1e-5, "{}", got);
    let none = [false, false];
    let got =
        cross_entropy_loss_masked(&bits(&logits), 2, 3, &targets, Some(&none), &exp, &ln);
    assert_eq!(f32::from_bits(got), 0.0);
    assert_eq!(count_supervised(Some(&one), 2), 1);
    assert_eq!(count_supervised(None, 2), 2);
}

#[test]
fn the_gradient_of_the_loss_matches_its_slope() {
    let logits = [2.0f32, 1.0, 0.0, 0.0, 3.0, 1.0];
    let targets = [0usize, 2];
    let mask = [true, false];
    let zero = bits(&[0.0; 6]);
    let g = floats(&cross_entropy_grad(
        &bits(&logits),
        2,
        3,
        &targets,
        Some(&mask),
        1.0f32.to_bits(),
        &zero,
        &exp,
    ));
    for j in 0..6 {
        let at = |d: f32| -> f32 {
            let mut l = logits;
            l[j] += d;
            f32::from_bits(cross_entropy_loss_masked(
                &bits(&l),
                2,
                3,
                &targets,
                Some(&mask),
                &exp,
                &ln,
            ))
        };
        let slope = (at(0.01) - at(-0.01)) / 0.02;
        assert!((g[j] - slope).abs() < 1e-3, "{}: {} vs {}", j, g[j], slope);
    }
    // Rows outside the mask get nothing.
    assert_eq!(g[3..], [0.0, 0.0, 0.0]);
}

#[test]
fn squared_errors_are_averaged() {
    let l = mse_loss(&bits(&[1.0, 2.0, 3.0]), &bits(&[1.0, 0.0, 6.0]));
    assert!((f32::from_bits(l) - 13.0 / 3.0).abs() < 1e-6);
}

#[test]
fn norms_centre_and_scale() {
    let eps = 1e-5f32;
    let x = [1.0f32, 2.0, 3.0, 4.0];
    let n = LayerNorm::new(4, eps.to_bits());
    let y = floats(&n.forward(&bits(&x), 1, 4));
    let sd = (1.25f32 + eps).sqrt();
    for i in 0..4 {
        assert!((y[i] - (x[i] - 2.5) / sd).abs() < 1e-5);
    }
    let r = RMSNorm::new(4, eps.to_bits());
    let y = floats(&r.forward(&bits(&x), 1, 4));
    let rms = (7.5f32 + eps).sqrt();
    for i in 0..4 {
        assert!((y[i] - x[i] / rms).abs() < 1e-5);
    }
    let ln = NormLayer::new(4, eps.to_bits(), false);
    let rms = NormLayer::new(4, eps.to_bits(), true);
    assert!(ln.norm_params().1.is_some() && !ln.norm_params().3);
    assert!(rms.norm_params().1.is_none() && rms.norm_params().3);
    let names: Vec<String> = ln.named_parameters("ln1").into_iter().map(|(n, _)| n).collect();
    assert_eq!(names, vec!["ln1.gamma", "ln1.beta"]);
}

#[test]
fn embeddings_look_rows_up() {
    let e = Embedding::new(3, 2, &bits(&[1.0, 2.0, 3.0, 4.0, 5.0, 6.0]));
    let s = 0.02f32;
    let y = floats(&e.forward(3, 2, &[2, 0]));
    assert_eq!(y, vec![5.0 * s, 6.0 * s, 1.0 * s, 2.0 * s]);
}

#[test]
fn rows_of_a_loss_are_independent() {
    let logits = bits(&[1.0, 2.0, 0.5, -1.0, 0.0, 3.0]);
    let targets = [1usize, 2];
    let rows: Vec<u32> =
        (0..2).map(|i| row_nll(&logits, 2, 3, &targets, None, i, &exp, &ln)).collect();
    let whole = cross_entropy_loss(&logits, 2, 3, &targets, &exp, &ln);
    assert_eq!(mean_nll(&rows, None), whole);
    let other = bits(&[9.0, 9.0, 9.0, -1.0, 0.0, 3.0]);
    assert_eq!(row_nll(&other, 2, 3, &targets, None, 1, &exp, &ln), rows[1]);
    let mask = [false, true];
    assert_eq!(row_nll(&logits, 2, 3, &targets, Some(&mask), 0, &exp, &ln), 0);
    assert_eq!(mean_nll(&[0, rows[1]], Some(&mask)), rows[1]);
}

#[test]
fn probabilities_lie_between_zero_and_one() {
    let x = bits(&[0.0, -0.0, 88.0, -88.0, 1e30, -1e30, 3.0, 3.0, 3.0]);
    let p = softmax_rows(&exp, &x, 3, 3);
    assert!(p.iter().all(|v| *v <= 1.0f32.to_bits()), "{:?}", floats(&p));
    for row in 0..3 {
        let sum: f32 = floats(&p[3 * row..3 * row + 3]).iter().sum();
        assert!((sum - 1.0).abs() < 1e-6);
    }
}

#[test]
fn row_losses_are_not_negative() {
    let x = bits(&[5.0, -2.0, 0.5, 100.0, -100.0, 0.0]);
    for row in 0..2 {
        for t in 0..3 {
            let targets = [t, t];
            let l = f32::from_bits(row_nll(&x, 2, 3, &targets, None, row, &exp, &ln));
            assert!(l >= 0.0, "{}", l);
        }
    }
}

#[test]
fn masked_rows_cost_nothing() {
    let logits = bits(&[0.3, -1.2, 2.0, 0.1, 0.0, -0.5, 1.5, 0.25, -3.0]);
    let targets = [2usize, 0, 1];
    let cost = |l: &[u32], t: &[usize], mask: Option<&[bool]>| {
        cross_entropy_loss_masked(l, 3, 3, t, mask, &exp, &ln)
    };
    let all = [true; 3];
    assert_eq!(cost(&logits, &targets, None), cost(&logits, &targets, Some(&all)));
    assert_eq!(cost(&logits, &targets, None), cross_entropy_loss(&logits, 3, 3, &targets, &exp, &ln));
    let mask = [true, false, true];
    let mut other = logits.clone();
    other[3..6].copy_from_slice(&bits(&[f32::NAN, 1e30, -7.0]));
    assert_eq!(
        cost(&logits, &targets, Some(&mask)),
        cost(&other, &[2, 1, 1], Some(&mask))
    );
}
