use tiny_llm::awq::awq_alpha_grid;
use tiny_llm::awq::awq_best_alpha;
use tiny_llm::awq::awq_fold_weight;
use tiny_llm::awq::awq_quantize;
use tiny_llm::awq::awq_quantize_search;
use tiny_llm::awq::awq_unfold_input;
use tiny_llm::awq::awq_unfold_weight;
use tiny_llm::awq::exponents;
use tiny_llm::awq::first_smallest;
use tiny_llm::awq::output_error_sq;
use tiny_llm::awq::AWQ_ALPHA_GRID_STEP;
use tiny_llm::awq::AWQ_GROUP_SIZE;
use tiny_llm::awq_scaling::awq_scales;
use tiny_llm::calib::Calibration;
use tiny_llm::calib::HessianKind;
use tiny_llm::codes::packed_len;
use tiny_llm::codes::QBits;
use tiny_llm::gptq::gptq_quantize;
use tiny_llm::gptq::gptq_quantize_with_hinv;
use tiny_llm::gptq::order_by_importance;
use tiny_llm::gptq::permute_sym;
use tiny_llm::gptq::GptqOpts;
use tiny_llm::gptq::GPTQ_DAMP;
use tiny_llm::linalg::cholesky;
use tiny_llm::linalg::cholesky_inverse;
use tiny_llm::linalg::cholesky_inverse_upper;
use tiny_llm::qmatrix::QMatrix;
use tiny_llm::quant::quant_error;
use tiny_llm::quant::QAxis;

struct Rng {
    state: u64,
}

impl Rng {
    fn new(seed: u64) -> Rng {
        Rng { state: seed.wrapping_mul(0x9e37_79b9_7f4a_7c15).wrapping_add(0x1234_5678_9abc_def1) }
    }

    fn next_f32(&mut self) -> f32 {
        self.state = self.state.wrapping_add(0x9e37_79b9_7f4a_7c15);
        let mut z = self.state;
        z = (z ^ (z >> 30)).wrapping_mul(0xbf58_476d_1ce4_e5b9);
        z = (z ^ (z >> 27)).wrapping_mul(0x94d0_49bb_1331_11eb);
        z ^= z >> 31;
        (z >> 40) as f32 / (1u64 << 24) as f32
    }

    fn randn(&mut self) -> f32 {
        let u = self.next_f32().max(1e-7);
        let v = self.next_f32();
        (-2.0 * u.ln()).sqrt() * (2.0 * std::f32::consts::PI * v).cos()
    }
}

fn ramp(n: usize) -> Vec<f32> {
    (0..n).map(|i| (i as f32 * 0.37).sin() * (1.0 + i as f32 * 0.01)).collect()
}

fn bits_of(v: &[f32]) -> Vec<u32> {
    v.iter().map(|x| x.to_bits()).collect()
}

fn floats(v: &[u32]) -> Vec<f32> {
    v.iter().map(|x| f32::from_bits(*x)).collect()
}

fn exp(v: u32) -> u32 {
    f32::from_bits(v).exp().to_bits()
}

fn ln(v: u32) -> u32 {
    f32::from_bits(v).ln().to_bits()
}

fn scales_of(act: &[f32], alpha: f32, group: usize) -> Vec<f32> {
    floats(&awq_scales(&bits_of(act), alpha.to_bits(), group, &ln, &exp))
}

fn quantize_at(
    w: &[f32],
    rows: usize,
    cols: usize,
    bits: QBits,
    act: &[f32],
    alpha: f32,
) -> (QMatrix, Vec<f32>) {
    let act = bits_of(act);
    let (q, s) =
        awq_quantize(&bits_of(w), rows, cols, bits, QAxis::Col, &act, alpha.to_bits(), &ln, &exp);
    (q, floats(&s))
}

fn values(q: &QMatrix) -> Vec<f32> {
    floats(&q.dequantize())
}

fn unfolded(q: &QMatrix, rows: usize, cols: usize, s: &[f32]) -> Vec<f32> {
    floats(&awq_unfold_weight(&q.dequantize(), rows, cols, &bits_of(s)))
}

fn relative(w: &[f32], wq: &[f32]) -> f32 {
    f32::from_bits(quant_error(&bits_of(w), &bits_of(wq)).relative)
}

fn random_spd(n: usize, seed: u64) -> Vec<f32> {
    let mut rng = Rng::new(seed);
    let m: Vec<f32> = (0..n * n).map(|_| rng.randn()).collect();
    let mut a = vec![0.0f32; n * n];
    for i in 0..n {
        for j in 0..n {
            let mut s = 0.0f32;
            for k in 0..n {
                s += m[i * n + k] * m[j * n + k];
            }
            a[i * n + j] = s + if i == j { n as f32 } else { 0.0 };
        }
    }
    a
}

fn mul(a: &[f32], b: &[f32], m: usize, k: usize, n: usize) -> Vec<f32> {
    let mut out = vec![0.0f32; m * n];
    for i in 0..m {
        for j in 0..n {
            let mut s = 0.0f32;
            for t in 0..k {
                s += a[i * k + t] * b[t * n + j];
            }
            out[i * n + j] = s;
        }
    }
    out
}

fn weighted_error(err: &[f32], h: &[f32], rows: usize, cols: usize) -> f32 {
    let mut total = 0.0f32;
    for b in 0..cols {
        for j in 0..rows {
            for k in 0..rows {
                total += err[j * cols + b] * h[j * rows + k] * err[k * cols + b];
            }
        }
    }
    total
}

fn correlated_inputs(tokens: usize, rows: usize, rho: f32, seed: u64) -> (Vec<f32>, Vec<f32>) {
    let mut rng = Rng::new(seed);
    let s = (1.0 - rho * rho).sqrt();
    let mut x = vec![0.0f32; tokens * rows];
    for t in 0..tokens {
        let mut prev = rng.randn();
        for j in 0..rows {
            prev = rho * prev + s * rng.randn();
            x[t * rows + j] = prev;
        }
    }
    let mut h = vec![0.0f32; rows * rows];
    for t in 0..tokens {
        for j in 0..rows {
            for k in 0..rows {
                h[j * rows + k] += x[t * rows + j] * x[t * rows + k];
            }
        }
    }
    (x, h)
}

fn compensated(
    w: &[f32],
    rows: usize,
    cols: usize,
    bits: QBits,
    hessian: &HessianKind,
    opts: &GptqOpts,
) -> QMatrix {
    gptq_quantize(&bits_of(w), rows, cols, bits, QAxis::Col, hessian, opts)
}

fn rounded(w: &[f32], rows: usize, cols: usize, bits: QBits) -> QMatrix {
    QMatrix::quantize(&bits_of(w), rows, cols, bits, QAxis::Col)
}

fn full(h: &[f32]) -> HessianKind {
    HessianKind::Full(bits_of(h))
}

fn error_of(q: &QMatrix, w: &[f32], h: &[f32], rows: usize, cols: usize) -> f32 {
    let d = values(q);
    let e: Vec<f32> = w.iter().zip(&d).map(|(a, b)| a - b).collect();
    weighted_error(&e, h, rows, cols).sqrt()
}

fn all_finite(q: &QMatrix) -> bool {
    values(q).iter().all(|v| v.is_finite())
}

#[test]
fn cholesky_inverse_is_correct() {
    let n = 6;
    let a = random_spd(n, 2024);
    let l = floats(&cholesky(&bits_of(&a), n).expect("a definite matrix has a factor"));

    for i in 0..n {
        for j in (i + 1)..n {
            assert_eq!(l[i * n + j], 0.0);
        }
    }
    let mut lt = vec![0.0f32; n * n];
    for i in 0..n {
        for j in 0..n {
            lt[i * n + j] = l[j * n + i];
        }
    }
    let a_rec = mul(&l, &lt, n, n, n);
    for (x, y) in a.iter().zip(&a_rec) {
        assert!((x - y).abs() < 1e-4, "{} vs {}", x, y);
    }

    let inv = floats(&cholesky_inverse_upper(&bits_of(&l), n));
    for i in 0..n {
        for j in 0..n {
            assert!((inv[i * n + j] - inv[j * n + i]).abs() < 1e-6);
        }
    }
    let eye = mul(&a, &inv, n, n, n);
    for i in 0..n {
        for j in 0..n {
            let want = if i == j { 1.0 } else { 0.0 };
            assert!((eye[i * n + j] - want).abs() < 1e-4, "{}", eye[i * n + j]);
        }
    }

    let neg_i: Vec<f32> = (0..n * n).map(|i| if i / n == i % n { -1.0 } else { 0.0 }).collect();
    assert!(cholesky(&bits_of(&neg_i), n).is_none());
    assert!(cholesky(&bits_of(&vec![0.0f32; n * n]), n).is_none());
}

#[test]
fn gptq_beats_rtn_on_weighted_error() {
    let (rows, cols, tokens) = (32, 32, 256);
    let mut rng = Rng::new(7);
    let w: Vec<f32> = (0..rows * cols).map(|_| rng.randn()).collect();
    let (_x, h) = correlated_inputs(tokens, rows, 0.9, 11);
    let hess = full(&h);
    for bits in [QBits::Int8, QBits::Int4] {
        let rtn = rounded(&w, rows, cols, bits);
        let gptq = compensated(&w, rows, cols, bits, &hess, &GptqOpts::default());
        let rel_rtn = error_of(&rtn, &w, &h, rows, cols);
        let rel_gptq = error_of(&gptq, &w, &h, rows, cols);
        assert!(rel_gptq < rel_rtn * 0.8, "[{}] {} vs {}", bits.name(), rel_gptq, rel_rtn);
        assert!(all_finite(&gptq));
    }
}

#[test]
fn gptq_falls_back_to_rtn_on_singular_hessian() {
    let (rows, cols) = (8, 8);
    let w = ramp(rows * cols);
    let opts = GptqOpts::default();
    for bits in [QBits::Int8, QBits::Int4] {
        let rtn = rounded(&w, rows, cols, bits);

        let q1 = compensated(&w, rows, cols, bits, &full(&vec![0.0f32; rows * rows]), &opts);
        assert_eq!(values(&q1), values(&rtn));

        let mut nan_h = vec![0.0f32; rows * rows];
        for i in 0..rows {
            nan_h[i * rows + i] = f32::NAN;
        }
        let q2 = compensated(&w, rows, cols, bits, &full(&nan_h), &opts);
        assert!(all_finite(&q2));
        assert_eq!(values(&q2), values(&rtn));

        let neg_h: Vec<f32> =
            (0..rows * rows).map(|i| if i / rows == i % rows { -1.0 } else { 0.0 }).collect();
        let q3 = compensated(&w, rows, cols, bits, &full(&neg_h), &opts);
        assert_eq!(values(&q3), values(&rtn));

        let diag: Vec<f32> = (0..rows).map(|i| 1.0 + i as f32 * 0.1).collect();
        let q4 = compensated(&w, rows, cols, bits, &HessianKind::Diagonal(bits_of(&diag)), &opts);
        assert_eq!(values(&q4), values(&rtn));
    }
}

#[test]
fn broken_matrices_have_no_factor() {
    assert!(cholesky(&bits_of(&[f32::INFINITY]), 1).is_none());
    assert!(cholesky(&bits_of(&[f32::NAN]), 1).is_none());
    for bad in [f32::NAN, f32::INFINITY, f32::NEG_INFINITY] {
        assert!(cholesky(&bits_of(&[1.0, bad, bad, 1.0]), 2).is_none());
        assert!(cholesky_inverse(&bits_of(&[1.0, bad, bad, 1.0]), 2, 0).is_none());
    }
    // A zero on the diagonal spreads nowhere.
    let r = floats(&cholesky_inverse_upper(&bits_of(&[1.0, 0.0, 1.0, 0.0]), 2));
    assert_eq!(r, vec![1.0, 0.0, 0.0, 0.0]);
}

#[test]
fn tiny_scales_round_alike_without_an_inverse() {
    let one = f32::from_bits(1);
    let w: Vec<f32> = [3.0, -1.0, 0.0, 2.0, 5.0, -5.0].iter().map(|k| k * one).collect();
    for bits in [QBits::Int8, QBits::Int4] {
        let rtn = rounded(&w, 2, 3, bits);
        let q = compensated(&w, 2, 3, bits, &full(&[0.0; 4]), &GptqOpts::default());
        assert_eq!((q.bytes(), q.scales()), (rtn.bytes(), rtn.scales()));
        assert_eq!(values(&q), w);
    }
}

#[test]
fn compensation_leaves_the_column_scales_alone() {
    let (rows, cols) = (8, 5);
    let w = ramp(rows * cols);
    let h = full(&random_spd(rows, 11));
    for bits in [QBits::Int8, QBits::Int4] {
        let rtn = rounded(&w, rows, cols, bits);
        let q = compensated(&w, rows, cols, bits, &h, &GptqOpts::default());
        assert_eq!(q.scales(), rtn.scales());
        assert_eq!(q.byte_len(), rtn.byte_len());
        for (i, v) in values(&q).iter().enumerate() {
            assert!(v.abs() <= f32::from_bits(q.scales()[i % cols]));
        }
    }
}

#[test]
fn gptq_damp_rescues_singular_hessian() {
    let n = 8;
    let mut h = vec![0.0f32; n * n];
    h[0] = 2.0;
    h[1] = 1.0;
    h[n] = 1.0;
    h[n + 1] = 2.0;
    assert!(cholesky(&bits_of(&h), n).is_none());

    let damp = f32::from_bits(GPTQ_DAMP) * (2.0 + 2.0) / n as f32;
    let mut damped = h.clone();
    for i in 0..n {
        damped[i * n + i] += damp;
    }
    assert!(cholesky(&bits_of(&damped), n).is_some());

    let (rows, cols) = (n, 16);
    let w = ramp(rows * cols);
    let hess = full(&h);
    for bits in [QBits::Int8, QBits::Int4] {
        let rtn = rounded(&w, rows, cols, bits);
        let no_damp = compensated(
            &w,
            rows,
            cols,
            bits,
            &hess,
            &GptqOpts { damp: 0.0f32.to_bits(), ..GptqOpts::default() },
        );
        assert_eq!(values(&no_damp), values(&rtn));

        let with_damp = compensated(&w, rows, cols, bits, &hess, &GptqOpts::default());
        assert!(all_finite(&with_damp));
        assert_eq!(with_damp.axis(), QAxis::Col);
        assert_eq!((with_damp.rows(), with_damp.cols()), (rows, cols));
        assert_eq!(with_damp.scales().len(), cols);
        assert_eq!(with_damp.byte_len(), rtn.byte_len());
    }
}

#[test]
fn gptq_act_order_runs_both_ways() {
    let (rows, cols, tokens) = (24, 20, 192);
    let mut rng = Rng::new(101);
    let w: Vec<f32> = (0..rows * cols).map(|_| rng.randn()).collect();
    let mut x = vec![0.0f32; tokens * rows];
    for t in 0..tokens {
        for j in 0..rows {
            x[t * rows + j] = rng.randn() * 0.6f32.powi(j as i32 / 3);
        }
    }
    let mut h = vec![0.0f32; rows * rows];
    for t in 0..tokens {
        for j in 0..rows {
            for k in 0..rows {
                h[j * rows + k] += x[t * rows + j] * x[t * rows + k];
            }
        }
    }
    let hess = full(&h);
    for bits in [QBits::Int8, QBits::Int4] {
        let rtn = rounded(&w, rows, cols, bits);
        let rel_rtn = error_of(&rtn, &w, &h, rows, cols);
        let mut results = Vec::new();
        for act_order in [false, true] {
            let opts = GptqOpts { act_order, ..GptqOpts::default() };
            let q = compensated(&w, rows, cols, bits, &hess, &opts);
            assert!(all_finite(&q));
            assert_eq!(q.axis(), QAxis::Col);
            assert_eq!((q.rows(), q.cols()), (rows, cols));
            assert_eq!(q.scales().len(), cols);
            assert_eq!(q.bytes().len(), packed_len(rows * cols, bits));
            let r = error_of(&q, &w, &h, rows, cols);
            assert!(r < rel_rtn, "[{}] {}: {} vs {}", bits.name(), act_order, r, rel_rtn);
            results.push((act_order, r));
        }
        assert!(results[1].1 <= results[0].1 * 1.05, "{} vs {}", results[0].1, results[1].1);
    }
}

#[test]
fn gptq_block_size_does_not_change_result() {
    let (rows, cols, tokens) = (16, 24, 160);
    let mut rng = Rng::new(202);
    let w: Vec<f32> = (0..rows * cols).map(|_| rng.randn()).collect();
    let (_x, h) = correlated_inputs(tokens, rows, 0.85, 5);
    let hess = full(&h);
    for bits in [QBits::Int8, QBits::Int4] {
        let rtn = rounded(&w, rows, cols, bits);
        let rel_rtn = error_of(&rtn, &w, &h, rows, cols);
        let mut base: Option<f32> = None;
        for block in [0usize, 1, 4, 16] {
            let opts = GptqOpts { block, ..GptqOpts::default() };
            let q = compensated(&w, rows, cols, bits, &hess, &opts);
            assert!(all_finite(&q));
            assert_eq!(q.byte_len(), rtn.byte_len());
            let r = error_of(&q, &w, &h, rows, cols);
            assert!(r < rel_rtn * 0.9, "[{}] {}: {} vs {}", bits.name(), block, r, rel_rtn);
            match base {
                None => base = Some(r),
                Some(b) => assert!((r - b).abs() <= b * 0.02, "{}: {} vs {}", block, r, b),
            }
        }
    }
}

#[test]
fn awq_alpha_zero_matches_rtn_bit_exact() {
    let (rows, cols) = (10, 12);
    let w = ramp(rows * cols);
    let act: Vec<f32> = (0..rows).map(|j| 0.3 + j as f32 * 1.1).collect();
    let s = scales_of(&act, 0.0, rows);
    assert!(s.iter().all(|v| *v == 1.0));
    for bits in [QBits::Int8, QBits::Int4] {
        let rtn = rounded(&w, rows, cols, bits);
        let (q, s2) = quantize_at(&w, rows, cols, bits, &act, 0.0);
        assert_eq!(s2, s);
        assert_eq!(values(&q), values(&rtn));
    }
}

#[test]
fn awq_fold_and_unfold_are_inverse() {
    let (rows, cols) = (9, 13);
    let w = ramp(rows * cols);
    let s: Vec<f32> = (0..rows).map(|i| 0.25 + i as f32 * 0.37).collect();

    let folded = awq_fold_weight(&bits_of(&w), rows, cols, &bits_of(&s));
    let back = floats(&awq_unfold_weight(&folded, rows, cols, &bits_of(&s)));
    for (i, (a, b)) in w.iter().zip(&back).enumerate() {
        assert!((a - b).abs() < 1e-5, "{}: {} vs {}", i, a, b);
    }

    let ones = bits_of(&vec![1.0f32; rows]);
    assert_eq!(awq_fold_weight(&bits_of(&w), rows, cols, &ones), bits_of(&w));
    assert_eq!(awq_unfold_weight(&bits_of(&w), rows, cols, &ones), bits_of(&w));

    let (q, s) = quantize_at(&w, rows, cols, QBits::Int4, &s, 0.5);
    let equiv = unfolded(&q, rows, cols, &s);
    let e_equiv = relative(&w, &equiv);
    assert!(e_equiv.is_finite() && e_equiv > 0.0);
}

#[test]
fn awq_alpha_search_picks_the_best_grid_point() {
    let (rows, cols) = (16, 18);
    let mut rng = Rng::new(303);
    let w: Vec<f32> = (0..rows * cols).map(|_| rng.randn()).collect();
    let act: Vec<f32> = (0..rows).map(|j| 0.05 + 4.0f32.powi(j as i32 % 7 - 3)).collect();

    let grid = floats(&awq_alpha_grid());
    assert_eq!(grid.first(), Some(&0.0));
    assert_eq!(grid.last(), Some(&1.0));
    assert_eq!(grid.len(), 21);
    let step = f32::from_bits(AWQ_ALPHA_GRID_STEP);
    assert!(grid.windows(2).all(|w| (w[1] - w[0] - step).abs() < 1e-6));

    for bits in [QBits::Int8, QBits::Int4] {
        let equiv_err = |alpha: f32| {
            let (q, s) = quantize_at(&w, rows, cols, bits, &act, alpha);
            relative(&w, &unfolded(&q, rows, cols, &s))
        };
        let (q, s, alpha) = awq_quantize_search(
            &bits_of(&w),
            rows,
            cols,
            bits,
            QAxis::Col,
            &bits_of(&act),
            &[],
            &ln,
            &exp,
        );
        let (s, alpha) = (floats(&s), f32::from_bits(alpha));
        assert!(grid.contains(&alpha));
        assert_eq!(s.len(), rows);
        assert_eq!(q.scales().len(), cols);
        let best = relative(&w, &unfolded(&q, rows, cols, &s));
        let rtn = equiv_err(0.0);
        assert!(best <= rtn + 1e-9, "{} vs {}", best, rtn);
        for &a in &grid {
            let e = equiv_err(a);
            assert!(best <= e + 1e-6, "{}: {} < {}", a, e, best);
        }
        // Without given exponents the grid is searched.
        assert_eq!(floats(&exponents(&[])), grid);
        // A grid of one's own is searched as given, and the first of equals wins.
        let (q2, s2, found) = awq_quantize_search(
            &bits_of(&w),
            rows,
            cols,
            bits,
            QAxis::Col,
            &bits_of(&act),
            &bits_of(&[0.5, 0.5]),
            &ln,
            &exp,
        );
        let (half, scales) = quantize_at(&w, rows, cols, bits, &act, 0.5);
        assert_eq!((q2.bytes(), floats(&s2), f32::from_bits(found)), (half.bytes(), scales, 0.5));
    }
}

#[test]
fn gptq_partial_bits_roundtrip() {
    let (rows, cols) = (16, 12);
    let w = ramp(rows * cols);
    let hess = full(&random_spd(rows, 31));
    for bits in [QBits::Int8, QBits::Int4] {
        let q = compensated(&w, rows, cols, bits, &hess, &GptqOpts::default());
        assert_eq!(q.axis(), QAxis::Col);
        assert_eq!((q.rows(), q.cols()), (rows, cols));
        assert_eq!(q.scales().len(), cols);
        let scales = floats(q.scales());
        assert!(scales.iter().all(|s| s.is_finite() && *s > 0.0));
        assert_eq!(q.byte_len(), q.bytes().len() + cols * 4);
        assert_eq!(q.bytes().len(), packed_len(rows * cols, bits));

        let back = values(&q);
        assert_eq!(back.len(), rows * cols);
        assert!(back.iter().all(|v| v.is_finite()));
        let again =
            QMatrix::quantize_with_scales(&bits_of(&back), rows, cols, bits, QAxis::Col, q.scales());
        for (a, b) in values(&again).iter().zip(&back) {
            assert!((a - b).abs() <= 1e-6, "{} vs {}", a, b);
        }
        for c in 0..cols {
            let m = (0..rows).map(|r| back[r * cols + c].abs()).fold(0.0f32, f32::max);
            assert!(m <= scales[c] * (1.0 + 1e-5));
        }
    }
}

#[test]
fn awq_scales_are_group_normalized() {
    let act = vec![1.0f32, 2.0, 4.0, 8.0, 0.5, 0.25, 16.0, 32.0];
    let s = scales_of(&act, 0.5, 4);
    assert_eq!(s.len(), act.len());
    for g in 0..2 {
        let seg: Vec<f32> = s[g * 4..(g + 1) * 4].to_vec();
        let mean_log = seg.iter().map(|v| v.ln()).sum::<f32>() / 4.0;
        assert!(mean_log.abs() < 1e-4, "{}", mean_log);
        for i in 0..4 {
            for j in (i + 1)..4 {
                let (a, b) = (act[g * 4 + i], act[g * 4 + j]);
                if a > b {
                    assert!(seg[i] > seg[j]);
                }
            }
        }
    }
    let s1 = scales_of(&act, 1.0, 4);
    let ratio = s1[3] / s1[0];
    assert!((ratio - 8.0).abs() < 1e-3, "{}", ratio);
    assert!(scales_of(&act, 0.0, 4).iter().all(|v| (v - 1.0).abs() < 1e-6));
    let z = scales_of(&vec![0.0f32; 4], 0.5, 4);
    assert!(z.iter().all(|v| v.is_finite() && *v > 0.0));
}

#[test]
fn awq_weight_input_folding_is_equivalent() {
    let (inputs, out, n) = (10, 6, 5);
    let mut rng = Rng::new(1234);
    let w: Vec<f32> = (0..inputs * out).map(|_| rng.randn()).collect();
    let x: Vec<f32> = (0..n * inputs).map(|_| rng.randn() * 2.0).collect();
    let act: Vec<f32> = (0..inputs).map(|j| 0.1 + j as f32 * 0.7).collect();
    let s = scales_of(&act, 0.5, inputs);
    assert_eq!(s.len(), inputs);

    let folded = floats(&awq_fold_weight(&bits_of(&w), inputs, out, &bits_of(&s)));
    let scaled = floats(&awq_unfold_input(&bits_of(&x), inputs, &bits_of(&s)));
    let y0 = mul(&x, &w, n, inputs, out);
    let y1 = mul(&scaled, &folded, n, inputs, out);
    for (i, (a, b)) in y0.iter().zip(&y1).enumerate() {
        assert!((a - b).abs() < 1e-3, "{}: {} vs {}", i, a, b);
    }

    let (q, s2) = quantize_at(&w, inputs, out, QBits::Int8, &act, 0.5);
    assert_eq!(s, s2);
    assert_eq!(q.scales().len(), out);
    let d = values(&q);
    let scale_of_w = w.iter().fold(0.0f32, |m, v| m.max(v.abs()));
    let scale_of_d = d.iter().fold(0.0f32, |m, v| m.max(v.abs()));
    assert!(scale_of_d < scale_of_w * 4.0, "{} vs {}", scale_of_d, scale_of_w);
}

fn gauss_jordan_inverse(a: &[f32], n: usize) -> Vec<f32> {
    let mut m = a.to_vec();
    let mut inv = vec![0.0f32; n * n];
    for i in 0..n {
        inv[i * n + i] = 1.0;
    }
    for col in 0..n {
        let mut piv = col;
        for r in (col + 1)..n {
            if m[r * n + col].abs() > m[piv * n + col].abs() {
                piv = r;
            }
        }
        if piv != col {
            for k in 0..n {
                m.swap(col * n + k, piv * n + k);
                inv.swap(col * n + k, piv * n + k);
            }
        }
        let d = m[col * n + col];
        for k in 0..n {
            m[col * n + k] /= d;
            inv[col * n + k] /= d;
        }
        for r in 0..n {
            if r == col {
                continue;
            }
            let f = m[r * n + col];
            if f == 0.0 {
                continue;
            }
            for k in 0..n {
                m[r * n + k] -= f * m[col * n + k];
                inv[r * n + k] -= f * inv[col * n + k];
            }
        }
    }
    inv
}

fn rel_frobenius(a: &[f32], b: &[f32]) -> f32 {
    let diff: f32 = a.iter().zip(b).map(|(x, y)| (x - y) * (x - y)).sum();
    let norm: f32 = b.iter().map(|v| v * v).sum();
    assert!(norm > 0.0);
    (diff / norm).sqrt()
}

fn inverse(h: &[f32], n: usize, damp: f32) -> Option<Vec<f32>> {
    match cholesky_inverse(&bits_of(h), n, damp.to_bits()) {
        Some(v) => Some(floats(&v)),
        None => None,
    }
}

#[test]
fn test_cholesky_inverse_matches_explicit_inverse() {
    let n = 7;
    let a = random_spd(n, 20240921);
    let inv = inverse(&a, n, 0.0).expect("a definite matrix has an inverse");
    let rel = rel_frobenius(&inv, &gauss_jordan_inverse(&a, n));
    assert!(rel < 1e-3, "{}", rel);
    for i in 0..n {
        for j in 0..n {
            assert!((inv[i * n + j] - inv[j * n + i]).abs() < 1e-5);
        }
    }

    let damp = 0.25;
    let mut shifted = a.clone();
    for i in 0..n {
        shifted[i * n + i] += damp;
    }
    let inv_d = inverse(&a, n, damp).expect("damped, it has one too");
    let rel_d = rel_frobenius(&inv_d, &gauss_jordan_inverse(&shifted, n));
    assert!(rel_d < 1e-3, "{}", rel_d);

    let neg_i: Vec<f32> = (0..n * n).map(|i| if i / n == i % n { -1.0 } else { 0.0 }).collect();
    assert!(inverse(&neg_i, n, 0.0).is_none());
    assert!(inverse(&vec![0.0f32; n * n], n, 0.0).is_none());
    let mut nan_h = a.clone();
    nan_h[0] = f32::NAN;
    assert!(inverse(&nan_h, n, 1.0).is_none());
    let rescued = inverse(&neg_i, n, 2.0).expect("enough damping makes it definite");
    assert!(rescued.iter().all(|v| v.is_finite()));
}

fn observed(cal: &mut Calibration, x: &[f32], rows: usize) {
    cal.observe(&bits_of(x), rows);
}

#[test]
fn merged_statistics_are_those_of_all_rows() {
    // Rows one by one, whatever they hold.
    let mut rng = Rng::new(77);
    let x: Vec<f32> = (0..5 * 3).map(|_| rng.randn()).collect();
    let mut all = Calibration::zeros(3);
    observed(&mut all, &x, 5);
    let mut merged = Calibration::zeros(3);
    for row in x.chunks(3) {
        let mut one = Calibration::zeros(3);
        observed(&mut one, row, 1);
        merged.merge(&one);
    }
    assert_eq!((merged.n_tokens(), merged.hessian()), (5, all.hessian()));
    assert_eq!(merged.act_abs_mean(), all.act_abs_mean());
    // Batches of small whole numbers, which no sum rounds.
    let y: Vec<f32> = (0..6 * 3).map(|i| (i % 7) as f32 - 3.0).collect();
    let (mut first, mut second, mut both) =
        (Calibration::zeros(3), Calibration::zeros(3), Calibration::zeros(3));
    observed(&mut first, &y[..6], 2);
    observed(&mut second, &y[6..], 4);
    observed(&mut both, &y, 6);
    first.merge(&second);
    assert_eq!((first.n_tokens(), first.hessian()), (6, both.hessian()));
    assert_eq!(first.act_abs_mean(), both.act_abs_mean());
}

#[test]
fn merged_batches_agree_up_to_rounding() {
    let mut rng = Rng::new(78);
    let x: Vec<f32> = (0..8 * 3).map(|_| rng.randn()).collect();
    let (mut first, mut second, mut both) =
        (Calibration::zeros(3), Calibration::zeros(3), Calibration::zeros(3));
    observed(&mut first, &x[..9], 3);
    observed(&mut second, &x[9..], 5);
    observed(&mut both, &x, 8);
    first.merge(&second);
    assert_eq!(first.n_tokens(), 8);
    let (merged, whole) = (floats(&first.hessian()), floats(&both.hessian()));
    assert_eq!(merged.len(), 9);
    for (a, b) in merged.iter().zip(&whole) {
        assert!((a - b).abs() < 1e-5, "{a} {b}");
    }
    for (a, b) in floats(&first.act_abs_mean()).iter().zip(floats(&both.act_abs_mean())) {
        assert!((a - b).abs() < 1e-5, "{a} {b}");
    }
}

#[test]
fn test_gptq_beats_rtn_on_hessian_weighted_error() {
    let (rows, cols, tokens) = (24, 16, 256);
    for seed in 0..4u64 {
        let mut rng = Rng::new(9000 + seed);
        let w: Vec<f32> = (0..rows * cols).map(|_| rng.randn()).collect();
        let (x, _h) = correlated_inputs(tokens, rows, 0.85, 300 + seed);
        let mut cal = Calibration::zeros(rows);
        observed(&mut cal, &x, tokens);
        assert_eq!(cal.n_tokens(), tokens);
        let h = floats(&cal.mean_hessian());
        let trace = (0..rows).map(|i| h[i * rows + i]).sum::<f32>();
        let hinv = inverse(&h, rows, f32::from_bits(GPTQ_DAMP) * trace / rows as f32)
            .expect("damped, it is definite");
        for bits in [QBits::Int8, QBits::Int4] {
            let rtn = rounded(&w, rows, cols, bits);
            let gptq =
                gptq_quantize_with_hinv(&bits_of(&w), rows, cols, bits, QAxis::Col, &bits_of(&hinv));
            let a = error_of(&gptq, &w, &h, rows, cols);
            let b = error_of(&rtn, &w, &h, rows, cols);
            assert!(a < b, "[{}] seed {}: {} vs {}", bits.name(), seed, a, b);
            assert!(all_finite(&gptq));
        }
    }
}

#[test]
fn test_gptq_reduces_output_error_on_calibration_data() {
    let (rows, cols, tokens) = (20, 12, 192);
    let mut rng = Rng::new(5150);
    let w: Vec<f32> = (0..rows * cols).map(|_| rng.randn()).collect();
    let (x, h) = correlated_inputs(tokens, rows, 0.9, 61);
    let mut cal = Calibration::zeros(rows);
    observed(&mut cal, &x[..(tokens / 2) * rows], tokens / 2);
    observed(&mut cal, &x[(tokens / 2) * rows..], tokens - tokens / 2);
    assert_eq!(cal.n_tokens(), tokens);
    let h_mean = floats(&cal.mean_hessian());
    for (i, (a, b)) in h_mean.iter().zip(&h).enumerate() {
        let want = b / tokens as f32;
        assert!((a - want).abs() <= 1e-3 * want.abs().max(1.0), "{}: {} vs {}", i, a, want);
    }
    let trace = (0..rows).map(|i| h_mean[i * rows + i]).sum::<f32>();
    let hinv = inverse(&h_mean, rows, f32::from_bits(GPTQ_DAMP) * trace / rows as f32)
        .expect("damped, it is definite");
    let sq = |wq: &[f32]| {
        f32::from_bits(output_error_sq(&bits_of(&x), &bits_of(&w), &bits_of(wq), tokens, rows, cols))
    };
    for bits in [QBits::Int8, QBits::Int4] {
        let rtn = rounded(&w, rows, cols, bits);
        let gptq =
            gptq_quantize_with_hinv(&bits_of(&w), rows, cols, bits, QAxis::Col, &bits_of(&hinv));
        let (a, b) = (sq(&values(&gptq)), sq(&values(&rtn)));
        assert!(a < b, "[{}] {} vs {}", bits.name(), a, b);
    }
}

#[test]
fn test_awq_best_alpha_beats_rtn_on_heavy_tailed_activations() {
    let (rows, cols, tokens) = (32, 24, 128);
    let mut rng = Rng::new(909);
    let w: Vec<f32> = (0..rows * cols).map(|_| rng.randn()).collect();
    let mut x = vec![0.0f32; tokens * rows];
    for t in 0..tokens {
        for j in 0..rows {
            let gain = if j % 8 == 0 { 100.0 } else { 1.0 };
            x[t * rows + j] = rng.randn() * gain;
        }
    }
    let mut cal = Calibration::zeros(rows);
    observed(&mut cal, &x, tokens);
    let act = floats(&cal.act_abs_mean());
    assert!(act[0] > 10.0 * act[1], "{} vs {}", act[0], act[1]);

    let grid = awq_alpha_grid();
    let sq = |wq: &[f32]| {
        f32::from_bits(output_error_sq(&bits_of(&x), &bits_of(&w), &bits_of(wq), tokens, rows, cols))
    };
    for bits in [QBits::Int4, QBits::Int8] {
        let (alpha, q, s) = awq_best_alpha(
            &bits_of(&w),
            rows,
            cols,
            bits,
            QAxis::Col,
            &bits_of(&act),
            &bits_of(&x),
            tokens,
            &[],
            &ln,
            &exp,
        );
        assert!(grid.contains(&alpha));
        let (alpha, s) = (f32::from_bits(alpha), floats(&s));
        assert_eq!(s.len(), rows);
        assert_eq!(q.scales().len(), cols);
        let equiv = unfolded(&q, rows, cols, &s);
        let rtn = rounded(&w, rows, cols, bits);
        let (a, b) = (sq(&equiv), sq(&values(&rtn)));
        assert!(a < b, "[{}] {} vs {}", bits.name(), a, b);
        assert!(alpha > 0.0);
    }
    // Without given exponents the grid is searched.
    assert_eq!(exponents(&[]), grid);
}

#[test]
fn test_awq_scaling_is_exactly_invertible() {
    let (rows, cols, n) = (16, 10, 12);
    let mut rng = Rng::new(6161);
    let w: Vec<f32> = (0..rows * cols).map(|_| rng.randn()).collect();
    let x: Vec<f32> = (0..n * rows).map(|_| rng.randn() * 1.5).collect();
    let act: Vec<f32> = (0..rows).map(|j| if j % 4 == 0 { 50.0 } else { 0.4 }).collect();
    let s = scales_of(&act, 0.5, rows);
    assert_eq!(s.len(), rows);

    let y0 = mul(&x, &w, n, rows, cols);
    let folded = floats(&awq_fold_weight(&bits_of(&w), rows, cols, &bits_of(&s)));
    let scaled_x = floats(&awq_unfold_input(&bits_of(&x), rows, &bits_of(&s)));
    let rel = rel_frobenius(&mul(&scaled_x, &folded, n, rows, cols), &y0);
    assert!(rel < 1e-4, "{}", rel);
    let back = floats(&awq_unfold_weight(&bits_of(&folded), rows, cols, &bits_of(&s)));
    for (i, (a, b)) in w.iter().zip(&back).enumerate() {
        assert!((a - b).abs() < 1e-5 * a.abs().max(1.0), "{}: {} vs {}", i, a, b);
    }

    let (q, s2) = quantize_at(&w, rows, cols, QBits::Int4, &act, 0.5);
    assert_eq!(s, s2);
    let equiv = unfolded(&q, rows, cols, &s);
    let rel_eq = rel_frobenius(&mul(&x, &equiv, n, rows, cols), &y0);
    let rel_folded = rel_frobenius(&mul(&x, &values(&q), n, rows, cols), &y0);
    assert!(rel_eq < rel_folded * 0.5, "{} vs {}", rel_eq, rel_folded);
}

#[test]
fn test_calibration_accumulates_hessian_and_activation_mean() {
    let in_features = 3;
    let x1 = [1.0f32, -2.0, 3.0, 0.5, 0.25, -1.0];
    let x2 = [-4.0f32, 1.5, 0.5];
    let chan: [[f32; 3]; 3] = [[1.0, 0.5, -4.0], [-2.0, 0.25, 1.5], [3.0, -1.0, 0.5]];

    let mut a = Calibration::zeros(in_features);
    observed(&mut a, &x1, 2);
    observed(&mut a, &x2, 1);
    assert_eq!(a.n_tokens(), 3);
    assert_eq!(a.in_features(), in_features);

    let h = floats(a.hessian());
    for j in 0..in_features {
        for k in 0..in_features {
            let want: f32 = chan[j].iter().zip(&chan[k]).map(|(p, q)| p * q).sum();
            assert!((h[j * in_features + k] - want).abs() < 1e-5);
            assert_eq!(h[j * in_features + k], h[k * in_features + j]);
        }
    }
    let want_mean =
        [(1.0f32 + 0.5 + 4.0) / 3.0, (2.0 + 0.25 + 1.5) / 3.0, (3.0 + 1.0 + 0.5) / 3.0];
    for (j, want) in want_mean.iter().enumerate() {
        assert!((floats(&a.act_abs_mean())[j] - want).abs() < 1e-5);
    }
    for (m, s) in floats(&a.mean_hessian()).iter().zip(&h) {
        assert!((m - s / 3.0).abs() < 1e-5);
    }

    let mut b = Calibration::zeros(in_features);
    observed(&mut b, &x1, 2);
    let mut c = Calibration::zeros(in_features);
    observed(&mut c, &x2, 1);
    b.merge(&c);
    assert_eq!(b.hessian(), a.hessian());
    assert_eq!(b.act_abs_mean(), a.act_abs_mean());
    assert_eq!(b.mean_hessian(), a.mean_hessian());
    assert_eq!(b.n_tokens(), a.n_tokens());
    let z = Calibration::zeros(4);
    assert!(floats(&z.mean_hessian()).iter().all(|v| *v == 0.0));
    assert!(floats(&z.act_abs_mean()).iter().all(|v| *v == 0.0));
    assert_eq!(z.n_tokens(), 0);
}

#[test]
fn test_gptq_falls_back_to_rtn_without_hessian() {
    let (rows, cols) = (12, 9);
    let w = bits_of(&ramp(rows * cols));
    for bits in [QBits::Int8, QBits::Int4] {
        for axis in [QAxis::Row, QAxis::Col] {
            let rtn = QMatrix::quantize(&w, rows, cols, bits, axis);
            let q = gptq_quantize_with_hinv(&w, rows, cols, bits, axis, &[]);
            assert_eq!(q.bytes(), rtn.bytes());
            assert_eq!(q.scales(), rtn.scales());
            assert_eq!((q.rows(), q.cols(), q.axis()), (rows, cols, axis));
            let wrong = bits_of(&vec![1.0f32; cols * cols]);
            let q2 = gptq_quantize_with_hinv(&w, rows, cols, bits, axis, &wrong);
            assert_eq!(q2.bytes(), rtn.bytes());
        }
    }
}

#[test]
fn inputs_are_ordered_by_their_energy() {
    let diag = bits_of(&[1.0, 5.0, -2.0, 5.0, 0.0]);
    assert_eq!(order_by_importance(&diag, true), vec![1, 3, 0, 4, 2]);
    assert_eq!(order_by_importance(&diag, false), vec![0, 1, 2, 3, 4]);
    let h = bits_of(&[1.0, 2.0, 3.0, 2.0, 4.0, 5.0, 3.0, 5.0, 6.0]);
    let p = floats(&permute_sym(&h, 3, &[2, 0, 1]));
    assert_eq!(p, vec![6.0, 3.0, 5.0, 3.0, 1.0, 2.0, 5.0, 2.0, 4.0]);
}

#[test]
fn the_first_of_equal_errors_wins() {
    assert_eq!(first_smallest(&bits_of(&[3.0, 1.0, 1.0, 2.0])), 1);
    assert_eq!(first_smallest(&bits_of(&[0.5])), 0);
    assert_eq!(first_smallest(&bits_of(&[2.0, f32::NAN, 1.0])), 2);
}

#[test]
fn hessians_report_their_shape() {
    let f = HessianKind::Full(bits_of(&[1.0, 2.0, 2.0, 5.0]));
    assert!(f.is_full());
    assert_eq!(f.dim(), 2);
    assert_eq!(floats(&f.diagonal()), vec![1.0, 5.0]);
    assert_eq!(f.byte_len(), 16);
    let d = HessianKind::Diagonal(bits_of(&[3.0, 4.0, 5.0]));
    assert!(!d.is_full());
    assert_eq!(d.dim(), 3);
    assert_eq!(floats(&d.diagonal()), vec![3.0, 4.0, 5.0]);
    assert_eq!(d.byte_len(), 12);
}

#[test]
fn output_errors_are_exact() {
    let x = bits_of(&[1.0, 2.0, 3.0, 4.0]);
    let w = bits_of(&[1.0, 0.0]);
    let wq = bits_of(&[0.5, 1.0]);
    // The outputs differ by 0.5 - 2 and by 1.5 - 4.
    assert_eq!(f32::from_bits(output_error_sq(&x, &w, &wq, 2, 2, 1)), 1.5 * 1.5 + 2.5 * 2.5);
}
