use tiny_llm::codes::pack_codes;
use tiny_llm::codes::packed_len;
use tiny_llm::codes::unpack_codes;
use tiny_llm::codes::QBits;
use tiny_llm::qmatrix::QMatrix;
use tiny_llm::quant::decode;
use tiny_llm::quant::dequantize_with_scales;
use tiny_llm::quant::encode;
use tiny_llm::quant::group_scales;
use tiny_llm::quant::quant_error;
use tiny_llm::quant::quantize_row_sym;
use tiny_llm::quant::quantize_with_scales;
use tiny_llm::quant::resolve_scales;
use tiny_llm::quant::QAxis;

fn ramp(n: usize) -> Vec<f32> {
    (0..n).map(|i| (i as f32 * 0.37).sin() * (1.0 + i as f32 * 0.01)).collect()
}

fn bits_of(v: &[f32]) -> Vec<u32> {
    v.iter().map(|x| x.to_bits()).collect()
}

fn floats(v: &[u32]) -> Vec<f32> {
    v.iter().map(|x| f32::from_bits(*x)).collect()
}

fn qmax(bits: QBits) -> f32 {
    f32::from_bits(bits.qmax())
}

#[test]
fn test_pack_unpack_roundtrip() {
    for bits in [QBits::Int8, QBits::Int4] {
        let qmax = qmax(bits) as i8;
        let codes: Vec<i8> = (0..17).map(|i| if i % 2 == 0 { -qmax } else { qmax }).collect();
        let bytes = pack_codes(&codes, bits);
        assert_eq!(bytes.len(), packed_len(codes.len(), bits));
        assert_eq!(unpack_codes(&bytes, bits, codes.len()), codes);
    }
    let codes: Vec<i8> = vec![1; 64];
    assert_eq!(pack_codes(&codes, QBits::Int4).len(), 32);
    assert_eq!(pack_codes(&codes, QBits::Int8).len(), 64);
}

#[test]
fn test_quantize_row_sym_error_bound() {
    let x: Vec<f32> = (0..64).map(|i| (i as f32 - 32.0) * 0.1).collect();
    for bits in [QBits::Int8, QBits::Int4] {
        let (codes, scale) = quantize_row_sym(&bits_of(&x), bits);
        let scale = f32::from_bits(scale);
        let qmax = qmax(bits);
        let step = scale / qmax;
        for (i, &v) in x.iter().enumerate() {
            let back = codes[i] as f32 / qmax * scale;
            assert!((v - back).abs() <= step * 0.5 + 1e-6, "{:?} {}: {} -> {}", bits, i, v, back);
        }
        assert_eq!(codes[0], -qmax as i8);
    }
}

#[test]
fn test_all_zero_input_is_safe() {
    for bits in [QBits::Int8, QBits::Int4] {
        let x = bits_of(&vec![0.0f32; 32]);
        let q = QMatrix::quantize(&x, 4, 8, bits, QAxis::Row);
        assert!(floats(&q.dequantize()).iter().all(|v| *v == 0.0));
    }
}

#[test]
fn test_per_row_beats_single_global_scale() {
    let (rows, cols) = (8, 64);
    let mut x = vec![0.0f32; rows * cols];
    for r in 0..rows {
        let gain = if r == 0 { 1000.0 } else { 1.0 };
        for c in 0..cols {
            x[r * cols + c] = gain * ((c as f32 * 0.31).cos());
        }
    }

    let per_row = QMatrix::quantize(&bits_of(&x), rows, cols, QBits::Int4, QAxis::Row);

    let global = x.iter().fold(0.0f32, |m, v| m.max(v.abs()));
    let global_scales = bits_of(&vec![global; rows]);
    let per_all = QMatrix::quantize_with_scales(
        &bits_of(&x),
        rows,
        cols,
        QBits::Int4,
        QAxis::Row,
        &global_scales,
    );

    let tail_rmse = |m: &QMatrix| -> f32 {
        let d = floats(&m.dequantize());
        let se: f32 = (cols..rows * cols).map(|i| (x[i] - d[i]).powi(2)).sum();
        (se / ((rows - 1) * cols) as f32).sqrt()
    };
    let e_row = tail_rmse(&per_row);
    let e_all = tail_rmse(&per_all);
    assert!(e_row * 5.0 < e_all, "{} vs {}", e_row, e_all);
}

#[test]
fn test_col_axis_scales_length_and_rows() {
    let (rows, cols) = (5, 7);
    let x = bits_of(&ramp(rows * cols));
    let q = QMatrix::quantize(&x, rows, cols, QBits::Int8, QAxis::Col);
    assert_eq!(q.axis(), QAxis::Col);
    assert_eq!(q.scales().len(), cols);
    assert_eq!(q.byte_len(), rows * cols + cols * 4);
    for r in 0..rows {
        assert_eq!(q.row(r), q.dequantize()[r * cols..(r + 1) * cols]);
    }
}

#[test]
fn test_push_rows_uses_frozen_col_scales_but_fresh_row_scales() {
    let (rows, cols) = (4, 8);
    let x: Vec<f32> = (0..rows * cols).map(|i| (i as f32 * 0.13).sin()).collect();
    let more: Vec<f32> = (0..2 * cols).map(|i| 50.0 + i as f32 * 0.01).collect();

    let mut qc = QMatrix::quantize(&bits_of(&x), rows, cols, QBits::Int8, QAxis::Col);
    let scales_before = qc.scales().to_vec();
    qc.push_rows(&bits_of(&more), 2);
    assert_eq!(qc.rows(), 6);
    assert_eq!(qc.scales(), &scales_before[..]);
    assert_eq!(qc.dequantize().len(), 6 * cols);

    let mut qr = QMatrix::quantize(&bits_of(&x), rows, cols, QBits::Int8, QAxis::Row);
    qr.push_rows(&bits_of(&more), 2);
    assert_eq!(qr.rows(), 6);
    assert_eq!(qr.scales().len(), 6);
    let tail_truth = bits_of(&more);
    let back = qr.dequantize();
    let tail_got = &back[4 * cols..];
    let e = quant_error(&tail_truth, tail_got);
    assert!(f32::from_bits(e.relative) < 0.01);
}

#[test]
fn test_drop_front_rows_keeps_remainder_exact() {
    let (rows, cols) = (6, 5);
    let x = bits_of(&ramp(rows * cols));
    for axis in [QAxis::Row, QAxis::Col] {
        let q = QMatrix::quantize(&x, rows, cols, QBits::Int4, axis);
        let full = q.dequantize();
        let mut dropped = q.clone();
        dropped.drop_front_rows(2);
        assert_eq!(dropped.rows(), 4);
        assert_eq!(dropped.scales().len(), if axis == QAxis::Row { 4 } else { cols });
        assert_eq!(dropped.dequantize(), full[2 * cols..].to_vec());
    }
}

#[test]
fn test_undetermined_col_scale_is_set_on_first_nonzero_batch() {
    let cols = 4;
    let first = vec![0.0, 0.0, 0.0, 0.0, 0.0, 0.0, 2.0, -3.0];
    let mut q = QMatrix::quantize(&bits_of(&first), 2, cols, QBits::Int8, QAxis::Col);
    let s = floats(q.scales());
    assert_eq!((s[0], s[1]), (0.0, 0.0));
    assert_eq!((s[2], s[3]), (2.0, 3.0));
    assert_eq!(floats(&q.dequantize()), first);

    let second = vec![4.0, -5.0, 0.0, 0.0];
    q.push_rows(&bits_of(&second), 1);
    let s = floats(q.scales());
    assert_eq!((s[0], s[1]), (4.0, 5.0));
    for (a, b) in second.iter().zip(&floats(&q.dequantize())[2 * cols..]) {
        assert!((a - b).abs() < 0.02, "{} -> {}", a, b);
    }

    q.push_rows(&bits_of(&[2.0, 2.5, 0.0, 0.0]), 1);
    for (a, b) in [2.0f32, 2.5].iter().zip(&floats(&q.dequantize())[3 * cols..]) {
        assert!((a - b).abs() < 0.03, "{} -> {}", a, b);
    }
}

#[test]
fn test_int4_storage_is_half_of_int8() {
    let (rows, cols) = (32, 64);
    let x = bits_of(&ramp(rows * cols));
    let q8 = QMatrix::quantize(&x, rows, cols, QBits::Int8, QAxis::Row);
    let q4 = QMatrix::quantize(&x, rows, cols, QBits::Int4, QAxis::Row);
    assert_eq!(q4.bytes().len() * 2, q8.bytes().len());
    assert_eq!(q8.bytes().len() * 4, rows * cols * 4);
    assert_eq!(q4.bytes().len() * 8, rows * cols * 4);
    assert!(q4.byte_len() < q8.byte_len());
}

#[test]
fn widths_have_their_names_and_sizes() {
    assert_eq!(QBits::Int8.name(), "int8");
    assert_eq!(QBits::Int4.name(), "int4");
    assert_eq!(qmax(QBits::Int8), 127.0);
    assert_eq!(qmax(QBits::Int4), 7.0);
    assert_eq!(QBits::Int8.max_code(), 127);
    assert_eq!(QBits::Int4.max_code(), 7);
    assert_eq!((QBits::Int8.bits(), QBits::Int4.bits()), (8, 4));
    assert!(!QBits::Int8.packed() && QBits::Int4.packed());
    assert_eq!(packed_len(5, QBits::Int4), 3);
    assert_eq!(packed_len(5, QBits::Int8), 5);
    assert_eq!(packed_len(0, QBits::Int4), 0);
}

#[test]
fn two_codes_share_a_byte() {
    assert_eq!(pack_codes(&[1, -1, 7], QBits::Int4), vec![0xf1, 0x07]);
    assert_eq!(pack_codes(&[-7, 2], QBits::Int4), vec![0x29]);
    assert_eq!(unpack_codes(&[0x29], QBits::Int4, 2), vec![-7, 2]);
    assert_eq!(pack_codes(&[-3, 100], QBits::Int8), vec![0xfd, 100]);
}

#[test]
fn every_code_survives_packing() {
    for bits in [QBits::Int8, QBits::Int4] {
        let m = bits.max_code();
        let codes: Vec<i8> = (-m..=m).collect();
        assert_eq!(unpack_codes(&pack_codes(&codes, bits), bits, codes.len()), codes);
    }
}

#[test]
fn encoding_matches_the_formula() {
    let values = [0.0f32, 0.3, -0.3, 1.0, -1.0, 2.5, -2.5, 0.004, 1e-20, 7.0];
    for bits in [QBits::Int8, QBits::Int4] {
        let qmax = qmax(bits);
        for scale in [1.0f32, 2.5, 0.1, 3.0] {
            for v in values {
                let want = (v / scale * qmax).round().clamp(-qmax, qmax) as i8;
                assert_eq!(encode(v.to_bits(), scale.to_bits(), bits), want, "{} {}", v, scale);
                let back = f32::from_bits(decode(want, scale.to_bits(), bits));
                assert_eq!(back, want as f32 / qmax * scale);
            }
        }
        assert_eq!(encode(f32::INFINITY.to_bits(), 1.0f32.to_bits(), bits), qmax as i8);
        assert_eq!(encode(0.0f32.to_bits(), 0.0f32.to_bits(), bits), 0);
        assert_eq!(encode(f32::NAN.to_bits(), 1.0f32.to_bits(), bits), 0);
    }
}

#[test]
fn scales_are_the_largest_magnitudes() {
    let x = bits_of(&[1.0, -4.0, 2.0, 0.0, 0.5, -3.0]);
    assert_eq!(floats(&group_scales(&x, 2, 3, QAxis::Row)), vec![4.0, 3.0]);
    assert_eq!(floats(&group_scales(&x, 2, 3, QAxis::Col)), vec![1.0, 4.0, 3.0]);
    let kept = resolve_scales(&x, 2, 3, QAxis::Col, &bits_of(&[0.0, 9.0, 0.0]));
    assert_eq!(floats(&kept), vec![1.0, 9.0, 3.0]);
}

#[test]
fn requantising_is_idempotent() {
    let (rows, cols) = (6, 9);
    let x = bits_of(&ramp(rows * cols));
    for bits in [QBits::Int8, QBits::Int4] {
        for axis in [QAxis::Row, QAxis::Col] {
            let scales = group_scales(&x, rows, cols, axis);
            let codes = quantize_with_scales(&x, rows, cols, bits, axis, &scales);
            let back = dequantize_with_scales(&codes, rows, cols, bits, axis, &scales);
            let again = quantize_with_scales(&back, rows, cols, bits, axis, &scales);
            assert_eq!(codes, again);
        }
    }
}

#[test]
fn dropping_from_the_back_undoes_pushing() {
    let (rows, cols) = (3, 5);
    let x = bits_of(&ramp(rows * cols));
    let more = bits_of(&[0.5, -0.5, 0.25, 0.1, 0.0, 1.0, 0.9, -0.8, 0.7, 0.6]);
    for bits in [QBits::Int8, QBits::Int4] {
        for axis in [QAxis::Row, QAxis::Col] {
            let q = QMatrix::quantize(&x, rows, cols, bits, axis);
            let mut m = q.clone();
            m.push_rows(&more, 2);
            assert_eq!(m.rows(), 5);
            m.drop_back_rows(2);
            assert_eq!(m.dequantize(), q.dequantize());
            assert_eq!(m.bytes(), q.bytes());
            assert_eq!(m.scales(), q.scales());
        }
    }
}

#[test]
fn an_empty_matrix_holds_zeros() {
    let q = QMatrix::zeros(3, 4, QBits::Int4, QAxis::Row);
    assert_eq!((q.rows(), q.cols(), q.bits()), (3, 4, QBits::Int4));
    assert_eq!(floats(&q.dequantize()), vec![0.0; 12]);
    assert_eq!(q.bytes().len(), 6);
}

#[test]
fn errors_are_measured_exactly() {
    let e = quant_error(&bits_of(&[3.0, 4.0]), &bits_of(&[3.0, 2.0]));
    assert_eq!(f32::from_bits(e.max_abs), 2.0);
    assert_eq!(f32::from_bits(e.rmse), 2.0f32.sqrt());
    assert_eq!(f32::from_bits(e.relative), 2.0f32.sqrt() / 12.5f32.sqrt());
    let none = quant_error(&bits_of(&[1.5, -2.0]), &bits_of(&[1.5, -2.0]));
    assert_eq!((none.max_abs, none.rmse, none.relative), (0, 0, 0));
}
