use tiny_llm::awq::is_less;
use tiny_llm::dist::agree;
use tiny_llm::float_bits::abs_bits;
use tiny_llm::float_bits::is_at_least_zero;
use tiny_llm::float_bits::is_nan;
use tiny_llm::float_bits::is_negative;
use tiny_llm::float_bits::is_positive;
use tiny_llm::float_bits::total_order_key;
use tiny_llm::matrix::add_matrices;
use tiny_llm::matrix::add_row;
use tiny_llm::matrix::gather_rows;
use tiny_llm::matrix::matmul;
use tiny_llm::matrix::scale;
use tiny_llm::matrix::transpose;
use tiny_llm::roots::square_root;
use tiny_llm::rounding::divide;
use tiny_llm::rounding::from_count;
use tiny_llm::rounding::minus;
use tiny_llm::rounding::multiply;
use tiny_llm::rounding::negate;
use tiny_llm::rounding::plus;
use tiny_llm::rounding::to_whole;

fn next(state: &mut u64) -> u32 {
    *state = state.wrapping_add(0x9e37_79b9_7f4a_7c15);
    let mut z = *state;
    z = (z ^ (z >> 30)).wrapping_mul(0xbf58_476d_1ce4_e5b9);
    z = (z ^ (z >> 27)).wrapping_mul(0x94d0_49bb_1331_11eb);
    ((z ^ (z >> 31)) >> 16) as u32
}

fn same(a: u32, b: f32) -> bool {
    (f32::from_bits(a).is_nan() && b.is_nan()) || a == b.to_bits()
}

fn samples() -> Vec<f32> {
    let mut v = vec![
        0.0f32,
        -0.0,
        1.0,
        -1.0,
        0.5,
        3.0,
        -7.25,
        1e-45,
        -1e-45,
        f32::MIN_POSITIVE,
        f32::MAX,
        -f32::MAX,
        f32::INFINITY,
        f32::NEG_INFINITY,
        f32::NAN,
        16_777_216.0,
        16_777_215.0,
        1e-38,
        3.4e38,
        1.5e-39,
    ];
    let mut s = 7u64;
    for _ in 0..60 {
        v.push(f32::from_bits(next(&mut s)));
    }
    for i in 0..40 {
        v.push((next(&mut s) as f32 / 4e9 - 0.5) * 2.0f32.powi(i % 13 - 6));
    }
    v
}

#[test]
fn arithmetic_agrees_with_the_machine() {
    let v = samples();
    for &a in &v {
        for &b in &v {
            let (x, y) = (a.to_bits(), b.to_bits());
            assert!(same(plus(x, y), a + b), "{} + {}", a, b);
            assert!(same(minus(x, y), a - b), "{} - {}", a, b);
            assert!(same(multiply(x, y), a * b), "{} * {}", a, b);
            assert!(same(divide(x, y), a / b), "{} / {}", a, b);
            assert_eq!(is_less(x, y), a < b, "{} < {}", a, b);
        }
    }
}

#[test]
fn arithmetic_agrees_with_the_machine_on_many_patterns() {
    let mut s = 99u64;
    for _ in 0..20_000 {
        let x = next(&mut s);
        // Patterns of a like exponent exercise cancellation and carries.
        let y = (next(&mut s) & 0x81ff_ffff) | (x & 0x7e00_0000);
        let (a, b) = (f32::from_bits(x), f32::from_bits(y));
        assert!(same(plus(x, y), a + b), "{} + {}", a, b);
        assert!(same(minus(x, y), a - b), "{} - {}", a, b);
        assert!(same(multiply(x, y), a * b), "{} * {}", a, b);
        assert!(same(divide(x, y), a / b), "{} / {}", a, b);
    }
}

#[test]
fn roots_agree_with_the_machine() {
    for a in samples() {
        assert!(same(square_root(a.to_bits()), a.sqrt()), "{}", a);
    }
    let mut s = 5u64;
    for _ in 0..5_000 {
        let a = f32::from_bits(next(&mut s));
        assert!(same(square_root(a.to_bits()), a.sqrt()), "{}", a);
    }
}

#[test]
fn signs_and_order_agree_with_the_machine() {
    let v = samples();
    for &a in &v {
        let x = a.to_bits();
        assert_eq!(is_negative(x), a.is_sign_negative());
        assert_eq!(is_nan(x), a.is_nan());
        assert_eq!(is_positive(x), a > 0.0);
        assert_eq!(is_at_least_zero(x), a >= 0.0);
        assert_eq!(abs_bits(x), a.abs().to_bits());
        assert!(same(negate(x), -a));
        for &b in &v {
            let less = total_order_key(x) < total_order_key(b.to_bits());
            assert_eq!(less, a.total_cmp(&b) == std::cmp::Ordering::Less, "{} {}", a, b);
        }
    }
}

#[test]
fn counts_and_whole_numbers_agree_with_the_machine() {
    for n in [0u64, 1, 2, 3, 255, 16_777_215, 16_777_216, 16_777_217, 16_777_219, u64::MAX, 1 << 40] {
        assert_eq!(from_count(n), (n as f32).to_bits(), "{}", n);
    }
    for a in [0.0f32, 0.4, 0.5, -0.5, 1.5, 2.5, -2.5, 126.4, 126.5, 127.9, 300.0, -1e30, 1e-40] {
        let want = a.round().clamp(-127.0, 127.0) as i8;
        assert_eq!(to_whole(a.to_bits(), 127), want, "{}", a);
    }
    assert_eq!(to_whole(f32::NAN.to_bits(), 7), 0);
    assert_eq!(to_whole(9.6f32.to_bits(), 7), 7);
}

fn bits(v: &[f32]) -> Vec<u32> {
    v.iter().map(|x| x.to_bits()).collect()
}

fn floats(v: &[u32]) -> Vec<f32> {
    v.iter().map(|x| f32::from_bits(*x)).collect()
}

#[test]
fn matrices_multiply_row_by_column() {
    let a = bits(&[1.0, 2.0, 3.0, 4.0, 5.0, 6.0]);
    let b = bits(&[1.0, 0.0, 0.0, 1.0, 1.0, 1.0]);
    assert_eq!(floats(&matmul(&a, &b, 2, 3, 2)), vec![4.0, 5.0, 10.0, 11.0]);
    assert_eq!(floats(&transpose(&a, 2, 3)), vec![1.0, 4.0, 2.0, 5.0, 3.0, 6.0]);
    assert_eq!(transpose(&transpose(&a, 2, 3), 3, 2), a);
    assert_eq!(floats(&scale(&a, 0.5f32.to_bits())), vec![0.5, 1.0, 1.5, 2.0, 2.5, 3.0]);
    assert_eq!(floats(&add_matrices(&a, &a)), vec![2.0, 4.0, 6.0, 8.0, 10.0, 12.0]);
    assert_eq!(
        floats(&add_row(&a, 2, 3, &bits(&[10.0, 20.0, 30.0]))),
        vec![11.0, 22.0, 33.0, 14.0, 25.0, 36.0]
    );
    assert_eq!(floats(&gather_rows(&a, 2, 3, &[1, 1, 0])), vec![4.0, 5.0, 6.0, 4.0, 5.0, 6.0, 1.0, 2.0, 3.0]);
}

#[test]
fn equal_numbers_agree() {
    let a = bits(&[1.0, 2.0]);
    assert!(agree(&a, &a, 1e-6f32.to_bits()));
    assert!(!agree(&a, &bits(&[1.0, 2.1]), 1e-6f32.to_bits()));
}
