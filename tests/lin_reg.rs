use yata::{Error, LinReg, Ratio};

const SCALE: f64 = 1e9;

fn to_fixed(x: f64) -> i64 {
    (x * SCALE).round() as i64
}

fn from_fixed(x: i64) -> f64 {
    x as f64 / SCALE
}

fn to_float(r: Ratio) -> f64 {
    r.num as f64 / r.den as f64 / SCALE
}

fn assert_eq_float(expected: f64, got: f64) {
    let tolerance = 1e-8 * expected.abs().max(1.0);
    assert!(
        (expected - got).abs() < tolerance,
        "expected {}, got {}",
        expected,
        got
    );
}

/// A deterministic series of closing prices around 100.
fn closes(n: usize) -> Vec<f64> {
    let mut state: u64 = 0x2545_f491_4f6c_dd1d;
    let mut price: f64 = 100.0;
    let mut out = Vec::with_capacity(n);
    for _ in 0..n {
        state = state
            .wrapping_mul(6364136223846793005)
            .wrapping_add(1442695040888963407);
        let step = ((state >> 33) as f64 / (1u64 << 31) as f64) - 0.5;
        price = (price + step * 4.0).max(1.0);
        out.push(price);
    }
    out
}

#[test]
fn test_lin_reg_const() {
    for i in 2..255u16 {
        let input = to_fixed((i as f64 + 56.0) / 16.3251);
        let mut method = LinReg::new(i, input).unwrap();

        let output = method.next(input);
        assert_eq_float(from_fixed(input), to_float(output));
        for _ in 0..100 {
            let r = method.next(input);
            assert_eq!(r.num * output.den, output.num * r.den);
        }
    }
}

#[test]
fn test_lin_reg() {
    let src: Vec<i64> = closes(300).into_iter().map(to_fixed).collect();

    for &length in [
        2u16, 3, 4, 5, 6, 7, 10, 11, 13, 17, 20, 21, 22, 25, 70, 77, 100, 125, 128, 173, 254,
    ]
    .iter()
    {
        let mut ma = LinReg::new(length, src[0]).unwrap();
        let length = length as usize;

        let n = length as f64;
        let s_x: usize = (0..length).sum();
        let s_x2: usize = (0..length).map(|x| x * x).sum();

        let s_x = -(s_x as f64);
        let s_x2 = s_x2 as f64;

        for (i, _) in src.iter().enumerate() {
            let ma_value = to_float(ma.next(src[i]));

            let s_xy: f64 = (0..length)
                .map(|j| -(j as f64) * from_fixed(src[i.saturating_sub(j)]))
                .sum();
            let s_y: f64 = (0..length)
                .map(|j| i.saturating_sub(j))
                .map(|k| from_fixed(src[k]))
                .sum();

            let a = (n * s_xy - s_x * s_y) / (n * s_x2 - s_x * s_x);
            let b = (s_y - a * s_x) / n;

            assert_eq_float(b, ma_value);
        }
    }
}

#[test]
fn lin_reg_rejects_short_windows() {
    assert!(matches!(LinReg::new(0, 5), Err(Error::InvalidParameters)));
    assert!(matches!(LinReg::new(1, 5), Err(Error::InvalidParameters)));
    assert!(LinReg::new(2, 5).is_ok());
}

#[test]
fn lin_reg_exact_two_points() {
    let mut m = LinReg::new(2, 0).unwrap();
    let r = m.next(1);
    assert_eq!(r, Ratio { num: 1, den: 1 });
    assert_eq!(m.b(), Ratio { num: 1, den: 1 });
    assert_eq!(m.tan(), Ratio { num: 1, den: 1 });
}

#[test]
fn lin_reg_exact_three_points() {
    let mut m = LinReg::new(3, 1).unwrap();
    m.next(1);
    m.next(2);
    let r = m.next(4);
    // Points (age 2, 1), (age 1, 2), (age 0, 4): intercept 23/6, slope 3/2.
    assert_eq!(r, Ratio { num: 23, den: 6 });
    assert_eq!(m.tan(), Ratio { num: 9, den: 6 });
}

#[test]
fn lin_reg_constant_input_returns_it() {
    let mut m = LinReg::new(300, -7).unwrap();
    for _ in 0..600 {
        let r = m.next(-7);
        assert_eq!(r.num, -7 * r.den);
    }
    assert_eq!(m.tan().num, 0);
}

#[test]
fn lin_reg_extreme_samples_fit() {
    let mut m = LinReg::new(u16::MAX, i64::MIN).unwrap();
    let r = m.next(i64::MAX);
    assert!(r.den > 0);
    let mut m = LinReg::new(u16::MAX, i64::MAX).unwrap();
    let r = m.next(i64::MAX);
    assert_eq!(r.num, i64::MAX as i128 * r.den);
}
