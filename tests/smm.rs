use yata::smm::{find_index, find_insert_index};
use yata::{Error, Ratio, Window, SMM};

const SCALE: f64 = 1e9;
const SIGMA: f64 = 1e-8;

fn to_fixed(x: f64) -> i64 {
    (x * SCALE).round() as i64
}

fn from_fixed(x: i64) -> f64 {
    x as f64 / SCALE
}

fn to_float(r: Ratio) -> f64 {
    r.num as f64 / r.den as f64 / SCALE
}

/// A deterministic series of closing prices around 100.
fn closes(n: usize) -> Vec<f64> {
    let mut state: u64 = 0x9e37_79b9_7f4a_7c15;
    let mut price: f64 = 100.0;
    let mut out = Vec::with_capacity(n);
    for _ in 0..n {
        state = state
            .wrapping_mul(6364136223846793005)
            .wrapping_add(1442695040888963407);
        let step = ((state >> 33) as f64 / (1u64 << 31) as f64) - 0.5;
        price = (price + step * 4.0).max(1.0);
        out.push(price);
    }
    out
}

#[test]
fn test_smm_const() {
    for i in 1..30u16 {
        let input = to_fixed((i as f64 + 56.0) / 16.3251);
        let mut method = SMM::new(i, input).unwrap();

        let output = method.next(input);
        assert_eq!(output, Ratio { num: 2 * input as i128, den: 2 });
        for _ in 0..100 {
            assert_eq!(method.next(input), output);
        }
    }
}

#[test]
fn test_smm1() {
    let candles: Vec<i64> = closes(101).into_iter().map(to_fixed).collect();

    let mut ma = SMM::new(1, candles[0]).unwrap();

    for &x in candles.iter().skip(1).take(100) {
        assert!((from_fixed(x) - to_float(ma.next(x))).abs() < SIGMA);
    }
}

#[test]
fn test_smm0() {
    let src: Vec<i64> = closes(100).into_iter().map(to_fixed).collect();

    for ma_length in 1..20u16 {
        let mut ma = SMM::new(ma_length, src[0]).unwrap();
        let ma_length = ma_length as usize;

        for (i, &x) in src.iter().enumerate() {
            let value = to_float(ma.next(x));
            let slice_from = i.saturating_sub(ma_length - 1);
            let slice_to = i;
            let mut slice: Vec<f64> = Vec::with_capacity(ma_length);

            src.iter()
                .skip(slice_from)
                .take(slice_to - slice_from + 1)
                .for_each(|&x| slice.push(from_fixed(x)));
            while slice.len() < ma_length {
                slice.push(from_fixed(src[0]));
            }

            slice.sort_by(|a, b| a.partial_cmp(b).unwrap());

            let value2 = if ma_length % 2 == 0 {
                (slice[ma_length / 2] + slice[ma_length / 2 - 1]) / 2.0
            } else {
                slice[ma_length / 2]
            };
            assert!((value2 - value).abs() < SIGMA);
        }
    }
}

#[test]
fn smm_length_three_scenario() {
    let mut smm = SMM::new(3, 1).unwrap();
    assert_eq!(smm.next(1), Ratio { num: 2, den: 2 });
    // Window [1, 1, 2]: its median is 1.
    assert_eq!(smm.next(2), Ratio { num: 2, den: 2 });
    assert_eq!(smm.next(3), Ratio { num: 4, den: 2 });
    assert_eq!(smm.next(100), Ratio { num: 6, den: 2 });
}

#[test]
fn smm_even_length_averages_middle_pair() {
    let mut smm = SMM::new(4, 0).unwrap();
    smm.next(10);
    smm.next(3);
    // Window [0, 10, 3, 7]: middle pair 3 and 7.
    assert_eq!(smm.next(7), Ratio { num: 10, den: 2 });
    // Window [10, 3, 7, 7] after the 0 leaves: 7 and 7.
    assert_eq!(smm.next(7), Ratio { num: 14, den: 2 });
}

#[test]
fn smm_duplicates_and_descending() {
    let mut smm = SMM::new(5, 5).unwrap();
    let inputs = [5, 5, 4, 4, 3, 3, 9, 9, 9, 1, 5, -2];
    let mut window = vec![5i64; 5];
    for &x in inputs.iter() {
        window.remove(0);
        window.push(x);
        let mut sorted = window.clone();
        sorted.sort();
        let r = smm.next(x);
        assert_eq!(r, Ratio { num: 2 * sorted[2] as i128, den: 2 });
    }
}

#[test]
fn smm_length_one_returns_input() {
    let mut smm = SMM::new(1, 42).unwrap();
    for x in [-5i64, 0, 17, i64::MAX, i64::MIN] {
        assert_eq!(smm.next(x), Ratio { num: 2 * x as i128, den: 2 });
    }
}

#[test]
fn smm_rejects_empty_window() {
    assert!(matches!(SMM::new(0, 1), Err(Error::InvalidParameters)));
    assert!(SMM::new(1, 1).is_ok());
}

#[test]
fn binary_searches_find_positions() {
    let s = [1i64, 3, 3, 5, 8, 13];
    assert_eq!(s[find_index(8, &s, 0)], 8);
    assert_eq!(s[find_index(3, &s, 0)], 3);
    assert_eq!(find_index(1, &s, 10), 10);
    assert_eq!(find_insert_index(0, &s, 0), 0);
    assert_eq!(find_insert_index(4, &s, 0), 3);
    assert_eq!(find_insert_index(20, &s, 0), 6);
    assert_eq!(find_insert_index(20, &s, 2), 8);
    let k = find_insert_index(3, &s, 0);
    assert!(k == 1 || k == 2);
    assert_eq!(find_insert_index(7, &[], 4), 4);
}

#[test]
fn window_evicts_oldest() {
    let mut w = Window::new(3, 0i64);
    assert_eq!(w.len(), 3);
    assert_eq!(w.push(1), 0);
    assert_eq!(w.push(2), 0);
    assert_eq!(w.push(3), 0);
    assert_eq!(w.push(4), 1);
    assert_eq!(w.push(5), 2);
}
