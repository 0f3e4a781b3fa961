use concurrency_fuzz_scheduler::double::Double;
use concurrency_fuzz_scheduler::stats::iteration_stats;

/// The encoding of a double, back from its parts.
fn encode(d: Double) -> u64 {
    match d {
        Double::Finite { negative, mantissa, exponent } => {
            let sign = (negative as u64) << 63;
            if mantissa < 1 << 52 {
                assert_eq!(exponent, -1074);
                sign | mantissa
            } else {
                sign | ((exponent + 1075) as u64) << 52 | (mantissa & ((1 << 52) - 1))
            }
        }
        Double::Infinite { negative } => (negative as u64) << 63 | 0x7ff << 52,
        Double::NotANumber => f64::NAN.to_bits(),
    }
}

fn double(x: f64) -> Double {
    Double::from_bits(x.to_bits())
}

fn assert_same(d: Double, x: f64) {
    if x.is_nan() {
        assert_eq!(d, Double::NotANumber);
    } else {
        assert_eq!(encode(d), x.to_bits(), "{x:e}");
    }
}

/// Values of all kinds: special ones, and bit patterns of all magnitudes.
fn samples() -> Vec<f64> {
    let mut v = vec![
        0.0,
        -0.0,
        1.0,
        -1.0,
        0.5,
        1.5,
        3.0,
        0.1,
        f64::MIN_POSITIVE,
        f64::from_bits(1),
        f64::from_bits(0xf_ffff_ffff_ffff),
        f64::MAX,
        f64::MIN,
        f64::INFINITY,
        f64::NEG_INFINITY,
        f64::NAN,
        9007199254740993.0,
        4503599627370497.5,
        1e300,
        1e-300,
    ];
    let mut x: u64 = 0x2545_f491_4f6c_dd1d;
    for _ in 0..60 {
        x ^= x << 13;
        x ^= x >> 7;
        x ^= x << 17;
        v.push(f64::from_bits(x));
        v.push(f64::from_bits(x % (1 << 54)));
        v.push((x >> 20) as f64 / 1024.0);
        v.push(-((x >> 44) as f64) / 1000.0);
        v.push(f64::from_bits(x >> 2 & !0xffff_ffff | 0x3ff0_0000_0000_0000));
    }
    v
}

#[test]
fn encodings_are_decoded() {
    for x in samples() {
        assert_same(double(x), x);
    }
    assert_eq!(
        double(-1.5),
        Double::Finite { negative: true, mantissa: 3 << 51, exponent: -52 }
    );
}

#[test]
fn integers_are_rounded() {
    let mut x: u64 = 0x2545_f491_4f6c_dd1d;
    for i in 0..2000u32 {
        x ^= x << 13;
        x ^= x >> 7;
        x ^= x << 17;
        let n = x >> (i % 64);
        assert_same(Double::from_u64(n), n as f64);
    }
    for n in [0, 1, u64::MAX, 1 << 53, (1 << 53) + 1, (1 << 53) + 2, (1 << 53) + 3, u64::MAX - 1024] {
        assert_same(Double::from_u64(n), n as f64);
    }
}

#[test]
fn arithmetic_is_rounded() {
    let v = samples();
    for &x in &v {
        for &y in &v {
            assert_same(double(x).times(double(y)), x * y);
            assert_same(double(x).over(double(y)), x / y);
            assert_same(double(x).plus(double(y)), x + y);
            assert_same(double(x).minus(double(y)), x - y);
        }
        assert_same(double(x).sqrt(), x.sqrt());
    }
}

#[test]
fn fixed_notation_is_rounded() {
    for x in samples() {
        for decimals in [0usize, 1, 3, 6, 17] {
            assert_eq!(double(x).to_fixed(decimals), format!("{:.*}", decimals, x));
        }
    }
    assert_eq!(double(-0.0).to_fixed(1), "-0.0");
    assert_eq!(double(2.5).to_fixed(0), "2");
    assert_eq!(double(f64::NEG_INFINITY).to_fixed(3), "-inf");
    assert_eq!(double(f64::NAN).to_fixed(3), "NaN");
}

fn stats(durations: &[f64]) -> String {
    let v: Vec<Double> = durations.iter().map(|&d| double(d)).collect();
    iteration_stats(&v).unwrap()
}

fn expected_stats(durations: &[f64]) -> String {
    let count = durations.len();
    let sum: f64 = durations.iter().sum();
    let mean = sum / count as f64;
    let min = durations.iter().cloned().fold(f64::MAX, f64::min);
    let max = durations.iter().cloned().fold(f64::MIN, f64::max);
    let sum_squared_diff: f64 = durations.iter().map(|d| (d - mean).powi(2)).sum();
    let std_dev = (sum_squared_diff / count as f64).sqrt();
    format!(
        "\nIteration Count: {count}\nIteration Duration: mean={mean:.1}s+-{std_dev:.1}s,min={min:.1}s,max={max:.1}s"
    )
}

#[test]
fn stats_of_one_iteration() {
    assert_eq!(
        stats(&[2.303]),
        "\nIteration Count: 1\nIteration Duration: mean=2.3s+-0.0s,min=2.3s,max=2.3s"
    );
    assert_eq!(
        stats(&[5.406]),
        "\nIteration Count: 1\nIteration Duration: mean=5.4s+-0.0s,min=5.4s,max=5.4s"
    );
}

#[test]
fn stats_of_many_iterations() {
    assert_eq!(
        stats(&[2.0, 4.0, 4.0, 4.0, 5.0, 5.0, 7.0, 9.0]),
        "\nIteration Count: 8\nIteration Duration: mean=5.0s+-2.0s,min=2.0s,max=9.0s"
    );
    let mut x: u64 = 0x2545_f491_4f6c_dd1d;
    let mut durations: Vec<f64> = Vec::new();
    for i in 0..60u32 {
        x ^= x << 13;
        x ^= x >> 7;
        x ^= x << 17;
        durations.push((x % 100_000) as f64 / 1000.0 * if i % 7 == 0 { 1e9 } else { 1.0 });
        assert_eq!(stats(&durations), expected_stats(&durations));
    }
    assert_eq!(stats(&[0.0, 0.0]), expected_stats(&[0.0, 0.0]));
    assert_eq!(stats(&[f64::MAX, f64::MAX]), expected_stats(&[f64::MAX, f64::MAX]));
}

#[test]
fn no_stats_without_iterations() {
    assert!(iteration_stats(&Vec::new()).is_none());
}
