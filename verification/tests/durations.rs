use concurrency_fuzz_scheduler::duration::{
    is_valid_number, nanoseconds_to_string, parse_to_nanoseconds, DurationError, DurationRange,
};

#[test]
fn parses_units() {
    assert_eq!(parse_to_nanoseconds("5ns").unwrap(), 5);
    assert_eq!(parse_to_nanoseconds("2us").unwrap(), 2_000);
    assert_eq!(parse_to_nanoseconds("3ms").unwrap(), 3_000_000);
    assert_eq!(parse_to_nanoseconds("1s").unwrap(), 1_000_000_000);
    assert_eq!(parse_to_nanoseconds("1.5s").unwrap(), 1_500_000_000);
}

#[test]
fn rejects_garbage() {
    assert!(parse_to_nanoseconds("10").is_err());
    assert!(parse_to_nanoseconds("ms").is_err());
    assert!(parse_to_nanoseconds("1.2.3s").is_err());
    assert!(parse_to_nanoseconds("abcms").is_err());
}

#[test]
fn parses_ranges() {
    let r = DurationRange::parse("10ms,2000ms").unwrap();
    assert_eq!(r.min_ns, 10_000_000);
    assert_eq!(r.max_ns, 2_000_000_000);

    let single = DurationRange::parse("5ms").unwrap();
    assert_eq!(single.min_ns, single.max_ns);
    assert_eq!(single.min_ns, 5_000_000);
}

#[test]
fn formats_durations() {
    assert_eq!(nanoseconds_to_string(500, 3), "500ns");
    assert_eq!(nanoseconds_to_string(1_500, 3), "1.500us");
    assert_eq!(nanoseconds_to_string(2_000_000, 3), "2.000ms");
    assert_eq!(nanoseconds_to_string(3_000_000_000, 1), "3.0s");
}

/// A sequence of numbers that covers the range of `u64` at all magnitudes.
fn samples() -> Vec<u64> {
    let mut v: Vec<u64> = Vec::new();
    let mut x: u64 = 0x9e37_79b9_7f4a_7c15;
    for i in 0..4000u32 {
        x ^= x << 13;
        x ^= x >> 7;
        x ^= x << 17;
        v.push(x >> (i % 64));
    }
    for i in 0..64u32 {
        let p = 1u64 << i;
        v.push(p - 1);
        v.push(p);
        v.push(p + 1);
    }
    v.push(u64::MAX);
    v
}

/// The exact value in nanoseconds of a number of units of `10^shift` nanoseconds, cut off.
fn exact(number: &str, shift: usize) -> u64 {
    let (whole, fraction) = number.split_once('.').unwrap_or((number, ""));
    let mut digits = whole.to_string();
    for i in 0..shift {
        digits.push(fraction.chars().nth(i).unwrap_or('0'));
    }
    let digits = digits.trim_start_matches('0');
    if digits.len() > 30 {
        u64::MAX
    } else {
        format!("0{digits}").parse::<u128>().unwrap().min(u64::MAX as u128) as u64
    }
}

fn check_number(number: &str) {
    for (suffix, shift) in [("ns", 0), ("us", 3), ("ms", 6), ("s", 9)] {
        let text = format!("{number}{suffix}");
        assert_eq!(parse_to_nanoseconds(&text).unwrap(), exact(number, shift), "{text}");
    }
}

#[test]
fn parsing_is_exact() {
    for n in samples() {
        check_number(&format!("{n}"));
        check_number(&format!("0.{n}"));
        check_number(&format!("{}.{:06}", n % 5000, n % 1_000_000));
        check_number(&format!("{}.{}", n >> 40, n));
        check_number(&format!("{}.000000000{}", n >> 50, n));
    }
    for i in 0..3000u32 {
        check_number(&format!("{}.{:03}", i / 1000, i % 1000));
    }
    assert_eq!(parse_to_nanoseconds("1.005us").unwrap(), 1_005);
    assert_eq!(parse_to_nanoseconds("1.001us").unwrap(), 1_001);
    assert_eq!(parse_to_nanoseconds("0.1234567899s").unwrap(), 123_456_789);
    assert_eq!(parse_to_nanoseconds("2.9ns").unwrap(), 2);
}

#[test]
fn parsing_of_extreme_numbers() {
    let zeros = "0".repeat(400);
    let nines = "9".repeat(400);
    for number in [
        "0",
        "0.0",
        "00012.500",
        "1.001",
        "4503599627370497.5",
        "9007199254740993",
        "9007199254740993.000000000000000000000000000000000000001",
        "18446744073709551615",
        "18446744073709551616",
        "18446744073.709551615",
        "18446744073.709551616",
        "99999999999999999999999",
        "0.00000000049999999999999999999999",
        "0.0000000005",
        "0.9999999999",
        "1000000000000000000000000000000.5",
    ] {
        check_number(number);
    }
    check_number(&format!("1{zeros}"));
    check_number(&format!("0.{zeros}1"));
    check_number(&format!("{zeros}7.5"));
    check_number(&format!("{nines}.{nines}"));
    check_number(&format!("0.{nines}"));
    assert_eq!(parse_to_nanoseconds(&format!("1{zeros}s")).unwrap(), u64::MAX);
    assert_eq!(parse_to_nanoseconds(&format!("0.{zeros}1s")).unwrap(), 0);
}

#[test]
fn outer_zeros_do_not_count() {
    for (text, same) in [("007s", "7s"), ("1.50us", "1.5us"), ("000.1000ms", "0.1ms"), ("00ns", "0ns")] {
        assert_eq!(
            parse_to_nanoseconds(text).unwrap(),
            parse_to_nanoseconds(same).unwrap()
        );
    }
}

#[test]
fn rendering_is_double_precision() {
    for n in samples() {
        for decimals in [0usize, 1, 2, 3, 6, 9, 20, 60] {
            let expected = if n < 1_000 {
                format!("{n}ns")
            } else if n < 1_000_000 {
                format!("{:.*}us", decimals, n as f64 / 1_000.0)
            } else if n < 1_000_000_000 {
                format!("{:.*}ms", decimals, n as f64 / 1_000_000.0)
            } else {
                format!("{:.*}s", decimals, n as f64 / 1_000_000_000.0)
            };
            assert_eq!(nanoseconds_to_string(n, decimals), expected);
        }
    }
    assert_eq!(nanoseconds_to_string(2_500, 0), "2us");
    assert_eq!(nanoseconds_to_string(3_500, 0), "4us");
    assert_eq!(nanoseconds_to_string(999_999, 0), "1000us");
    assert_eq!(nanoseconds_to_string(999, 70000), "999ns");
    assert_eq!(nanoseconds_to_string(1_000, 65535).len(), 65535 + 4);
}

#[test]
fn refused_durations_are_named() {
    for text in ["", "s", ".5s", "5.s", "1,5s", " 1s", "1s ", "1 s", "-1s", "+1s", "1e3s", "1S", "１s", "5m", "NaNs", "infs"] {
        match parse_to_nanoseconds(text) {
            Err(DurationError::InvalidDuration(t)) => assert_eq!(t, text),
            _ => panic!("{text}"),
        }
    }
    assert_eq!(
        parse_to_nanoseconds("abc").unwrap_err().message(),
        "invalid duration string: abc"
    );
}

#[test]
fn numbers_have_digits_on_both_sides() {
    for text in ["0", "12", "1.5", "00.00"] {
        assert!(is_valid_number(text), "{text}");
    }
    for text in ["", ".", "1.", ".1", "1.2.3", "1..2", "a", "1a", "1.a", "-1", "٣"] {
        assert!(!is_valid_number(text), "{text}");
    }
}

#[test]
fn refused_ranges_are_named() {
    match DurationRange::parse("1s,2s,3s") {
        Err(DurationError::InvalidRange(t)) => assert_eq!(t, "1s,2s,3s"),
        _ => panic!(),
    }
    assert_eq!(
        DurationRange::parse("1s,,").unwrap_err().message(),
        "invalid duration range: 1s,,"
    );
    match DurationRange::parse("2s,1s") {
        Err(DurationError::MinAboveMax) => {}
        _ => panic!(),
    }
    assert_eq!(
        DurationRange::new(2, 1).unwrap_err().message(),
        "min_ns must be less than or equal to max_ns"
    );
    match DurationRange::parse(" x , y ") {
        Err(DurationError::InvalidDuration(t)) => assert_eq!(t, "x"),
        _ => panic!(),
    }
    match DurationRange::parse("1s,") {
        Err(DurationError::InvalidDuration(t)) => assert_eq!(t, ""),
        _ => panic!(),
    }
}

#[test]
fn ranges_ignore_whitespace_around_durations() {
    let r = DurationRange::parse(" \u{a0}1ms\t, 2ms\u{3000}\n").unwrap();
    assert_eq!((r.min_ns, r.max_ns), (1_000_000, 2_000_000));
    let r = DurationRange::parse("\u{2003}7us ").unwrap();
    assert_eq!((r.min_ns, r.max_ns), (7_000, 7_000));
}

#[test]
fn ranges_as_text() {
    let r = DurationRange::parse("10ms,2000ms").unwrap();
    assert_eq!(r.to_text(), "10.000ms - 2.000s");
    let r = DurationRange::new(1_000_000, 100_000_000).unwrap();
    assert_eq!(r.to_text(), "1.000ms - 100.000ms");
}

#[test]
fn whole_durations_are_exact() {
    for n in [0_u64, 1, 7, 999, 86_400, 9_007_199, 9_007_199_254_740_992] {
        for (unit, ns) in [("ns", 1_u64), ("us", 1_000), ("ms", 1_000_000), ("s", 1_000_000_000)] {
            let expected = (n as u128 * ns as u128).min(u64::MAX as u128) as u64;
            assert_eq!(parse_to_nanoseconds(&format!("{n}{unit}")).unwrap(), expected);
        }
    }
    assert_eq!(parse_to_nanoseconds("9007199254740993ns").unwrap(), 9_007_199_254_740_993);
}

#[test]
fn greater_numbers_are_not_fewer_nanoseconds() {
    let numbers = ["0", "0.0000001", "0.3", "0.30000000000000004", "1.0049", "1.005", "1.0051", "2", "1e"];
    for pair in numbers[..8].windows(2) {
        for unit in ["ns", "us", "ms", "s"] {
            let a = parse_to_nanoseconds(&format!("{}{unit}", pair[0])).unwrap();
            let b = parse_to_nanoseconds(&format!("{}{unit}", pair[1])).unwrap();
            assert!(a <= b);
        }
    }
    assert!(parse_to_nanoseconds(&format!("{}s", numbers[8])).is_err());
}

#[test]
fn nanoseconds_are_read_back() {
    for n in 0..1_000 {
        assert_eq!(parse_to_nanoseconds(&nanoseconds_to_string(n, 3)).unwrap(), n);
    }
}

#[test]
fn rendered_durations_are_read_back() {
    for n in samples() {
        for decimals in [0, 1, 3, 6, 9, 12] {
            let text = nanoseconds_to_string(n, decimals);
            let back = parse_to_nanoseconds(&text).unwrap();
            let unit: u128 = if n < 1_000 {
                1
            } else if n < 1_000_000 {
                1_000
            } else if n < 1_000_000_000 {
                1_000_000
            } else {
                1_000_000_000
            };
            let p = 10_u128.pow(decimals as u32);
            let slack = (2 * n as u128 * p >> 51) + 1;
            assert!(2 * n.abs_diff(back) as u128 * p < unit + 2 * p + slack, "{n} {text} {back}");
            if n <= 1 << 53 && n as u128 * p % unit == 0 && n as u128 * p < (unit << 52) {
                assert_eq!(back, n, "{text}");
            }
        }
    }
    assert_eq!(nanoseconds_to_string(1_005, 3), "1.005us");
    for n in 1_000..20_000 {
        assert_eq!(parse_to_nanoseconds(&nanoseconds_to_string(n, 3)).unwrap(), n);
    }
}

#[test]
fn greater_times_in_other_units_are_not_fewer_nanoseconds() {
    for pair in ["999ns", "0.9995us", "1us", "1000.5ns", "0.001002ms", "1.003us", "0.1s", "101ms"].windows(2) {
        assert!(parse_to_nanoseconds(pair[0]).unwrap() <= parse_to_nanoseconds(pair[1]).unwrap());
    }
}

#[test]
fn too_much_comes_to_the_limit() {
    assert_eq!(parse_to_nanoseconds("18446744073709551616ns").unwrap(), u64::MAX);
    assert_eq!(parse_to_nanoseconds("99999999999999999999s").unwrap(), u64::MAX);
    assert_eq!(parse_to_nanoseconds("18446744073.5s").unwrap(), 18_446_744_073_500_000_000);
}

#[test]
fn longer_durations_are_not_smaller_numbers() {
    let number = |n: u64| {
        let text = nanoseconds_to_string(n, 3);
        text[..text.len() - 2].parse::<f64>().unwrap()
    };
    for n in (1_000_000..5_000_000).step_by(333) {
        assert!(number(n) <= number(n + 333));
    }
}
