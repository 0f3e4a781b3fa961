use concurrency_fuzz_scheduler::seed::{parse_seed, seed_to_string};
use concurrency_fuzz_scheduler::text::trim;

#[test]
fn seeds_in_decimal_and_hexadecimal() {
    assert_eq!(parse_seed("0"), Ok(0));
    assert_eq!(parse_seed("4919"), Ok(4919));
    assert_eq!(parse_seed("0x1337"), Ok(0x1337));
    assert_eq!(parse_seed("0X1337"), Ok(0x1337));
    assert_eq!(parse_seed("0xdeadBEEF"), Ok(0xdead_beef));
    assert_eq!(parse_seed("0009"), Ok(9));
    assert_eq!(parse_seed("18446744073709551615"), Ok(u64::MAX));
    assert_eq!(parse_seed("0xffffffffffffffff"), Ok(u64::MAX));
    assert_eq!(parse_seed("0x000000000000000000001"), Ok(1));
}

#[test]
fn seeds_may_have_a_plus_sign() {
    assert_eq!(parse_seed("+7"), Ok(7));
    assert_eq!(parse_seed("0x+7f"), Ok(0x7f));
}

#[test]
fn whitespace_around_a_seed_does_not_count() {
    assert_eq!(parse_seed("  0x10\n"), Ok(16));
    assert_eq!(parse_seed("\u{3000}12\t"), Ok(12));
}

#[test]
fn refused_seeds_are_named() {
    for text in [
        "",
        "+",
        "-1",
        "++1",
        "0x",
        "0x+",
        "0xg",
        "x10",
        "1f",
        "1 2",
        "1_000",
        "1.0",
        "18446744073709551616",
        "0x10000000000000000",
        "99999999999999999999999",
        "0 x1",
        "0x-1",
        "\u{663}",
    ] {
        assert_eq!(parse_seed(text), Err(format!("invalid seed: {text}")));
    }
    assert_eq!(parse_seed("  12z "), Err("invalid seed: 12z".to_string()));
    assert_eq!(parse_seed(" \t "), Err("invalid seed: ".to_string()));
}

#[test]
fn seeds_agree_with_integer_parsing() {
    for text in ["00", "+0", "7+", "12", "+12", "0b1", "0o7", "1e3", "+-3", "18446744073709551610"] {
        assert_eq!(parse_seed(text).ok(), text.parse::<u64>().ok(), "{text}");
        let hex = format!("0x{text}");
        assert_eq!(
            parse_seed(&hex).ok(),
            u64::from_str_radix(text, 16).ok(),
            "{hex}"
        );
    }
}

#[test]
fn rendered_seeds_are_accepted() {
    let mut seed: u64 = 0x9e37_79b9_7f4a_7c15;
    let mut seeds = vec![0, 1, 9, 10, 15, 16, 255, 256, u64::MAX - 1, u64::MAX];
    for shift in 0..64 {
        seed = seed.rotate_left(7).wrapping_mul(0x2545_f491_4f6c_dd1d);
        seeds.push(seed >> shift);
    }
    for n in seeds {
        assert_eq!(seed_to_string(n), format!("{n:#x}"));
        assert_eq!(parse_seed(&seed_to_string(n)), Ok(n));
        assert_eq!(parse_seed(&n.to_string()), Ok(n));
        assert_eq!(parse_seed(&format!("0X{n:X}")), Ok(n));
    }
}

#[test]
fn whitespace_is_that_of_unicode() {
    for code in 0..=0x10ffff_u32 {
        if let Some(c) = char::from_u32(code) {
            let text = format!("{c}a{c}");
            assert_eq!(trim(&text), text.trim(), "{code:#x}");
        }
    }
    assert_eq!(trim(" \u{85} "), "");
    assert_eq!(trim(""), "");
}
