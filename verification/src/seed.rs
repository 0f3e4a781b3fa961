//! Seeds as text: decimal, or hexadecimal behind `0x`.

use crate::digits::numeral;
use crate::text::{lemma_trimmed_same, to_chars, trim, trimmed};
use vstd::prelude::*;

verus! {

/// The value of a digit in any base up to sixteen; sixteen for what is no such digit.
pub open spec fn digit_in_base(c: char) -> nat {
    if '0' <= c <= '9' {
        (c as int - '0' as int) as nat
    } else if 'a' <= c <= 'f' {
        (c as int - 'a' as int + 10) as nat
    } else if 'A' <= c <= 'F' {
        (c as int - 'A' as int + 10) as nat
    } else {
        16
    }
}

/// One or more digits of the base.
pub open spec fn are_digits_in_base(s: Seq<char>, base: nat) -> bool {
    &&& s.len() > 0
    &&& forall|i: int| 0 <= i < s.len() ==> digit_in_base(#[trigger] s[i]) < base
}

/// The number that a sequence of digits of the base stands for.
pub open spec fn value_in_base(s: Seq<char>, base: nat) -> nat
    decreases s.len(),
{
    if s.len() == 0 {
        0
    } else {
        base * value_in_base(s.drop_last(), base) + digit_in_base(s.last())
    }
}

/// The number written as digits of the base behind an optional plus sign; `None` where it is not
/// that, or does not fit in `u64`.
pub open spec fn parsed_unsigned(s: Seq<char>, base: nat) -> Option<u64> {
    let digits = if s.len() > 0 && s[0] == '+' {
        s.drop_first()
    } else {
        s
    };
    if are_digits_in_base(digits, base) && value_in_base(digits, base) <= u64::MAX {
        Some(value_in_base(digits, base) as u64)
    } else {
        None
    }
}

/// The text begins with `0x` or `0X`.
pub open spec fn has_hex_prefix(s: Seq<char>) -> bool {
    s.len() >= 2 && s[0] == '0' && (s[1] == 'x' || s[1] == 'X')
}

/// The seed that a text stands for, whitespace around it aside.
pub open spec fn parsed_seed(text: Seq<char>) -> Option<u64> {
    let s = trimmed(text);
    if has_hex_prefix(s) {
        parsed_unsigned(s.skip(2), 16)
    } else {
        parsed_unsigned(s, 10)
    }
}

proof fn lemma_value_prefix(s: Seq<char>, base: nat, k: nat)
    requires
        k <= s.len(),
        base >= 1,
    ensures
        value_in_base(s.take(k as int), base) <= value_in_base(s, base),
    decreases s.len() - k,
{
    if k == s.len() {
        assert(s.take(k as int) =~= s);
    } else {
        lemma_value_prefix(s.drop_last(), base, k);
        assert(s.drop_last().take(k as int) =~= s.take(k as int));
        let x = value_in_base(s.drop_last(), base);
        assert(x <= base * x) by (nonlinear_arith)
            requires
                base >= 1,
        ;
    }
}

fn digit_value(c: char) -> (d: u64)
    ensures
        d == digit_in_base(c),
        d <= 16,
{
    if '0' <= c && c <= '9' {
        c as u64 - '0' as u64
    } else if 'a' <= c && c <= 'f' {
        c as u64 - 'a' as u64 + 10
    } else if 'A' <= c && c <= 'F' {
        c as u64 - 'A' as u64 + 10
    } else {
        16
    }
}

/// The number that the characters from `from` on stand for, in base 10 or 16.
fn parse_unsigned(chars: &Vec<char>, from: usize, base: u64) -> (r: Option<u64>)
    requires
        from <= chars.len(),
        2 <= base <= 16,
    ensures
        r == parsed_unsigned(chars@.skip(from as int), base as nat),
{
    let start: usize = if from < chars.len() && chars[from] == '+' { from + 1 } else { from };
    let ghost s = chars@.skip(start as int);
    proof {
        if from < chars.len() {
            assert(chars@.skip(from as int)[0] == chars@[from as int]);
            assert(chars@.skip(from as int).drop_first() =~= chars@.skip(from + 1));
        }
    }
    if start == chars.len() {
        return None;
    }
    let mut n: u64 = 0;
    let mut i: usize = start;
    proof {
        assert(s.take(0) =~= Seq::<char>::empty());
    }
    while i < chars.len()
        invariant
            start <= i <= chars.len(),
            2 <= base <= 16,
            s == chars@.skip(start as int),
            n == value_in_base(s.take(i - start), base as nat),
            forall|j: int| 0 <= j < i - start ==> digit_in_base(#[trigger] s[j]) < base,
            parsed_unsigned(chars@.skip(from as int), base as nat) == if are_digits_in_base(
                s,
                base as nat,
            ) && value_in_base(s, base as nat) <= u64::MAX {
                Some(value_in_base(s, base as nat) as u64)
            } else {
                None
            },
        decreases chars.len() - i,
    {
        let d = digit_value(chars[i]);
        proof {
            assert(s[i - start] == chars@[i as int]);
            assert(s.take(i - start + 1).drop_last() =~= s.take(i - start));
            assert(s.take(i - start + 1).last() == s[i - start]);
            lemma_value_prefix(s, base as nat, (i - start + 1) as nat);
        }
        if d >= base {
            return None;
        }
        if n > (u64::MAX - d) / base {
            proof {
                let m = (u64::MAX - d) as int;
                let b = base as int;
                vstd::arithmetic::div_mod::lemma_fundamental_div_mod(m, b);
                assert(base * n + d > u64::MAX) by (nonlinear_arith)
                    requires
                        m == b * (m / b) + m % b,
                        0 <= m % b < b,
                        b == base,
                        n >= m / b + 1,
                        m == u64::MAX - d,
                ;
            }
            return None;
        }
        proof {
            let m = (u64::MAX - d) as int;
            let b = base as int;
            vstd::arithmetic::div_mod::lemma_fundamental_div_mod(m, b);
            assert(base * n + d <= u64::MAX && base * n <= u64::MAX) by (nonlinear_arith)
                requires
                    m == b * (m / b) + m % b,
                    0 <= m % b < b,
                    b == base,
                    n <= m / b,
                    m == u64::MAX - d,
                    d >= 0,
            ;
        }
        n = base * n + d;
        i += 1;
    }
    proof {
        assert(s.take(i - start) =~= s);
    }
    Some(n)
}

/// What is said of a text that is no seed.
pub open spec fn seed_refusal(text: Seq<char>) -> Seq<char> {
    "invalid seed: "@ + trimmed(text)
}

/// Accepts a seed as decimal, or as hexadecimal behind `0x`.
pub fn parse_seed(text: &str) -> (seed: Result<u64, String>)
    ensures
        match parsed_seed(text@) {
            Some(n) => seed == Ok::<u64, String>(n),
            None => seed matches Err(message) && message@ == "invalid seed: "@ + trimmed(text@),
        },
        seed matches Err(message) ==> message@ == seed_refusal(text@),
{
    let s = trim(text);
    let chars = to_chars(s);
    let result = if chars.len() >= 2 && chars[0] == '0' && (chars[1] == 'x' || chars[1] == 'X') {
        parse_unsigned(&chars, 2, 16)
    } else {
        proof {
            assert(chars@.skip(0) =~= chars@);
        }
        parse_unsigned(&chars, 0, 10)
    };
    match result {
        Some(n) => Ok(n),
        None => {
            let mut message = String::from_str("invalid seed: ");
            message.append(s);
            Err(message)
        },
    }
}

/// The character of a hexadecimal digit.
pub open spec fn hex_char(d: nat) -> char {
    if d < 10 {
        (48 + d) as char
    } else {
        (87 + d) as char
    }
}

/// The character of a hexadecimal digit.
pub(crate) fn hex_digit(d: u8) -> (c: char)
    requires
        d < 16,
    ensures
        c == hex_char(d as nat),
{
    if d < 10 {
        (48 + d) as char
    } else {
        (87 + d) as char
    }
}

/// The hexadecimal digits of `n`, without leading zeros.
pub open spec fn hex_numeral(n: nat) -> Seq<char>
    decreases n,
{
    if n < 16 {
        seq![hex_char(n)]
    } else {
        hex_numeral(n / 16).push(hex_char(n % 16))
    }
}

/// A seed in hexadecimal, behind `0x`.
pub open spec fn rendered_seed(seed: u64) -> Seq<char> {
    seq!['0', 'x'] + hex_numeral(seed as nat)
}

/// The seed in hexadecimal, behind `0x`.
pub fn seed_to_string(seed: u64) -> (text: String)
    ensures
        text@ == rendered_seed(seed),
{
    let mut digits: Vec<char> = Vec::new();
    let mut rest: u64 = seed;
    let ghost mut done: Seq<char> = Seq::empty();
    while rest >= 16
        invariant
            done.len() == digits@.len(),
            forall|i: int| 0 <= i < done.len() ==> done[i] == digits@[done.len() - 1 - i],
            hex_numeral(seed as nat) =~= hex_numeral(rest as nat) + done,
        decreases rest,
    {
        let c = hex_digit((rest % 16) as u8);
        digits.push(c);
        proof {
            let before = done;
            done = seq![c] + done;
            assert(hex_numeral(rest as nat) == hex_numeral(rest as nat / 16).push(c));
            assert(hex_numeral(rest as nat / 16).push(c) + before =~= hex_numeral(
                rest as nat / 16,
            ) + done);
        }
        rest = rest / 16;
    }
    let c = hex_digit(rest as u8);
    let mut text = String::new();
    text.push('0');
    text.push('x');
    text.push(c);
    let mut i: usize = digits.len();
    while i > 0
        invariant
            i <= digits.len(),
            done.len() == digits@.len(),
            forall|i: int| 0 <= i < done.len() ==> done[i] == digits@[done.len() - 1 - i],
            text@ =~= seq!['0', 'x', c] + done.take(done.len() - i),
        decreases i,
    {
        i -= 1;
        text.push(digits[i]);
        proof {
            assert(done[done.len() - 1 - i] == digits@[i as int]);
            assert(done.take(done.len() - i) =~= done.take(done.len() - i - 1).push(
                done[done.len() - 1 - i],
            ));
        }
    }
    proof {
        assert(done.take(done.len() - i) =~= done);
        assert(hex_numeral(rest as nat) =~= seq![c]);
        assert(text@ =~= rendered_seed(seed));
    }
    text
}

proof fn lemma_hex_numeral(n: nat)
    ensures
        are_digits_in_base(hex_numeral(n), 16),
        value_in_base(hex_numeral(n), 16) == n,
    decreases n,
{
    let s = hex_numeral(n);
    assert(digit_in_base(hex_char(n % 16)) == n % 16);
    if n < 16 {
        assert(s.drop_last() =~= Seq::<char>::empty());
        assert(value_in_base(s.drop_last(), 16) == 0);
    } else {
        lemma_hex_numeral(n / 16);
        assert(s.drop_last() =~= hex_numeral(n / 16));
        assert(s.last() == hex_char(n % 16));
        assert forall|i: int| 0 <= i < s.len() implies digit_in_base(#[trigger] s[i]) < 16 by {
            if i < s.len() - 1 {
                assert(s[i] == hex_numeral(n / 16)[i]);
            }
        }
    }
}

proof fn lemma_numeral(n: nat)
    ensures
        are_digits_in_base(numeral(n), 10),
        value_in_base(numeral(n), 10) == n,
    decreases n,
{
    let s = numeral(n);
    if n < 10 {
        assert(s.drop_last() =~= Seq::<char>::empty());
        assert(value_in_base(s.drop_last(), 10) == 0);
    } else {
        lemma_numeral(n / 10);
        assert(s.drop_last() =~= numeral(n / 10));
        assert forall|i: int| 0 <= i < s.len() implies digit_in_base(#[trigger] s[i]) < 10 by {
            if i < s.len() - 1 {
                assert(s[i] == numeral(n / 10)[i]);
            }
        }
    }
}

/// Hexadecimal digits of either case are accepted behind `0x` and behind `0X`, as the seed that
/// they stand for.
pub proof fn law_hexadecimal_seed_is_accepted(digits: Seq<char>)
    requires
        are_digits_in_base(digits, 16),
        value_in_base(digits, 16) <= u64::MAX,
    ensures
        parsed_seed(seq!['0', 'x'] + digits) == Some(value_in_base(digits, 16) as u64),
        parsed_seed(seq!['0', 'X'] + digits) == Some(value_in_base(digits, 16) as u64),
{
    let lower = seq!['0', 'x'] + digits;
    let upper = seq!['0', 'X'] + digits;
    assert(digit_in_base(digits[0]) < 16);
    assert(digit_in_base(digits[digits.len() - 1]) < 16);
    assert(lower.last() == digits[digits.len() - 1]);
    assert(upper.last() == digits[digits.len() - 1]);
    lemma_trimmed_same(lower);
    lemma_trimmed_same(upper);
    assert(lower.skip(2) =~= digits);
    assert(upper.skip(2) =~= digits);
}

/// The capital form of a hexadecimal digit.
pub open spec fn capital(c: char) -> char {
    if 'a' <= c <= 'f' {
        (c as int - 32) as char
    } else {
        c
    }
}

pub open spec fn capitals(s: Seq<char>) -> Seq<char> {
    s.map_values(|c: char| capital(c))
}

/// The text of a seed with capital letters.
pub open spec fn capital_seed(seed: u64) -> Seq<char> {
    seq!['0', 'X'] + capitals(hex_numeral(seed as nat))
}

proof fn lemma_capital_digits(s: Seq<char>)
    requires
        forall|i: int| 0 <= i < s.len() ==> digit_in_base(#[trigger] s[i]) < 16,
    ensures
        forall|i: int|
            0 <= i < s.len() ==> digit_in_base(#[trigger] capitals(s)[i]) < 16,
        value_in_base(capitals(s), 16) == value_in_base(s, 16),
    decreases s.len(),
{
    if s.len() > 0 {
        let t = s.drop_last();
        assert forall|i: int| 0 <= i < t.len() implies digit_in_base(#[trigger] t[i]) < 16 by {
            assert(t[i] == s[i]);
        }
        lemma_capital_digits(t);
        assert(capitals(s).drop_last() =~= capitals(t));
        assert(digit_in_base(s[s.len() - 1]) < 16);
    }
}

/// The text of a seed in capital letters, `0X` included, is accepted as that seed.
pub proof fn law_capital_seed_is_accepted(seed: u64)
    ensures
        parsed_seed(capital_seed(seed)) == Some(seed),
{
    let digits = hex_numeral(seed as nat);
    lemma_hex_numeral(seed as nat);
    lemma_capital_digits(digits);
    law_hexadecimal_seed_is_accepted(capitals(digits));
}

/// The text of a seed is accepted as that seed: a logged campaign can be run again.
pub proof fn law_rendered_seed_is_accepted(seed: u64)
    ensures
        parsed_seed(rendered_seed(seed)) == Some(seed),
{
    lemma_hex_numeral(seed as nat);
    law_hexadecimal_seed_is_accepted(hex_numeral(seed as nat));
}

/// A seed can also be given in decimal.
pub proof fn law_decimal_seed_is_accepted(seed: u64)
    ensures
        parsed_seed(numeral(seed as nat)) == Some(seed),
{
    let text = numeral(seed as nat);
    lemma_numeral(seed as nat);
    assert(digit_in_base(text[0]) < 10);
    assert(digit_in_base(text[text.len() - 1]) < 10);
    if text.len() >= 2 {
        assert(digit_in_base(text[1]) < 10);
    }
    lemma_trimmed_same(text);
}

/// The text of a seed is `0x` and lower case hexadecimal digits, without leading zeros, that stand
/// for it.
pub proof fn law_seed_text(seed: u64)
    ensures
        ({
            let text = rendered_seed(seed);
            let digits = text.skip(2);
            &&& text.len() > 2
            &&& text[0] == '0'
            &&& text[1] == 'x'
            &&& forall|i: int|
                0 <= i < digits.len() ==> '0' <= #[trigger] digits[i] <= '9' || 'a' <= digits[i]
                    <= 'f'
            &&& digits.len() == 1 || digits[0] != '0'
            &&& value_in_base(digits, 16) == seed
        }),
{
    let digits = hex_numeral(seed as nat);
    lemma_hex_numeral(seed as nat);
    lemma_hex_digits(seed as nat);
    assert(rendered_seed(seed).skip(2) =~= digits);
}

proof fn lemma_hex_digits(n: nat)
    ensures
        forall|i: int|
            0 <= i < hex_numeral(n).len() ==> '0' <= #[trigger] hex_numeral(n)[i] <= '9' || 'a'
                <= hex_numeral(n)[i] <= 'f',
        n == 0 ==> hex_numeral(n).len() == 1,
        n > 0 ==> hex_numeral(n)[0] != '0',
    decreases n,
{
    if n >= 16 {
        let s = hex_numeral(n);
        let t = hex_numeral(n / 16);
        lemma_hex_digits(n / 16);
        lemma_hex_numeral(n / 16);
        assert forall|i: int| 0 <= i < s.len() implies '0' <= #[trigger] s[i] <= '9' || 'a' <= s[i]
            <= 'f' by {
            if i < t.len() {
                assert(s[i] == t[i]);
            }
        }
        assert(s[0] == t[0]);
    }
}

/// One more digit makes `base` times the number, and the digit.
pub proof fn law_value_in_base(s: Seq<char>, c: char, base: nat)
    ensures
        value_in_base(Seq::empty(), base) == 0,
        value_in_base(s.push(c), base) == base * value_in_base(s, base) + digit_in_base(c),
        '0' <= c <= '9' ==> digit_in_base(c) == c as int - 48,
        'a' <= c <= 'f' ==> digit_in_base(c) == c as int - 87,
        'A' <= c <= 'F' ==> digit_in_base(c) == c as int - 55,
        !('0' <= c <= '9') && !('a' <= c <= 'f') && !('A' <= c <= 'F') ==> digit_in_base(c) == 16,
{
    assert(s.push(c).drop_last() =~= s);
}

/// What a seed may be: an optional plus sign and digits of the base; behind `0x` or `0X` those of
/// base sixteen, otherwise those of base ten.
pub open spec fn is_seed_text(
    text: Seq<char>,
    prefix: Seq<char>,
    sign: Seq<char>,
    digits: Seq<char>,
    base: nat,
) -> bool {
    &&& text == prefix + sign + digits
    &&& prefix == seq!['0', 'x'] || prefix == seq!['0', 'X'] ==> base == 16
    &&& prefix == Seq::<char>::empty() ==> base == 10
    &&& prefix == seq!['0', 'x'] || prefix == seq!['0', 'X'] || prefix == Seq::<char>::empty()
    &&& sign == seq!['+'] || sign == Seq::<char>::empty()
    &&& are_digits_in_base(digits, base)
}

/// A text that is such a seed between its whitespace is accepted if and only if the number fits in
/// `u64`, and as that number.
pub proof fn law_grammar_of_seeds(
    text: Seq<char>,
    prefix: Seq<char>,
    sign: Seq<char>,
    digits: Seq<char>,
    base: nat,
)
    requires
        is_seed_text(trimmed(text), prefix, sign, digits, base),
    ensures
        value_in_base(digits, base) <= u64::MAX ==> parsed_seed(text) == Some(
            value_in_base(digits, base) as u64,
        ),
        value_in_base(digits, base) > u64::MAX ==> parsed_seed(text) is None,
{
    let s = trimmed(text);
    assert(digit_in_base(digits[0]) < base);
    if prefix.len() == 0 {
        assert(prefix =~= Seq::<char>::empty());
        assert(s =~= sign + digits);
        if digits.len() >= 2 {
            assert(digit_in_base(digits[1]) < 10);
        }
        assert(!has_hex_prefix(s)) by {
            if sign.len() == 0 && digits.len() >= 2 {
                assert(s[1] == digits[1]);
            }
        }
    } else {
        assert(s[0] == prefix[0] && s[1] == prefix[1]);
        assert(s.skip(2) =~= sign + digits);
    }
    let rest = sign + digits;
    if sign.len() == 0 {
        assert(rest =~= digits);
        assert(rest[0] == digits[0]);
    } else {
        assert(rest[0] == '+');
        assert(rest.drop_first() =~= digits);
    }
}

/// A text that is accepted is such a seed between its whitespace.
pub proof fn law_accepted_seeds_are_seeds(text: Seq<char>)
    requires
        parsed_seed(text) is Some,
    ensures
        exists|prefix: Seq<char>, sign: Seq<char>, digits: Seq<char>, base: nat| #[trigger]
            is_seed_text(trimmed(text), prefix, sign, digits, base),
{
    let s = trimmed(text);
    let empty = Seq::<char>::empty();
    let (prefix, rest, base) = if has_hex_prefix(s) {
        (s.take(2), s.skip(2), 16nat)
    } else {
        (empty, s, 10nat)
    };
    let (sign, digits) = if rest.len() > 0 && rest[0] == '+' {
        (seq!['+'], rest.drop_first())
    } else {
        (empty, rest)
    };
    if has_hex_prefix(s) {
        assert(prefix =~= seq!['0', 'x'] || prefix =~= seq!['0', 'X']);
    }
    assert(s =~= prefix + sign + digits);
    assert(is_seed_text(s, prefix, sign, digits, base));
}

/// Of a text that is no seed it is said that it is none, and which it was, whitespace around it
/// aside.
pub proof fn law_refused_seeds_are_named(text: Seq<char>)
    ensures
        "invalid seed: "@.is_prefix_of(seed_refusal(text)),
        seed_refusal(text).skip("invalid seed: "@.len() as int) == trimmed(text),
{
    let message = seed_refusal(text);
    let head = "invalid seed: "@;
    assert(message.subrange(0, head.len() as int) =~= head);
    assert(message.skip(head.len() as int) =~= trimmed(text));
}

} // verus!
