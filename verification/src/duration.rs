//! Durations as text: parsing, rendering, and ranges of them. Everything is in nanoseconds.

use crate::digits::{lemma_pow10_adds, lemma_pow10_pos, numeral, numeral_text, pow10};
use crate::double::{fixed, nearest, quotient, Double};
use crate::text::{find, lemma_position, position, to_chars, trim, trimmed};
use vstd::arithmetic::div_mod::lemma_fundamental_div_mod_converse;
use vstd::prelude::*;

verus! {

pub open spec fn is_digit(c: char) -> bool {
    '0' <= c <= '9'
}

/// One or more decimal digits.
pub open spec fn is_digits(s: Seq<char>) -> bool {
    &&& s.len() > 0
    &&& forall|i: int| 0 <= i < s.len() ==> is_digit(#[trigger] s[i])
}

/// Digits, or digits, a point and digits.
pub open spec fn is_number(s: Seq<char>) -> bool {
    ||| is_digits(s)
    ||| exists|p: int|
        0 <= p < s.len() && #[trigger] s[p] == '.' && is_digits(s.take(p)) && is_digits(
            s.skip(p + 1),
        )
}

/// The position of the point, or the length of `s` where there is none.
pub open spec fn point(s: Seq<char>) -> nat {
    position(s, '.')
}

pub open spec fn whole_part(s: Seq<char>) -> Seq<char> {
    s.take(point(s) as int)
}

/// What stands behind the point; empty where there is none.
pub open spec fn fraction_part(s: Seq<char>) -> Seq<char> {
    if point(s) < s.len() {
        s.skip(point(s) as int + 1)
    } else {
        Seq::empty()
    }
}

pub open spec fn digit_value(c: char) -> nat {
    (c as int - '0' as int) as nat
}

/// The number that a sequence of decimal digits stands for.
pub open spec fn decimal_value(s: Seq<char>) -> nat
    decreases s.len(),
{
    if s.len() == 0 {
        0
    } else {
        10 * decimal_value(s.drop_last()) + digit_value(s.last())
    }
}

pub(crate) proof fn lemma_decimal_concat(a: Seq<char>, b: Seq<char>)
    ensures
        decimal_value(a + b) == decimal_value(a) * pow10(b.len()) + decimal_value(b),
    decreases b.len(),
{
    if b.len() == 0 {
        assert(a + b =~= a);
        assert(pow10(0) == 1);
        assert(decimal_value(a) * pow10(b.len()) == decimal_value(a)) by (nonlinear_arith)
            requires
                pow10(b.len()) == 1,
        ;
    } else {
        lemma_decimal_concat(a, b.drop_last());
        assert((a + b).drop_last() =~= a + b.drop_last());
        assert((a + b).last() == b.last());
        let x = decimal_value(a);
        assert(10 * (x * pow10((b.len() - 1) as nat)) == x * pow10(b.len())) by (nonlinear_arith)
            requires
                pow10(b.len()) == 10 * pow10((b.len() - 1) as nat),
        ;
    }
}

pub(crate) proof fn lemma_number_by_point(s: Seq<char>, p: nat)
    requires
        p <= s.len(),
        p < s.len() ==> s[p as int] == '.',
        forall|i: int| 0 <= i < p ==> #[trigger] s[i] != '.',
    ensures
        is_number(s) <==> is_digits(s.take(p as int)) && (p < s.len() ==> is_digits(
            s.skip(p as int + 1),
        )),
        point(s) == p,
{
    lemma_position(s, '.', p);
    if p == s.len() {
        assert(s.take(p as int) =~= s);
    } else {
        assert(!is_digits(s)) by {
            assert(!is_digit(s[p as int]));
        }
        if is_number(s) {
            let q = choose|q: int|
                0 <= q < s.len() && #[trigger] s[q] == '.' && is_digits(s.take(q)) && is_digits(
                    s.skip(q + 1),
                );
            if q > p {
                assert(is_digit(s.take(q)[p as int]));
            }
            assert(q == p);
        }
    }
}

/// Whether the characters from `from` up to `to` are one or more digits.
fn check_digits(chars: &Vec<char>, from: usize, to: usize) -> (ok: bool)
    requires
        from <= to <= chars.len(),
    ensures
        ok == is_digits(chars@.subrange(from as int, to as int)),
{
    let ghost s = chars@.subrange(from as int, to as int);
    if from == to {
        return false;
    }
    let mut i: usize = from;
    while i < to
        invariant
            from <= i <= to <= chars.len(),
            s == chars@.subrange(from as int, to as int),
            forall|j: int| 0 <= j < i - from ==> is_digit(#[trigger] s[j]),
        decreases to - i,
    {
        assert(s[i - from] == chars@[i as int]);
        if !('0' <= chars[i] && chars[i] <= '9') {
            return false;
        }
        i += 1;
    }
    true
}

/// Accepts only digits with at most a single point and digits on both sides.
pub fn is_valid_number(s: &str) -> (ok: bool)
    ensures
        ok == is_number(s@),
{
    let chars = to_chars(s);
    let p = find(&chars, '.', 0);
    proof {
        lemma_number_by_point(chars@, p as nat);
        assert(chars@.subrange(0, p as int) =~= chars@.take(p as int));
        if p < chars.len() {
            assert(chars@.subrange(p + 1, chars@.len() as int) =~= chars@.skip(p + 1));
        }
    }
    if p == chars.len() {
        check_digits(&chars, 0, p)
    } else {
        check_digits(&chars, 0, p) && check_digits(&chars, p + 1, chars.len())
    }
}

/// `number` units of `unit` nanoseconds each: the exact value, cut down to whole nanoseconds, and
/// to `u64::MAX` where it is more than that.
pub open spec fn scaled_number(number: Seq<char>, unit: nat) -> u64 {
    let digits = whole_part(number) + fraction_part(number);
    let ns = decimal_value(digits) * unit / pow10(fraction_part(number).len());
    if ns > u64::MAX {
        u64::MAX
    } else {
        ns as u64
    }
}

proof fn lemma_decimal_prefix(s: Seq<char>, k: nat)
    requires
        k <= s.len(),
    ensures
        decimal_value(s.take(k as int)) <= decimal_value(s),
    decreases s.len() - k,
{
    if k == s.len() {
        assert(s.take(k as int) =~= s);
    } else {
        lemma_decimal_prefix(s.drop_last(), k);
        assert(s.drop_last().take(k as int) =~= s.take(k as int));
    }
}

pub(crate) proof fn lemma_decimal_bound(s: Seq<char>)
    requires
        forall|i: int| 0 <= i < s.len() ==> is_digit(#[trigger] s[i]),
    ensures
        decimal_value(s) < pow10(s.len()),
    decreases s.len(),
{
    if s.len() > 0 {
        let t = s.drop_last();
        assert forall|i: int| 0 <= i < t.len() implies is_digit(#[trigger] t[i]) by {
            assert(t[i] == s[i]);
        }
        lemma_decimal_bound(t);
        assert(is_digit(s[s.len() - 1]));
    }
}

/// Zeros that follow shift a number.
pub(crate) proof fn lemma_decimal_zeros(s: Seq<char>, k: nat)
    ensures
        decimal_value(s + zeros(k)) == decimal_value(s) * pow10(k),
    decreases k,
{
    lemma_decimal_concat(s, zeros(k));
    assert(decimal_value(zeros(k)) == 0) by {
        if k > 0 {
            let e = Seq::<char>::empty();
            lemma_decimal_zeros(e, (k - 1) as nat);
            assert(e + zeros((k - 1) as nat) =~= zeros(k).drop_last());
            assert(decimal_value(e) * pow10((k - 1) as nat) == 0) by (nonlinear_arith)
                requires
                    decimal_value(e) == 0,
            ;
        }
    }
}

/// `k` zeros.
pub open spec fn zeros(k: nat) -> Seq<char> {
    Seq::new(k, |i: int| '0')
}

/// The first `k` digits of a fraction, which has no end of zeros.
spec fn leading_digits(fraction: Seq<char>, k: nat) -> Seq<char> {
    if k <= fraction.len() {
        fraction.take(k as int)
    } else {
        fraction + zeros((k - fraction.len()) as nat)
    }
}

/// A number of `10^shift` nanoseconds: the point moves, and what is behind it is cut off.
proof fn lemma_shifted_point(whole: Seq<char>, fraction: Seq<char>, shift: nat)
    requires
        forall|i: int| 0 <= i < fraction.len() ==> is_digit(#[trigger] fraction[i]),
    ensures
        decimal_value(whole + fraction) * pow10(shift) / pow10(fraction.len()) == decimal_value(
            whole + leading_digits(fraction, shift),
        ),
{
    let k = fraction.len();
    let num = decimal_value(whole + fraction);
    lemma_pow10_pos(k);
    lemma_pow10_pos(shift);
    if shift <= k {
        let head = whole + fraction.take(shift as int);
        let tail = fraction.skip(shift as int);
        let rest = decimal_value(tail);
        let q = decimal_value(head);
        let p = pow10(shift);
        let t = pow10(tail.len());
        assert(whole + fraction =~= head + tail);
        lemma_decimal_concat(head, tail);
        assert forall|i: int| 0 <= i < tail.len() implies is_digit(#[trigger] tail[i]) by {
            assert(tail[i] == fraction[i + shift]);
        }
        lemma_decimal_bound(tail);
        lemma_pow10_adds(tail.len(), shift);
        assert(num * p == q * pow10(k) + rest * p) by (nonlinear_arith)
            requires
                num == q * t + rest,
                pow10(k) == t * p,
        ;
        assert(rest * p < pow10(k)) by (nonlinear_arith)
            requires
                rest < t,
                p > 0,
                pow10(k) == t * p,
        ;
        assert(rest * p >= 0) by (nonlinear_arith);
        lemma_fundamental_div_mod_converse(
            (num * p) as int,
            pow10(k) as int,
            q as int,
            (rest * p) as int,
        );
    } else {
        let more = (shift - k) as nat;
        lemma_decimal_zeros(whole + fraction, more);
        assert(whole + fraction + zeros(more) =~= whole + leading_digits(fraction, shift));
        lemma_pow10_adds(k, more);
        let q = num * pow10(more);
        assert(num * pow10(shift) == q * pow10(k)) by (nonlinear_arith)
            requires
                q == num * pow10(more),
                pow10(shift) == pow10(k) * pow10(more),
        ;
        lemma_fundamental_div_mod_converse(
            (num * pow10(shift)) as int,
            pow10(k) as int,
            q as int,
            0,
        );
    }
}

/// The number `n` with one more digit, or `None` where it does not fit.
fn append_digit(n: u64, c: char) -> (r: Option<u64>)
    requires
        is_digit(c),
    ensures
        match r {
            Some(m) => m == 10 * n + digit_value(c),
            None => 10 * n + digit_value(c) > u64::MAX,
        },
{
    let d: u64 = c as u64 - '0' as u64;
    if n > (u64::MAX - d) / 10 {
        None
    } else {
        Some(10 * n + d)
    }
}

proof fn lemma_decimal_step(s: Seq<char>, i: int)
    requires
        0 <= i < s.len(),
    ensures
        decimal_value(s.take(i + 1)) == 10 * decimal_value(s.take(i)) + digit_value(s[i]),
        decimal_value(s.take(i + 1)) <= decimal_value(s),
{
    assert(s.take(i + 1).drop_last() =~= s.take(i));
    assert(s.take(i + 1).last() == s[i]);
    lemma_decimal_prefix(s, (i + 1) as nat);
}

/// A number of units of `10^shift` nanoseconds each.
fn scale_number(chars: &Vec<char>, shift: usize) -> (ns: u64)
    requires
        is_number(chars@),
    ensures
        ns == scaled_number(chars@, pow10(shift as nat)),
{
    let p = find(chars, '.', 0);
    let count: usize = if p < chars.len() { chars.len() - p - 1 } else { 0 };
    let ghost whole = whole_part(chars@);
    let ghost fraction = fraction_part(chars@);
    let ghost s = whole + leading_digits(fraction, shift as nat);
    proof {
        assert(chars@.skip(0) =~= chars@);
        lemma_number_by_point(chars@, p as nat);
        assert forall|j: int| 0 <= j < fraction.len() implies is_digit(#[trigger] fraction[j]) by {}
        lemma_shifted_point(whole, fraction, shift as nat);
        assert(s.take(0) =~= Seq::<char>::empty());
    }
    let mut n: u64 = 0;
    let mut i: usize = 0;
    while i < p
        invariant
            i <= p <= chars.len(),
            whole == chars@.take(p as int),
            is_digits(whole),
            s == whole + leading_digits(fraction, shift as nat),
            n == decimal_value(s.take(i as int)),
            decimal_value(s) > u64::MAX ==> scaled_number(chars@, pow10(shift as nat)) == u64::MAX,
        decreases p - i,
    {
        proof {
            assert(is_digit(whole[i as int]));
            assert(s[i as int] == chars@[i as int]);
            lemma_decimal_step(s, i as int);
        }
        n = match append_digit(n, chars[i]) {
            Some(m) => m,
            None => {
                return u64::MAX;
            },
        };
        i += 1;
    }
    let mut j: usize = 0;
    while j < shift
        invariant
            j <= shift,
            p <= chars.len(),
            whole.len() == p,
            fraction.len() == count,
            count > 0 ==> p + 1 + count == chars.len() && fraction == chars@.skip(p + 1),
            forall|j: int| 0 <= j < fraction.len() ==> is_digit(#[trigger] fraction[j]),
            s == whole + leading_digits(fraction, shift as nat),
            n == decimal_value(s.take(p + j)),
            decimal_value(s) > u64::MAX ==> scaled_number(chars@, pow10(shift as nat)) == u64::MAX,
        decreases shift - j,
    {
        let c: char = if j < count { chars[p + 1 + j] } else { '0' };
        proof {
            if j < count {
                assert(is_digit(fraction[j as int]));
            }
            assert(s[p + j] == c);
            lemma_decimal_step(s, p + j);
        }
        n = match append_digit(n, c) {
            Some(m) => m,
            None => {
                return u64::MAX;
            },
        };
        j += 1;
    }
    proof {
        assert(s.take(p + j) =~= s);
    }
    n
}

/// The unit at the end of a duration: its length in nanoseconds and in characters.
pub open spec fn unit_of(text: Seq<char>) -> Option<(nat, nat)> {
    if "ms"@.is_suffix_of(text) {
        Some((1_000_000, 2))
    } else if "us"@.is_suffix_of(text) {
        Some((1_000, 2))
    } else if "ns"@.is_suffix_of(text) {
        Some((1, 2))
    } else if "s"@.is_suffix_of(text) {
        Some((1_000_000_000, 1))
    } else {
        None
    }
}

/// What a duration such as `10ms` stands for in nanoseconds; `None` where it is not a number with
/// a unit.
pub open spec fn parsed_duration(text: Seq<char>) -> Option<u64> {
    match unit_of(text) {
        Some((unit, len)) => {
            let number = text.take(text.len() - len);
            if is_number(number) {
                Some(scaled_number(number, unit))
            } else {
                None
            }
        },
        None => None,
    }
}

/// Why a duration or a range of durations was refused.
#[derive(Debug)]
pub enum DurationError {
    /// The text is not a duration.
    InvalidDuration(String),
    /// The text is not a duration and not two of them with a comma between.
    InvalidRange(String),
    /// The lower end of the range is above the upper one.
    MinAboveMax,
}

/// What a [`DurationError`] says.
pub open spec fn error_message(e: DurationError) -> Seq<char> {
    match e {
        DurationError::InvalidDuration(text) => "invalid duration string: "@ + text@,
        DurationError::InvalidRange(text) => "invalid duration range: "@ + text@,
        DurationError::MinAboveMax => "min_ns must be less than or equal to max_ns"@,
    }
}

impl DurationError {
    /// The error in words.
    pub fn message(&self) -> (text: String)
        ensures
            text@ == error_message(*self),
    {
        match self {
            DurationError::InvalidDuration(text) => {
                let mut message = String::from_str("invalid duration string: ");
                message.append(text.as_str());
                message
            },
            DurationError::InvalidRange(text) => {
                let mut message = String::from_str("invalid duration range: ");
                message.append(text.as_str());
                message
            },
            DurationError::MinAboveMax => String::from_str(
                "min_ns must be less than or equal to max_ns",
            ),
        }
    }
}

/// The unit at the end of a duration: the power of ten that is its length in nanoseconds, and its
/// length in characters.
fn find_unit(chars: &Vec<char>) -> (unit: Option<(usize, usize)>)
    ensures
        match unit {
            Some((shift, len)) => unit_of(chars@) == Some((pow10(shift as nat), len as nat)),
            None => unit_of(chars@) is None,
        },
        unit matches Some((shift, len)) ==> len <= chars.len(),
{
    let n = chars.len();
    proof {
        reveal_strlit("ms");
        reveal_strlit("us");
        reveal_strlit("ns");
        reveal_strlit("s");
        reveal_with_fuel(pow10, 10);
        let s = chars@;
        if n >= 1 {
            assert("s"@.is_suffix_of(s) <==> s[n - 1] == 's') by {
                assert(s.subrange(n - 1, n as int)[0] == s[n - 1]);
                if s[n - 1] == 's' {
                    assert("s"@ =~= s.subrange(n - 1, n as int));
                }
            }
        }
        if n >= 2 {
            let t = s.subrange(n - 2, n as int);
            assert(t[0] == s[n - 2] && t[1] == s[n - 1]);
            assert("ms"@.is_suffix_of(s) <==> s[n - 2] == 'm' && s[n - 1] == 's') by {
                if t[0] == 'm' && t[1] == 's' {
                    assert("ms"@ =~= t);
                }
            }
            assert("us"@.is_suffix_of(s) <==> s[n - 2] == 'u' && s[n - 1] == 's') by {
                if t[0] == 'u' && t[1] == 's' {
                    assert("us"@ =~= t);
                }
            }
            assert("ns"@.is_suffix_of(s) <==> s[n - 2] == 'n' && s[n - 1] == 's') by {
                if t[0] == 'n' && t[1] == 's' {
                    assert("ns"@ =~= t);
                }
            }
        }
    }
    if n == 0 || chars[n - 1] != 's' {
        None
    } else if n == 1 {
        Some((9, 1))
    } else if chars[n - 2] == 'm' {
        Some((6, 2))
    } else if chars[n - 2] == 'u' {
        Some((3, 2))
    } else if chars[n - 2] == 'n' {
        Some((0, 2))
    } else {
        Some((9, 1))
    }
}

/// Parses a duration such as `10ms`, `1.5s`, `200us` or `500ns` into nanoseconds. Fractions are
/// allowed: the grammar is `[0-9]+(\.[0-9]+)?(ms|us|ns|s)`. What is below a nanosecond is cut off,
/// and what is above `u64::MAX` comes to that.
pub fn parse_to_nanoseconds(text: &str) -> (ns: Result<u64, DurationError>)
    ensures
        match parsed_duration(text@) {
            Some(n) => ns == Ok::<u64, DurationError>(n),
            None => ns matches Err(DurationError::InvalidDuration(t)) && t@ == text@,
        },
{
    let chars = to_chars(text);
    if let Some((shift, len)) = find_unit(&chars) {
        let number = text.substring_char(0, chars.len() - len);
        proof {
            assert(number@ =~= text@.take(text@.len() - len));
        }
        if is_valid_number(number) {
            return Ok(scale_number(&to_chars(number), shift));
        }
    }
    Err(DurationError::InvalidDuration(String::from_str(text)))
}

/// The text of a number of nanoseconds, in the largest unit that keeps the number readable: a
/// quotient in double precision, with the given number of digits behind the point.
pub open spec fn rendered_duration(nanoseconds: u64, decimals: nat) -> Seq<char> {
    let value = nearest(false, nanoseconds as nat, 1);
    if nanoseconds < 1_000 {
        numeral(nanoseconds as nat) + "ns"@
    } else if nanoseconds < 1_000_000 {
        fixed(quotient(value, nearest(false, 1_000, 1)), decimals) + "us"@
    } else if nanoseconds < 1_000_000_000 {
        fixed(quotient(value, nearest(false, 1_000_000, 1)), decimals) + "ms"@
    } else {
        fixed(quotient(value, nearest(false, 1_000_000_000, 1)), decimals) + "s"@
    }
}

/// Renders a number of nanoseconds in the largest unit that keeps the number readable, with the
/// given number of digits behind the point. Whole nanoseconds have none. The standard library
/// formats with up to 65535 digits behind the point, and so does this.
pub fn nanoseconds_to_string(nanoseconds: u64, decimals: usize) -> (text: String)
    requires
        nanoseconds >= 1_000 ==> decimals <= 65535,
    ensures
        text@ == rendered_duration(nanoseconds, decimals as nat),
{
    if nanoseconds < 1_000 {
        let mut text = numeral_text(nanoseconds);
        text.append("ns");
        return text;
    }
    let value = Double::from_u64(nanoseconds);
    if nanoseconds < 1_000_000 {
        let mut text = value.over(Double::from_u64(1_000)).to_fixed(decimals);
        text.append("us");
        text
    } else if nanoseconds < 1_000_000_000 {
        let mut text = value.over(Double::from_u64(1_000_000)).to_fixed(decimals);
        text.append("ms");
        text
    } else {
        let mut text = value.over(Double::from_u64(1_000_000_000)).to_fixed(decimals);
        text.append("s");
        text
    }
}

/// A range of durations in nanoseconds.
#[derive(Clone, Copy, Debug)]
pub struct DurationRange {
    pub min_ns: u64,
    pub max_ns: u64,
}

impl DurationRange {
    /// The lower end is not above the upper one.
    pub open spec fn wf(self) -> bool {
        self.min_ns <= self.max_ns
    }

    /// The range from `min_ns` to `max_ns`.
    pub fn new(min_ns: u64, max_ns: u64) -> (r: Result<Self, DurationError>)
        ensures
            min_ns <= max_ns ==> r == Ok::<DurationRange, DurationError>(
                DurationRange { min_ns, max_ns },
            ),
            min_ns > max_ns ==> r == Err::<DurationRange, DurationError>(
                DurationError::MinAboveMax,
            ),
            r matches Ok(range) ==> range.wf(),
    {
        if min_ns > max_ns {
            return Err(DurationError::MinAboveMax);
        }
        Ok(DurationRange { min_ns, max_ns })
    }

    /// Parses `a,b` as a range, or `a` as the range from `a` to `a`.
    pub fn parse(text: &str) -> (r: Result<Self, DurationError>)
        ensures
            is_range_outcome(text@, r),
            r matches Ok(range) ==> range.wf(),
    {
        let chars = to_chars(text);
        let p = find(&chars, ',', 0);
        proof {
            assert(text@.skip(0) =~= text@);
        }
        if p == chars.len() {
            return match parse_to_nanoseconds(trim(text)) {
                Ok(ns) => Self::new(ns, ns),
                Err(e) => Err(e),
            };
        }
        let min = text.substring_char(0, p);
        let max = text.substring_char(p + 1, chars.len());
        proof {
            assert(min@ =~= text@.take(p as int));
            assert(max@ =~= text@.skip(p + 1));
            assert(chars@.skip(p + 1) =~= max@);
        }
        let q = find(&chars, ',', p + 1);
        if q < chars.len() {
            proof {
                assert(max@[q - p - 1] == ',');
            }
            return Err(DurationError::InvalidRange(String::from_str(text)));
        }
        let min_ns = match parse_to_nanoseconds(trim(min)) {
            Ok(ns) => ns,
            Err(e) => {
                return Err(e);
            },
        };
        let max_ns = match parse_to_nanoseconds(trim(max)) {
            Ok(ns) => ns,
            Err(e) => {
                return Err(e);
            },
        };
        Self::new(min_ns, max_ns)
    }

    /// The range as text, each end with three digits behind the point.
    pub fn to_text(&self) -> (text: String)
        ensures
            text@ == rendered_range(*self),
    {
        let mut text = nanoseconds_to_string(self.min_ns, 3);
        text.append(" - ");
        text.append(nanoseconds_to_string(self.max_ns, 3).as_str());
        text
    }
}

/// The text of a range.
pub open spec fn rendered_range(range: DurationRange) -> Seq<char> {
    rendered_duration(range.min_ns, 3) + " - "@ + rendered_duration(range.max_ns, 3)
}

/// What parsing a range gives: the duration at both ends where there is no comma, the two
/// durations around the only comma in their order, and otherwise the first thing that is wrong.
/// Whitespace around a duration does not count.
pub open spec fn is_range_outcome(
    text: Seq<char>,
    r: Result<DurationRange, DurationError>,
) -> bool {
    let p = position(text, ',') as int;
    if p == text.len() {
        match parsed_duration(trimmed(text)) {
            Some(ns) => r == Ok::<DurationRange, DurationError>(
                DurationRange { min_ns: ns, max_ns: ns },
            ),
            None => r matches Err(DurationError::InvalidDuration(t)) && t@ == trimmed(text),
        }
    } else {
        let min = trimmed(text.take(p));
        let max = trimmed(text.skip(p + 1));
        if text.skip(p + 1).contains(',') {
            r matches Err(DurationError::InvalidRange(t)) && t@ == text
        } else {
            match (parsed_duration(min), parsed_duration(max)) {
                (Some(min_ns), Some(max_ns)) => if min_ns <= max_ns {
                    r == Ok::<DurationRange, DurationError>(DurationRange { min_ns, max_ns })
                } else {
                    r == Err::<DurationRange, DurationError>(DurationError::MinAboveMax)
                },
                (None, _) => r matches Err(DurationError::InvalidDuration(t)) && t@ == min,
                (_, None) => r matches Err(DurationError::InvalidDuration(t)) && t@ == max,
            }
        }
    }
}

} // verus!
