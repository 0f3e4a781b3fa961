//! What the text of a duration and the text of a range may be.

use crate::digits::{fixed_point, lemma_pow10_pos, numeral, padded_numeral, pow10};
use crate::duration::{
    decimal_value, error_message, fraction_part, is_digit, is_digits, is_number, is_range_outcome,
    lemma_decimal_concat, lemma_number_by_point, parsed_duration, scaled_number, unit_of,
    whole_part, DurationError, DurationRange,
};
use crate::text::{is_whitespace, lemma_position, lemma_trimmed_same, position, trimmed};
use vstd::prelude::*;

verus! {

/// The units of a duration.
pub open spec fn is_unit(unit: Seq<char>) -> bool {
    unit == "ms"@ || unit == "us"@ || unit == "ns"@ || unit == "s"@
}

/// The length of a unit in nanoseconds.
pub open spec fn unit_nanoseconds(unit: Seq<char>) -> nat {
    if unit == "ms"@ {
        1_000_000
    } else if unit == "us"@ {
        1_000
    } else if unit == "ns"@ {
        1
    } else {
        1_000_000_000
    }
}

/// Number and unit of a duration, one behind the other.
pub open spec fn is_duration(text: Seq<char>, number: Seq<char>, unit: Seq<char>) -> bool {
    is_number(number) && is_unit(unit) && text == number + unit
}

/// A character of a number.
pub open spec fn is_number_char(c: char) -> bool {
    is_digit(c) || c == '.'
}

proof fn lemma_number_chars(number: Seq<char>)
    requires
        is_number(number),
    ensures
        number.len() > 0,
        is_digit(number[0]),
        is_digit(number.last()),
        forall|i: int| 0 <= i < number.len() ==> is_number_char(#[trigger] number[i]),
{
    if !is_digits(number) {
        let p = choose|p: int|
            0 <= p < number.len() && #[trigger] number[p] == '.' && is_digits(number.take(p))
                && is_digits(number.skip(p + 1));
        let whole = number.take(p);
        let fraction = number.skip(p + 1);
        assert(is_digit(whole[0]));
        assert(is_digit(fraction[fraction.len() - 1]));
        assert forall|i: int| 0 <= i < number.len() implies is_number_char(
            #[trigger] number[i],
        ) by {
            if i < p {
                assert(is_digit(whole[i]));
            } else if i > p {
                assert(is_digit(fraction[i - p - 1]));
            }
        }
    }
}

/// A duration stands for as many nanoseconds as its number says in its unit.
pub proof fn law_meaning_of_durations(number: Seq<char>, unit: Seq<char>)
    requires
        is_number(number),
        is_unit(unit),
    ensures
        parsed_duration(number + unit) == Some(scaled_number(number, unit_nanoseconds(unit))),
{
    reveal_strlit("ms");
    reveal_strlit("us");
    reveal_strlit("ns");
    reveal_strlit("s");
    let text = number + unit;
    let n = text.len() as int;
    lemma_number_chars(number);
    assert(text.take(n - unit.len()) =~= number);
    assert(text.subrange(n - unit.len(), n) =~= unit);
    assert(unit[unit.len() - 1] == 's');
    let before = text.subrange(n - 2, n);
    assert(before[0] == text[n - 2]);
    assert(before[1] == 's');
    assert("ms"@[0] == 'm' && "us"@[0] == 'u' && "ns"@[0] == 'n');
    assert("ms"@ =~= seq!['m', 's'] && "us"@ =~= seq!['u', 's'] && "ns"@ =~= seq!['n', 's']);
    if unit.len() == 1 {
        assert(text[n - 2] == number.last());
    } else {
        assert(text[n - 2] == unit[0]);
    }
}

/// A text is accepted as a duration if and only if it is a number and a unit behind it: the
/// grammar is `[0-9]+(\.[0-9]+)?(ms|us|ns|s)`.
pub proof fn law_grammar_of_durations(text: Seq<char>)
    ensures
        parsed_duration(text) is Some <==> exists|number: Seq<char>, unit: Seq<char>| #[trigger]
            is_duration(text, number, unit),
{
    if parsed_duration(text) is Some {
        reveal_strlit("ms");
        reveal_strlit("us");
        reveal_strlit("ns");
        reveal_strlit("s");
        let len = unit_of(text)->Some_0.1;
        let number = text.take(text.len() - len);
        let unit = text.subrange(text.len() - len, text.len() as int);
        assert(text =~= number + unit);
        assert(is_duration(text, number, unit));
    }
    if exists|number: Seq<char>, unit: Seq<char>| #[trigger] is_duration(text, number, unit) {
        let (number, unit) = choose|number: Seq<char>, unit: Seq<char>| #[trigger]
            is_duration(text, number, unit);
        law_meaning_of_durations(number, unit);
    }
}

/// The characters of a duration: no comma, and no whitespace.
proof fn lemma_duration_chars(text: Seq<char>)
    requires
        parsed_duration(text) is Some,
    ensures
        text.len() > 0,
        forall|i: int| 0 <= i < text.len() ==> #[trigger] text[i] != ',' && !is_whitespace(text[i]),
        trimmed(text) == text,
{
    law_grammar_of_durations(text);
    let (number, unit) = choose|number: Seq<char>, unit: Seq<char>| #[trigger]
        is_duration(text, number, unit);
    reveal_strlit("ms");
    reveal_strlit("us");
    reveal_strlit("ns");
    reveal_strlit("s");
    lemma_number_chars(number);
    assert forall|i: int| 0 <= i < text.len() implies #[trigger] text[i] != ',' && !is_whitespace(
        text[i],
    ) by {
        if i < number.len() {
            assert(is_number_char(number[i]));
        } else {
            let c = unit[i - number.len()];
            assert(c == 'm' || c == 'u' || c == 'n' || c == 's');
        }
    }
    assert(text[text.len() - 1] == text.last());
    lemma_trimmed_same(text);
}

/// A single duration is the range with that duration at both ends.
pub proof fn law_range_of_one_duration(
    text: Seq<char>,
    r: Result<DurationRange, DurationError>,
)
    requires
        parsed_duration(text) is Some,
        is_range_outcome(text, r),
    ensures
        r == Ok::<DurationRange, DurationError>(
            DurationRange {
                min_ns: parsed_duration(text)->Some_0,
                max_ns: parsed_duration(text)->Some_0,
            },
        ),
{
    lemma_duration_chars(text);
    lemma_position(text, ',', text.len());
}

/// Two durations with a comma between are the range from the first to the second, unless the
/// first is above the second.
pub proof fn law_range_of_two_durations(
    min: Seq<char>,
    max: Seq<char>,
    r: Result<DurationRange, DurationError>,
)
    requires
        parsed_duration(min) is Some,
        parsed_duration(max) is Some,
        is_range_outcome(min + seq![','] + max, r),
    ensures
        ({
            let min_ns = parsed_duration(min)->Some_0;
            let max_ns = parsed_duration(max)->Some_0;
            if min_ns <= max_ns {
                r == Ok::<DurationRange, DurationError>(DurationRange { min_ns, max_ns })
            } else {
                r == Err::<DurationRange, DurationError>(DurationError::MinAboveMax)
            }
        }),
{
    let text = min + seq![','] + max;
    let p = min.len();
    lemma_duration_chars(min);
    lemma_duration_chars(max);
    assert forall|i: int| 0 <= i < p implies #[trigger] text[i] != ',' by {
        assert(text[i] == min[i]);
    }
    assert(text[p as int] == ',');
    lemma_position(text, ',', p);
    assert(text.take(p as int) =~= min);
    assert(text.skip(p as int + 1) =~= max);
}

pub(crate) proof fn lemma_numeral_digits(n: nat)
    ensures
        is_digits(numeral(n)),
        decimal_value(numeral(n)) == n,
        n > 0 ==> numeral(n)[0] != '0',
        n == 0 ==> numeral(n).len() == 1,
    decreases n,
{
    let s = numeral(n);
    if n < 10 {
        assert(s.drop_last() =~= Seq::<char>::empty());
        assert(decimal_value(s.drop_last()) == 0);
    } else {
        lemma_numeral_digits(n / 10);
        assert(s.drop_last() =~= numeral(n / 10));
        assert forall|i: int| 0 <= i < s.len() implies is_digit(#[trigger] s[i]) by {
            if i < s.len() - 1 {
                assert(s[i] == numeral(n / 10)[i]);
            }
        }
    }
}

proof fn lemma_padded_digits(n: nat, width: nat)
    requires
        n < pow10(width),
    ensures
        padded_numeral(n, width).len() == width,
        forall|i: int| 0 <= i < width ==> is_digit(#[trigger] padded_numeral(n, width)[i]),
        decimal_value(padded_numeral(n, width)) == n,
    decreases width,
{
    if width > 0 {
        let s = padded_numeral(n, width);
        let t = padded_numeral(n / 10, (width - 1) as nat);
        lemma_padded_digits(n / 10, (width - 1) as nat);
        assert(s.drop_last() =~= t);
        assert forall|i: int| 0 <= i < width implies is_digit(#[trigger] s[i]) by {
            if i < width - 1 {
                assert(s[i] == t[i]);
            }
        }
    }
}

/// A decimal number with `decimals` digits behind the point says what it stands for.
pub(crate) proof fn lemma_fixed_point_number(n: nat, decimals: nat)
    ensures
        is_number(fixed_point(n, decimals)),
        fraction_part(fixed_point(n, decimals)).len() == decimals,
        decimal_value(
            whole_part(fixed_point(n, decimals)) + fraction_part(fixed_point(n, decimals)),
        ) == n,
        is_digit(fixed_point(n, decimals)[0]),
        whole_part(fixed_point(n, decimals)).len() == 1 || whole_part(fixed_point(n, decimals))[0]
            != '0',
{
    let s = fixed_point(n, decimals);
    if decimals == 0 {
        lemma_numeral_digits(n);
        assert(is_digit(s[0]));
        assert forall|i: int| 0 <= i < s.len() implies #[trigger] s[i] != '.' by {}
        lemma_number_by_point(s, s.len());
        assert(whole_part(s) + fraction_part(s) =~= s);
    } else {
        let p = pow10(decimals);
        let whole = numeral(n / p);
        let fraction = padded_numeral(n % p, decimals);
        lemma_pow10_pos(decimals);
        lemma_numeral_digits(n / p);
        assert(is_digit(whole[0]));
        lemma_padded_digits(n % p, decimals);
        assert forall|i: int| 0 <= i < whole.len() implies #[trigger] s[i] != '.' by {
            assert(is_digit(whole[i]));
        }
        assert(s[whole.len() as int] == '.');
        assert(s.take(whole.len() as int) =~= whole);
        assert(s.skip(whole.len() as int + 1) =~= fraction);
        lemma_number_by_point(s, whole.len());
        lemma_decimal_concat(whole, fraction);
        vstd::arithmetic::div_mod::lemma_fundamental_div_mod(n as int, p as int);
        assert(p * (n / p) == (n / p) * p) by (nonlinear_arith);
    }
}

/// A text that is no duration is named in the error, whitespace around it aside.
pub proof fn law_refused_single_durations(
    text: Seq<char>,
    r: Result<DurationRange, DurationError>,
)
    requires
        !text.contains(','),
        parsed_duration(trimmed(text)) is None,
        is_range_outcome(text, r),
    ensures
        r matches Err(DurationError::InvalidDuration(t)) && t@ == trimmed(text),
{
    assert forall|i: int| 0 <= i < text.len() implies #[trigger] text[i] != ',' by {
        if text[i] == ',' {
            assert(text.contains(','));
        }
    }
    lemma_position(text, ',', text.len());
}

/// A single duration with whitespace around it is at both ends of its range.
pub proof fn law_single_durations_between_whitespace(
    text: Seq<char>,
    r: Result<DurationRange, DurationError>,
)
    requires
        !text.contains(','),
        is_range_outcome(text, r),
    ensures
        parsed_duration(trimmed(text)) matches Some(ns) ==> r == Ok::<DurationRange, DurationError>(
            DurationRange { min_ns: ns, max_ns: ns },
        ),
{
    assert forall|i: int| 0 <= i < text.len() implies #[trigger] text[i] != ',' by {
        if text[i] == ',' {
            assert(text.contains(','));
        }
    }
    lemma_position(text, ',', text.len());
}

/// Of two texts with a comma between, the first that is no duration is named in the error. Where
/// both are durations, whitespace around them aside, they are the ends of the range, unless they
/// are not in order.
pub proof fn law_two_texts_with_a_comma(
    a: Seq<char>,
    b: Seq<char>,
    r: Result<DurationRange, DurationError>,
)
    requires
        !a.contains(','),
        !b.contains(','),
        is_range_outcome(a + seq![','] + b, r),
    ensures
        match (parsed_duration(trimmed(a)), parsed_duration(trimmed(b))) {
            (Some(min_ns), Some(max_ns)) => if min_ns <= max_ns {
                r == Ok::<DurationRange, DurationError>(DurationRange { min_ns, max_ns })
            } else {
                r == Err::<DurationRange, DurationError>(DurationError::MinAboveMax)
            },
            (None, _) => r matches Err(DurationError::InvalidDuration(t)) && t@ == trimmed(a),
            (Some(_), None) => r matches Err(DurationError::InvalidDuration(t)) && t@ == trimmed(b),
        },
{
    lemma_first_comma(a, b);
}

/// A text with more than one comma is refused as a whole.
pub proof fn law_more_than_one_comma(
    a: Seq<char>,
    b: Seq<char>,
    r: Result<DurationRange, DurationError>,
)
    requires
        !a.contains(','),
        b.contains(','),
        is_range_outcome(a + seq![','] + b, r),
    ensures
        r matches Err(DurationError::InvalidRange(t)) && t@ == a + seq![','] + b,
{
    lemma_first_comma(a, b);
}

proof fn lemma_first_comma(a: Seq<char>, b: Seq<char>)
    requires
        !a.contains(','),
    ensures
        ({
            let text = a + seq![','] + b;
            let p = position(text, ',') as int;
            p == a.len() && text.take(p) == a && text.skip(p + 1) == b
        }),
{
    let text = a + seq![','] + b;
    assert forall|i: int| 0 <= i < a.len() implies #[trigger] text[i] != ',' by {
        if text[i] == ',' {
            assert(a[i] == ',');
        }
    }
    assert(text[a.len() as int] == ',');
    lemma_position(text, ',', a.len());
    assert(text.take(a.len() as int) =~= a);
    assert(text.skip(a.len() as int + 1) =~= b);
}

/// An error says what is wrong, and of a text which one it was.
pub proof fn law_errors_in_words(e: DurationError)
    ensures
        e matches DurationError::InvalidDuration(text) ==> error_message(e)
            == "invalid duration string: "@ + text@,
        e matches DurationError::InvalidRange(text) ==> error_message(e)
            == "invalid duration range: "@ + text@,
        e is MinAboveMax ==> error_message(e) == "min_ns must be less than or equal to max_ns"@,
{
}

} // verus!
