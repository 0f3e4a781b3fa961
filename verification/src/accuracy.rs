//! How the nanoseconds of a duration follow from its text.

use crate::digits::{lemma_pow10_adds, lemma_pow10_pos, pow10};
use crate::duration::{
    decimal_value, fraction_part, is_digit, is_digits, is_number, lemma_decimal_concat,
    lemma_decimal_zeros, lemma_number_by_point, parsed_duration, point, whole_part, zeros,
};
use crate::grammar::{is_unit, law_meaning_of_durations, unit_nanoseconds};
use vstd::arithmetic::div_mod::{lemma_div_basics, lemma_fundamental_div_mod};
use vstd::prelude::*;

verus! {

/// The digits of a number, as if it had no point.
pub open spec fn numerator(number: Seq<char>) -> nat {
    decimal_value(whole_part(number) + fraction_part(number))
}

/// What the digits of a number are to be divided by.
pub open spec fn denominator(number: Seq<char>) -> nat {
    pow10(fraction_part(number).len())
}

/// A duration stands for its exact value, less than a nanosecond cut off; or for `u64::MAX` where
/// the value is more than that.
pub proof fn law_parsing_is_exact(number: Seq<char>, unit: Seq<char>)
    requires
        is_number(number),
        is_unit(unit),
    ensures
        ({
            let r = parsed_duration(number + unit)->Some_0 as nat;
            let x = numerator(number) * unit_nanoseconds(unit);
            let den = denominator(number);
            &&& den > 0
            &&& r * den <= x
            &&& x < (r + 1) * den || r == u64::MAX
        }),
{
    law_meaning_of_durations(number, unit);
    lemma_pow10_pos(fraction_part(number).len());
    let r = parsed_duration(number + unit)->Some_0 as nat;
    let x = numerator(number) * unit_nanoseconds(unit);
    let den = denominator(number);
    let q = x / den;
    lemma_fundamental_div_mod(x as int, den as int);
    assert(r * den <= q * den) by (nonlinear_arith)
        requires
            r <= q,
    ;
    assert(q * den == den * q && (q + 1) * den == den * q + den) by (nonlinear_arith);
}

/// A whole number of units is as many times the nanoseconds of the unit, or `u64::MAX` where that
/// is less.
pub proof fn law_whole_durations_are_exact(number: Seq<char>, unit: Seq<char>)
    requires
        is_digits(number),
        is_unit(unit),
    ensures
        ({
            let ns = decimal_value(number) * unit_nanoseconds(unit);
            parsed_duration(number + unit) == Some(
                if ns > u64::MAX {
                    u64::MAX
                } else {
                    ns as u64
                },
            )
        }),
{
    assert forall|i: int| 0 <= i < number.len() implies #[trigger] number[i] != '.' by {}
    lemma_number_by_point(number, number.len());
    law_meaning_of_durations(number, unit);
    assert(whole_part(number) + fraction_part(number) =~= number);
    assert(pow10(0) == 1);
    let ns = decimal_value(number) * unit_nanoseconds(unit);
    lemma_div_basics(ns as int);
    assert(ns / pow10(0) == ns);
}

/// The whole parts of two ratios in order are in order.
proof fn lemma_quotient_order(a: nat, b: nat, c: nat, d: nat)
    requires
        b > 0,
        d > 0,
        a * d <= c * b,
    ensures
        a / b <= c / d,
{
    let q = a / b;
    let r = c / d;
    lemma_fundamental_div_mod(a as int, b as int);
    lemma_fundamental_div_mod(c as int, d as int);
    assert(q <= r) by (nonlinear_arith)
        requires
            b * q <= a,
            c < d * r + d,
            a * d <= c * b,
            b > 0,
            d > 0,
    ;
}

/// A greater length of time never comes to fewer nanoseconds, in whatever units the two are
/// written.
pub proof fn law_parsing_is_monotone(
    a: Seq<char>,
    unit_a: Seq<char>,
    b: Seq<char>,
    unit_b: Seq<char>,
)
    requires
        is_number(a),
        is_unit(unit_a),
        is_number(b),
        is_unit(unit_b),
        (numerator(a) * unit_nanoseconds(unit_a)) * denominator(b) <= (numerator(b)
            * unit_nanoseconds(unit_b)) * denominator(a),
    ensures
        parsed_duration(a + unit_a)->Some_0 <= parsed_duration(b + unit_b)->Some_0,
{
    law_meaning_of_durations(a, unit_a);
    law_meaning_of_durations(b, unit_b);
    lemma_pow10_pos(fraction_part(a).len());
    lemma_pow10_pos(fraction_part(b).len());
    lemma_quotient_order(
        numerator(a) * unit_nanoseconds(unit_a),
        denominator(a),
        numerator(b) * unit_nanoseconds(unit_b),
        denominator(b),
    );
}

/// The parts of a number that begins with zeros, or ends with them behind its point.
proof fn lemma_number_with_zeros(number: Seq<char>, before: nat, behind: nat)
    requires
        is_number(number),
        behind > 0 ==> point(number) < number.len(),
    ensures
        is_number(zeros(before) + number + zeros(behind)),
        whole_part(zeros(before) + number + zeros(behind)) == zeros(before) + whole_part(number),
        fraction_part(zeros(before) + number + zeros(behind)) == fraction_part(number) + zeros(
            behind,
        ),
{
    let s = zeros(before) + number + zeros(behind);
    let p = point(number);
    lemma_point(number);
    lemma_number_by_point(number, p);
    let whole = whole_part(number);
    let fraction = fraction_part(number);
    assert forall|i: int| 0 <= i < before + p implies #[trigger] s[i] != '.' by {
        if i >= before {
            assert(s[i] == number[i - before]);
        }
    }
    if p < number.len() {
        assert(s[(before + p) as int] == '.');
    }
    lemma_number_by_point(s, before + p);
    assert(s.take((before + p) as int) =~= zeros(before) + whole);
    assert forall|i: int| 0 <= i < before + p implies is_digit(
        #[trigger] (zeros(before) + whole)[i],
    ) by {
        if i >= before {
            assert(is_digit(whole[i - before]));
        }
    }
    if p < number.len() {
        assert(s.skip((before + p + 1) as int) =~= fraction + zeros(behind));
        assert forall|i: int| 0 <= i < fraction.len() + behind implies is_digit(
            #[trigger] (fraction + zeros(behind))[i],
        ) by {
            if i < fraction.len() {
                assert(is_digit(fraction[i]));
            }
        }
    } else {
        assert(fraction + zeros(behind) =~= Seq::<char>::empty());
    }
}

/// What is at the position of the point, and before it.
proof fn lemma_point(s: Seq<char>)
    ensures
        point(s) <= s.len(),
        point(s) < s.len() ==> s[point(s) as int] == '.',
        forall|i: int| 0 <= i < point(s) ==> #[trigger] s[i] != '.',
    decreases s.len(),
{
    if s.len() > 0 && s[0] != '.' {
        let t = s.drop_first();
        lemma_point(t);
        assert forall|i: int| 0 <= i < point(s) implies #[trigger] s[i] != '.' by {
            if i > 0 {
                assert(s[i] == t[i - 1]);
            }
        }
    }
}

/// Zeros at the beginning of a number, and at the end behind its point, do not count.
pub proof fn law_outer_zeros_do_not_count(
    number: Seq<char>,
    unit: Seq<char>,
    before: nat,
    behind: nat,
)
    requires
        is_number(number),
        is_unit(unit),
        behind > 0 ==> number.contains('.'),
    ensures
        parsed_duration(zeros(before) + number + zeros(behind) + unit) == parsed_duration(
            number + unit,
        ),
{
    lemma_point(number);
    if behind > 0 {
        let i = choose|i: int| 0 <= i < number.len() && number[i] == '.';
        assert(point(number) <= i);
    }
    let s = zeros(before) + number + zeros(behind);
    lemma_number_with_zeros(number, before, behind);
    law_meaning_of_durations(number, unit);
    law_meaning_of_durations(s, unit);
    let digits = whole_part(number) + fraction_part(number);
    let num = numerator(number);
    let den = denominator(number);
    let ns = unit_nanoseconds(unit);
    let z = pow10(behind);
    assert(whole_part(s) + fraction_part(s) =~= zeros(before) + (digits + zeros(behind)));
    lemma_decimal_concat(zeros(before), digits + zeros(behind));
    let e = Seq::<char>::empty();
    lemma_decimal_zeros(e, before);
    assert(e + zeros(before) =~= zeros(before));
    assert(decimal_value(zeros(before)) == 0) by (nonlinear_arith)
        requires
            decimal_value(zeros(before)) == decimal_value(e) * pow10(before),
            decimal_value(e) == 0,
    ;
    assert(decimal_value(zeros(before)) * pow10((digits + zeros(behind)).len()) == 0)
        by (nonlinear_arith)
        requires
            decimal_value(zeros(before)) == 0,
    ;
    lemma_decimal_zeros(digits, behind);
    assert(numerator(s) == num * z);
    lemma_pow10_adds(fraction_part(number).len(), behind);
    assert(denominator(s) == den * z);
    lemma_pow10_pos(behind);
    lemma_pow10_pos(fraction_part(number).len());
    assert(den * z > 0) by (nonlinear_arith)
        requires
            den > 0,
            z > 0,
    ;
    assert(((num * z) * ns) * den == (num * ns) * (den * z)) by (nonlinear_arith);
    lemma_quotient_order((num * z) * ns, den * z, num * ns, den);
    lemma_quotient_order(num * ns, den, (num * z) * ns, den * z);
}

} // verus!
