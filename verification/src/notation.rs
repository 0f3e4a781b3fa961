//! What decimal texts stand for: whole numbers, and numbers with a fixed number of digits behind
//! the point.

use crate::digits::{fixed_point, lemma_pow10_pos, numeral, pow10};
use crate::double::{fixed, Double};
use crate::duration::{
    decimal_value, fraction_part, is_digits, is_number, lemma_number_by_point, whole_part,
};
use crate::grammar::{lemma_fixed_point_number, lemma_numeral_digits};
use crate::nearest::lemma_den_pos;
use crate::rounding::{half_even, lemma_half_even_is};
use crate::text::right_aligned;
use vstd::prelude::*;

verus! {

/// One more digit makes ten times the number, and the digit. Each digit counts from that of zero.
pub proof fn law_value_of_digits(s: Seq<char>, c: char)
    requires
        '0' <= c <= '9',
    ensures
        decimal_value(Seq::empty()) == 0,
        decimal_value(s.push(c)) == 10 * decimal_value(s) + (c as int - 48),
{
    assert(s.push(c).drop_last() =~= s);
}

/// The point parts a number into the digits before it and those behind it.
pub proof fn law_parts_of_a_number(whole: Seq<char>, fraction: Seq<char>)
    requires
        is_digits(whole),
        is_digits(fraction),
    ensures
        is_number(whole) && whole_part(whole) == whole && fraction_part(whole).len() == 0,
        ({
            let s = whole + seq!['.'] + fraction;
            is_number(s) && whole_part(s) == whole && fraction_part(s) == fraction
        }),
{
    assert forall|i: int| 0 <= i < whole.len() implies #[trigger] whole[i] != '.' by {}
    lemma_number_by_point(whole, whole.len());
    assert(whole.take(whole.len() as int) =~= whole);
    let s = whole + seq!['.'] + fraction;
    assert forall|i: int| 0 <= i < whole.len() implies #[trigger] s[i] != '.' by {
        assert(s[i] == whole[i]);
    }
    assert(s[whole.len() as int] == '.');
    assert(s.take(whole.len() as int) =~= whole);
    assert(s.skip(whole.len() as int + 1) =~= fraction);
    lemma_number_by_point(s, whole.len());
}

/// The text is the decimal notation of a whole number, without leading zeros.
pub open spec fn is_numeral_of(text: Seq<char>, n: nat) -> bool {
    &&& is_digits(text)
    &&& decimal_value(text) == n
    &&& text.len() == 1 || text[0] != '0'
}

/// The text is the decimal notation, with `decimals` digits behind the point and without leading
/// zeros, of a number that is not further from `num / den` than half of its last digit.
pub open spec fn is_decimal_near(text: Seq<char>, num: nat, den: nat, decimals: nat) -> bool {
    let digits = decimal_value(whole_part(text) + fraction_part(text));
    &&& is_number(text)
    &&& fraction_part(text).len() == decimals
    &&& whole_part(text).len() == 1 || whole_part(text)[0] != '0'
    &&& 2 * (digits * den) <= 2 * (num * pow10(decimals)) + den
    &&& 2 * (num * pow10(decimals)) <= 2 * (digits * den) + den
}

/// A whole number is written in its digits.
pub proof fn law_numeral(n: nat)
    ensures
        is_numeral_of(numeral(n), n),
{
    lemma_numeral_digits(n);
    assert(numeral(0).len() == 1);
}

/// A finite double is written as the decimal number nearest to it, behind its sign.
pub proof fn law_fixed_notation(a: Double, decimals: nat)
    requires
        a is Finite,
    ensures
        a.is_negative() ==> fixed(a, decimals).len() > 0 && fixed(a, decimals)[0] == '-'
            && is_decimal_near(fixed(a, decimals).skip(1), a.num(), a.den(), decimals),
        !a.is_negative() ==> is_decimal_near(fixed(a, decimals), a.num(), a.den(), decimals),
{
    let p = pow10(decimals);
    let n = half_even(a.num() * p, a.den());
    let t = fixed_point(n, decimals);
    lemma_den_pos(a);
    lemma_pow10_pos(decimals);
    lemma_fixed_point_number(n, decimals);
    lemma_half_even_is(a.num() * p, a.den());
    let nd = n * a.den();
    assert(2 * n * a.den() == 2 * nd) by (nonlinear_arith)
        requires
            nd == n * a.den(),
    ;
    assert(is_decimal_near(t, a.num(), a.den(), decimals));
    if a.is_negative() {
        assert(fixed(a, decimals).skip(1) =~= t);
    } else {
        assert(fixed(a, decimals) =~= t);
    }
}

/// The text at the right end of a field, with spaces before it only.
pub open spec fn is_right_aligned(field: Seq<char>, text: Seq<char>, width: nat) -> bool {
    &&& field.len() == if text.len() < width {
        width
    } else {
        text.len()
    }
    &&& field.skip(field.len() - text.len()) == text
    &&& forall|i: int| 0 <= i < field.len() - text.len() ==> #[trigger] field[i] == ' '
}

/// A text is aligned at the right end of its field, and cut nowhere.
pub proof fn law_right_aligned(text: Seq<char>, width: nat)
    ensures
        is_right_aligned(right_aligned(text, width), text, width),
{
    let field = right_aligned(text, width);
    assert(field.skip(field.len() - text.len()) =~= text);
}

} // verus!
