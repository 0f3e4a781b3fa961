//! Natural numbers of any size, as vectors of decimal digits with the lowest digit first, and
//! their text.

use crate::rounding::{half_even, lemma_half_even_exact, up};
use vstd::arithmetic::power2::{lemma2_to64, lemma_pow2_pos, lemma_pow2_unfold, pow2};
use vstd::prelude::*;

verus! {

/// `10^k`
pub open spec fn pow10(k: nat) -> nat
    decreases k,
{
    if k == 0 {
        1
    } else {
        10 * pow10((k - 1) as nat)
    }
}

pub proof fn lemma_pow10_pos(k: nat)
    ensures
        pow10(k) > 0,
    decreases k,
{
    if k > 0 {
        lemma_pow10_pos((k - 1) as nat);
    }
}

pub proof fn lemma_pow10_adds(a: nat, b: nat)
    ensures
        pow10(a + b) == pow10(a) * pow10(b),
    decreases b,
{
    if b == 0 {
        assert(pow10(a) * pow10(0) == pow10(a)) by (nonlinear_arith)
            requires
                pow10(0) == 1,
        ;
    } else {
        lemma_pow10_adds(a, (b - 1) as nat);
        assert(pow10(a) * pow10(b) == 10 * (pow10(a) * pow10((b - 1) as nat))) by (nonlinear_arith)
            requires
                pow10(b) == 10 * pow10((b - 1) as nat),
        ;
    }
}

/// Every element is a decimal digit.
pub open spec fn all_digits(s: Seq<u8>) -> bool {
    forall|i: int| 0 <= i < s.len() ==> #[trigger] s[i] < 10
}

/// The number whose decimal digits, from the lowest up, are `s`.
pub open spec fn digits_value(s: Seq<u8>) -> nat
    decreases s.len(),
{
    if s.len() == 0 {
        0
    } else {
        s[0] as nat + 10 * digits_value(s.drop_first())
    }
}

pub proof fn lemma_value_split(s: Seq<u8>, k: nat)
    requires
        k <= s.len(),
    ensures
        digits_value(s) == digits_value(s.take(k as int)) + pow10(k) * digits_value(
            s.skip(k as int),
        ),
    decreases k,
{
    if k == 0 {
        assert(s.skip(0) =~= s);
        assert(s.take(0) =~= Seq::<u8>::empty());
        assert(pow10(0) == 1);
        assert(pow10(k) * digits_value(s) == digits_value(s)) by (nonlinear_arith)
            requires
                pow10(k) == 1,
        ;
    } else {
        lemma_value_split(s.drop_first(), (k - 1) as nat);
        assert(s.take(k as int).drop_first() =~= s.drop_first().take(k - 1));
        assert(s.drop_first().skip(k - 1) =~= s.skip(k as int));
        assert(s.take(k as int)[0] == s[0]);
        assert(digits_value(s.take(k as int)) == s[0] as nat + 10 * digits_value(
            s.drop_first().take(k - 1),
        ));
        assert(10 * (pow10((k - 1) as nat) * digits_value(s.skip(k as int))) == pow10(k)
            * digits_value(s.skip(k as int))) by (nonlinear_arith)
            requires
                pow10(k) == 10 * pow10((k - 1) as nat),
        ;
    }
}

pub proof fn lemma_value_push(s: Seq<u8>, d: u8)
    ensures
        digits_value(s.push(d)) == digits_value(s) + pow10(s.len()) * d,
{
    let t = s.push(d);
    lemma_value_split(t, s.len());
    assert(t.take(s.len() as int) =~= s);
    let u = t.skip(s.len() as int);
    assert(u =~= seq![d]);
    assert(u.drop_first() =~= Seq::<u8>::empty());
    assert(digits_value(u) == d) by {
        assert(digits_value(u.drop_first()) == 0);
    }
}

pub proof fn lemma_value_bound(s: Seq<u8>)
    requires
        all_digits(s),
    ensures
        digits_value(s) < pow10(s.len()),
    decreases s.len(),
{
    if s.len() > 0 {
        assert forall|i: int| 0 <= i < s.drop_first().len() implies #[trigger] s.drop_first()[i]
            < 10 by {
            assert(s.drop_first()[i] == s[i + 1]);
        }
        lemma_value_bound(s.drop_first());
    }
}

proof fn lemma_value_zeros(s: Seq<u8>)
    requires
        forall|i: int| 0 <= i < s.len() ==> s[i] == 0,
    ensures
        digits_value(s) == 0,
    decreases s.len(),
{
    if s.len() > 0 {
        lemma_value_zeros(s.drop_first());
    }
}

/// The character of a decimal digit.
pub open spec fn digit_char(d: nat) -> char {
    (48 + d) as char
}

/// The decimal digits of `n`, without leading zeros.
pub open spec fn numeral(n: nat) -> Seq<char>
    decreases n,
{
    if n < 10 {
        seq![digit_char(n)]
    } else {
        numeral(n / 10).push(digit_char(n % 10))
    }
}

/// The lowest `width` decimal digits of `n`.
pub open spec fn padded_numeral(n: nat, width: nat) -> Seq<char>
    decreases width,
{
    if width == 0 {
        Seq::empty()
    } else {
        padded_numeral(n / 10, (width - 1) as nat).push(digit_char(n % 10))
    }
}

/// `n / 10^decimals` in decimal notation, with that many digits behind the point.
pub open spec fn fixed_point(n: nat, decimals: nat) -> Seq<char> {
    if decimals == 0 {
        numeral(n)
    } else {
        numeral(n / pow10(decimals)) + seq!['.'] + padded_numeral(n % pow10(decimals), decimals)
    }
}

/// The characters of `s`, from the highest digit down.
pub open spec fn digits_text(s: Seq<u8>) -> Seq<char> {
    Seq::new(s.len(), |i: int| digit_char(s[s.len() - 1 - i] as nat))
}

proof fn lemma_digits_padded(s: Seq<u8>)
    requires
        all_digits(s),
    ensures
        digits_text(s) == padded_numeral(digits_value(s), s.len()),
    decreases s.len(),
{
    if s.len() == 0 {
        assert(digits_text(s) =~= Seq::<char>::empty());
    } else {
        let t = s.drop_first();
        assert forall|i: int| 0 <= i < t.len() implies #[trigger] t[i] < 10 by {
            assert(t[i] == s[i + 1]);
        }
        lemma_digits_padded(t);
        assert(digits_value(s) == s[0] as nat + 10 * digits_value(t));
        assert(digits_value(s) / 10 == digits_value(t));
        assert(digits_value(s) % 10 == s[0]);
        assert(digits_text(s) =~= digits_text(t).push(digit_char(s[0] as nat)));
    }
}

proof fn lemma_digits_numeral(s: Seq<u8>)
    requires
        all_digits(s),
        s.len() > 0,
        s.len() == 1 || s.last() != 0,
    ensures
        digits_text(s) == numeral(digits_value(s)),
        s.len() > 1 ==> digits_value(s) >= 10,
    decreases s.len(),
{
    let t = s.drop_first();
    assert forall|i: int| 0 <= i < t.len() implies #[trigger] t[i] < 10 by {
        assert(t[i] == s[i + 1]);
    }
    assert(digits_value(s) == s[0] as nat + 10 * digits_value(t));
    if s.len() == 1 {
        assert(t =~= Seq::<u8>::empty());
        assert(digits_text(s) =~= seq![digit_char(s[0] as nat)]);
    } else {
        lemma_digits_numeral(t);
        if t.len() == 1 {
            assert(t.drop_first() =~= Seq::<u8>::empty());
            assert(digits_value(t) == t[0] as nat + 10 * digits_value(t.drop_first()));
            assert(t.last() == s.last());
        }
        assert(digits_value(t) >= 1);
        assert(digits_value(s) / 10 == digits_value(t));
        assert(digits_value(s) % 10 == s[0]);
        assert(digits_text(s) =~= digits_text(t).push(digit_char(s[0] as nat)));
    }
}

/// The digits of `n`, from the lowest up; none for zero.
pub fn digits_of(n: u64) -> (v: Vec<u8>)
    ensures
        all_digits(v@),
        digits_value(v@) == n,
{
    let mut v: Vec<u8> = Vec::new();
    let mut rest: u64 = n;
    let ghost mut scale: nat = 1;
    while rest > 0
        invariant
            all_digits(v@),
            scale == pow10(v@.len()),
            n == digits_value(v@) + scale * rest,
        decreases rest,
    {
        let d: u8 = (rest % 10) as u8;
        proof {
            lemma_value_push(v@, d);
            assert(scale * rest == scale * d + (10 * scale) * (rest / 10)) by (nonlinear_arith)
                requires
                    d == rest % 10,
            ;
            scale = 10 * scale;
        }
        v.push(d);
        rest = rest / 10;
    }
    proof {
        assert(scale * 0 == 0);
    }
    v
}

/// Doubles the number, and hands out the digit that no longer fits.
pub fn double(v: &mut Vec<u8>) -> (carry: u8)
    requires
        all_digits(old(v)@),
    ensures
        all_digits(final(v)@),
        final(v)@.len() == old(v)@.len(),
        carry <= 1,
        2 * digits_value(old(v)@) == digits_value(final(v)@) + carry * pow10(old(v)@.len()),
{
    let mut carry: u8 = 0;
    let mut i: usize = 0;
    let ghost s = v@;
    while i < v.len()
        invariant
            i <= v.len(),
            v@.len() == s.len(),
            all_digits(s),
            all_digits(v@),
            carry <= 1,
            v@.skip(i as int) == s.skip(i as int),
            2 * digits_value(s.take(i as int)) == digits_value(v@.take(i as int)) + carry * pow10(
                i as nat,
            ),
        decreases v.len() - i,
    {
        let ghost before = v@;
        proof {
            assert(v@.skip(i as int)[0] == s.skip(i as int)[0]);
            assert(v@[i as int] == s[i as int]);
        }
        let d: u8 = 2 * v[i] + carry;
        let low: u8 = d % 10;
        let ghost c0 = carry;
        v.set(i, low);
        carry = d / 10;
        proof {
            lemma_value_push(s.take(i as int), s[i as int]);
            lemma_value_push(before.take(i as int), low);
            assert(s.take(i as int).push(s[i as int]) =~= s.take(i + 1));
            assert(before.take(i as int).push(low) =~= v@.take(i + 1));
            assert(v@.skip(i + 1) =~= s.skip(i + 1)) by {
                assert forall|j: int| i < j < s.len() implies v@[j] == s[j] by {
                    assert(before.skip(i as int)[j - i] == s.skip(i as int)[j - i]);
                }
            }
            let p = pow10(i as nat);
            assert(2 * (p * s[i as int]) + c0 * p == p * low + carry * (10 * p)) by (nonlinear_arith)
                requires
                    2 * s[i as int] + c0 == low + 10 * carry,
            ;
        }
        i += 1;
    }
    proof {
        assert(v@.take(i as int) =~= v@);
        assert(s.take(i as int) =~= s);
    }
    carry
}

/// Halves the number, and hands out the remainder.
pub fn halve(v: &mut Vec<u8>) -> (rem: u8)
    requires
        all_digits(old(v)@),
    ensures
        all_digits(final(v)@),
        final(v)@.len() == old(v)@.len(),
        rem <= 1,
        digits_value(old(v)@) == 2 * digits_value(final(v)@) + rem,
{
    let mut rem: u8 = 0;
    let mut i: usize = v.len();
    let ghost s = v@;
    proof {
        assert(s.skip(s.len() as int) =~= Seq::<u8>::empty());
    }
    while i > 0
        invariant
            i <= v.len(),
            v@.len() == s.len(),
            all_digits(s),
            all_digits(v@),
            rem <= 1,
            v@.take(i as int) == s.take(i as int),
            digits_value(s.skip(i as int)) == 2 * digits_value(v@.skip(i as int)) + rem,
        decreases i,
    {
        let ghost before = v@;
        i -= 1;
        proof {
            assert(v@.take(i + 1)[i as int] == s.take(i + 1)[i as int]);
        }
        let d: u8 = 10 * rem + v[i];
        v.set(i, d / 2);
        rem = d % 2;
        proof {
            assert(s.skip(i as int).drop_first() =~= s.skip(i + 1));
            assert(v@.skip(i as int).drop_first() =~= before.skip(i + 1));
            assert(v@.take(i as int) =~= s.take(i as int)) by {
                assert forall|j: int| 0 <= j < i implies v@[j] == s[j] by {
                    assert(before.take(i + 1)[j] == s.take(i + 1)[j]);
                }
            }
        }
    }
    proof {
        assert(v@.skip(0) =~= v@);
        assert(s.skip(0) =~= s);
    }
    rem
}

/// Adds one, and hands out the digit that no longer fits.
fn increment(v: &mut Vec<u8>) -> (carry: u8)
    requires
        all_digits(old(v)@),
    ensures
        all_digits(final(v)@),
        final(v)@.len() == old(v)@.len(),
        carry <= 1,
        digits_value(old(v)@) + 1 == digits_value(final(v)@) + carry * pow10(old(v)@.len()),
{
    let mut carry: u8 = 1;
    let mut i: usize = 0;
    let ghost s = v@;
    proof {
        assert(s.take(0) =~= Seq::<u8>::empty());
    }
    while i < v.len()
        invariant
            i <= v.len(),
            v@.len() == s.len(),
            all_digits(s),
            all_digits(v@),
            carry <= 1,
            v@.skip(i as int) == s.skip(i as int),
            digits_value(s.take(i as int)) + 1 == digits_value(v@.take(i as int)) + carry * pow10(
                i as nat,
            ),
        decreases v.len() - i,
    {
        let ghost before = v@;
        proof {
            assert(v@.skip(i as int)[0] == s.skip(i as int)[0]);
            assert(v@[i as int] == s[i as int]);
        }
        let d: u8 = v[i] + carry;
        let low: u8 = d % 10;
        let ghost c0 = carry;
        v.set(i, low);
        carry = d / 10;
        proof {
            lemma_value_push(s.take(i as int), s[i as int]);
            lemma_value_push(before.take(i as int), low);
            assert(s.take(i as int).push(s[i as int]) =~= s.take(i + 1));
            assert(before.take(i as int).push(low) =~= v@.take(i + 1));
            assert(v@.skip(i + 1) =~= s.skip(i + 1)) by {
                assert forall|j: int| i < j < s.len() implies v@[j] == s[j] by {
                    assert(before.skip(i as int)[j - i] == s.skip(i as int)[j - i]);
                }
            }
            let p = pow10(i as nat);
            assert(p * s[i as int] + c0 * p == p * low + carry * (10 * p)) by (nonlinear_arith)
                requires
                    s[i as int] + c0 == low + 10 * carry,
            ;
        }
        i += 1;
    }
    proof {
        assert(v@.take(i as int) =~= v@);
        assert(s.take(i as int) =~= s);
    }
    carry
}

/// The digits of `n * 10^k`, from the lowest up.
fn shifted_digits(n: u64, k: usize) -> (v: Vec<u8>)
    ensures
        all_digits(v@),
        digits_value(v@) == n * pow10(k as nat),
{
    let mut v: Vec<u8> = Vec::new();
    let mut i: usize = 0;
    while i < k
        invariant
            i <= k,
            v@.len() == i,
            forall|j: int| 0 <= j < i ==> v@[j] == 0,
        decreases k - i,
    {
        v.push(0);
        i += 1;
    }
    let top = digits_of(n);
    let mut j: usize = 0;
    while j < top.len()
        invariant
            j <= top.len(),
            all_digits(top@),
            v@.len() == k + j,
            forall|i: int| 0 <= i < k ==> v@[i] == 0,
            v@.skip(k as int) =~= top@.take(j as int),
        decreases top.len() - j,
    {
        let ghost before = v@;
        v.push(top[j]);
        proof {
            assert(v@.skip(k as int) =~= before.skip(k as int).push(top@[j as int]));
            assert(top@.take(j + 1) =~= top@.take(j as int).push(top@[j as int]));
        }
        j += 1;
    }
    proof {
        assert(top@.take(j as int) =~= top@);
        lemma_value_split(v@, k as nat);
        lemma_value_zeros(v@.take(k as int));
        assert forall|i: int| 0 <= i < v@.len() implies #[trigger] v@[i] < 10 by {
            if i >= k {
                assert(v@.skip(k as int)[i - k] == v@[i]);
            }
        }
        assert(pow10(k as nat) * digits_value(top@) == n * pow10(k as nat)) by (nonlinear_arith)
            requires
                digits_value(top@) == n,
        ;
    }
    v
}

/// Multiplies the number by `2^t`.
fn double_times(v: &mut Vec<u8>, t: u32)
    requires
        all_digits(old(v)@),
    ensures
        all_digits(final(v)@),
        digits_value(final(v)@) == digits_value(old(v)@) * pow2(t as nat),
{
    let ghost n = digits_value(v@);
    let mut i: u32 = 0;
    proof {
        lemma2_to64();
    }
    while i < t
        invariant
            i <= t,
            all_digits(v@),
            digits_value(v@) == n * pow2(i as nat),
        decreases t - i,
    {
        let ghost x = digits_value(v@);
        let carry = double(v);
        if carry > 0 {
            proof {
                lemma_value_push(v@, carry);
                assert(carry * pow10(v@.len()) == pow10(v@.len()) * carry) by (nonlinear_arith);
            }
            v.push(carry);
        }
        proof {
            lemma_pow2_unfold((i + 1) as nat);
            assert(2 * x == n * pow2((i + 1) as nat)) by (nonlinear_arith)
                requires
                    x == n * pow2(i as nat),
                    pow2((i + 1) as nat) == 2 * pow2(i as nat),
            ;
        }
        i += 1;
    }
}

/// Divides the number by `2^t`, to the nearest integer, halves to even.
fn halve_times(v: &mut Vec<u8>, t: u32)
    requires
        all_digits(old(v)@),
    ensures
        all_digits(final(v)@),
        digits_value(final(v)@) == half_even(digits_value(old(v)@), pow2(t as nat)),
{
    let ghost n = digits_value(v@);
    let mut i: u32 = 0;
    let mut last: u8 = 0;
    let mut below: bool = false;
    let ghost mut rest: nat = 0;
    proof {
        lemma2_to64();
    }
    while i < t
        invariant
            i <= t,
            all_digits(v@),
            last <= 1,
            n == digits_value(v@) * pow2(i as nat) + rest,
            rest < pow2(i as nat),
            last == 0 ==> 2 * rest < pow2(i as nat),
            last == 1 && !below ==> 2 * rest == pow2(i as nat),
            last == 1 && below ==> 2 * rest > pow2(i as nat),
            below || last == 1 <==> rest != 0,
        decreases t - i,
    {
        let ghost x = digits_value(v@);
        below = below || last == 1;
        last = halve(v);
        proof {
            let p = pow2(i as nat);
            lemma_pow2_pos(i as nat);
            lemma_pow2_unfold((i + 1) as nat);
            assert(x * p == digits_value(v@) * (2 * p) + last * p) by (nonlinear_arith)
                requires
                    x == 2 * digits_value(v@) + last,
            ;
            assert(last * p == if last == 0 { 0 } else { p }) by (nonlinear_arith)
                requires
                    last == 0 || last == 1,
            ;
            rest = rest + last as nat * p;
        }
        i += 1;
    }
    proof {
        lemma_pow2_pos(t as nat);
        vstd::arithmetic::div_mod::lemma_fundamental_div_mod_converse(
            n as int,
            pow2(t as nat) as int,
            digits_value(v@) as int,
            rest as int,
        );
    }
    if last == 1 && (below || (v.len() > 0 && v[0] % 2 == 1)) {
        proof {
            if v@.len() > 0 && !below {
                assert(digits_value(v@) % 2 == 1);
            }
        }
        let carry = increment(v);
        if carry > 0 {
            proof {
                lemma_value_push(v@, carry);
                assert(carry * pow10(v@.len()) == pow10(v@.len()) * carry) by (nonlinear_arith);
            }
            v.push(carry);
        }
    } else {
        proof {
            assert(digits_value(v@) % 2 == 0 || last == 0);
        }
    }
}

/// The text of `digits / 10^decimals`, with that many digits behind the point.
fn fixed_point_text(digits: Vec<u8>, decimals: usize) -> (text: String)
    requires
        all_digits(digits@),
        decimals < usize::MAX,
    ensures
        text@ == fixed_point(digits_value(digits@), decimals as nat),
{
    let mut v = digits;
    let ghost n = digits_value(v@);
    while v.len() <= decimals
        invariant
            all_digits(v@),
            digits_value(v@) == n,
            decimals < usize::MAX,
        decreases decimals + 1 - v.len(),
    {
        proof {
            lemma_value_push(v@, 0);
        }
        v.push(0);
    }
    while v.len() > decimals + 1 && v[v.len() - 1] == 0
        invariant
            all_digits(v@),
            digits_value(v@) == n,
            v.len() > decimals,
            decimals < usize::MAX,
        decreases v.len(),
    {
        let ghost before = v@;
        v.pop();
        proof {
            lemma_value_push(v@, 0);
            assert(before =~= v@.push(0));
        }
    }
    let ghost high = v@.skip(decimals as int);
    let ghost low = v@.take(decimals as int);
    proof {
        assert forall|i: int| 0 <= i < high.len() implies #[trigger] high[i] < 10 by {
            assert(high[i] == v@[i + decimals]);
        }
        assert(high.last() == v@.last());
        lemma_digits_numeral(high);
        lemma_digits_padded(low);
        lemma_value_split(v@, decimals as nat);
        lemma_value_bound(low);
        lemma_pow10_pos(decimals as nat);
        let p = pow10(decimals as nat);
        assert(n == digits_value(high) * p + digits_value(low)) by (nonlinear_arith)
            requires
                n == digits_value(low) + p * digits_value(high),
        ;
        vstd::arithmetic::div_mod::lemma_fundamental_div_mod_converse(
            n as int,
            p as int,
            digits_value(high) as int,
            digits_value(low) as int,
        );
    }
    let mut text = String::new();
    let mut i: usize = v.len();
    while i > decimals
        invariant
            decimals <= i <= v.len(),
            all_digits(v@),
            high == v@.skip(decimals as int),
            text@ == digits_text(high).take(v@.len() - i),
        decreases i,
    {
        i -= 1;
        text.push((48 + v[i]) as char);
        proof {
            assert(high[i - decimals] == v@[i as int]);
            assert(digits_text(high).take(v@.len() - i) =~= digits_text(high).take(
                v@.len() - i - 1,
            ).push(digits_text(high)[v@.len() - i - 1]));
        }
    }
    proof {
        assert(digits_text(high).take(v@.len() - i) =~= digits_text(high));
    }
    if decimals > 0 {
        text.push('.');
        let ghost whole = text@;
        proof {
            assert(whole =~= digits_text(high) + seq!['.']);
            assert(digits_text(low).take(0) =~= Seq::<char>::empty());
        }
        while i > 0
            invariant
                i <= decimals <= v.len(),
                all_digits(v@),
                low == v@.take(decimals as int),
                text@ == whole + digits_text(low).take(decimals - i),
            decreases i,
        {
            i -= 1;
            text.push((48 + v[i]) as char);
            proof {
                assert(low[i as int] == v@[i as int]);
                assert(digits_text(low).take(decimals - i) =~= digits_text(low).take(
                    decimals - i - 1,
                ).push(digits_text(low)[decimals - i - 1]));
            }
        }
        proof {
            assert(digits_text(low).take(decimals - i) =~= digits_text(low));
        }
    } else {
        proof {
            assert(low =~= Seq::<u8>::empty());
            assert(high =~= v@);
        }
    }
    text
}

/// The decimal digits of `n`.
pub fn numeral_text(n: u64) -> (text: String)
    ensures
        text@ == numeral(n as nat),
{
    fixed_point_text(digits_of(n), 0)
}

/// `mantissa * 2^exponent` in decimal notation, to the nearest at `decimals` digits behind the
/// point, halves to even.
pub fn scaled_text(mantissa: u64, exponent: i32, decimals: usize) -> (text: String)
    requires
        decimals < usize::MAX,
        exponent > i32::MIN,
    ensures
        text@ == fixed_point(
            half_even(
                mantissa as nat * up(exponent as int) * pow10(decimals as nat),
                up(-(exponent as int)),
            ),
            decimals as nat,
        ),
{
    let mut v = shifted_digits(mantissa, decimals);
    let ghost n = digits_value(v@);
    proof {
        lemma2_to64();
    }
    if exponent >= 0 {
        double_times(&mut v, exponent as u32);
        proof {
            let p = pow2(exponent as nat);
            let x = mantissa as nat * p * pow10(decimals as nat);
            assert(n * p == x * 1) by (nonlinear_arith)
                requires
                    n == mantissa * pow10(decimals as nat),
                    x == mantissa as nat * p * pow10(decimals as nat),
            ;
            lemma_half_even_exact(x, 1, n * p);
        }
    } else {
        halve_times(&mut v, (-exponent) as u32);
    }
    fixed_point_text(v, decimals)
}

} // verus!
