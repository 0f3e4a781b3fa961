//! What is left of a duration that was written out and is read back.

use crate::accuracy::{
    denominator, law_parsing_is_exact, law_whole_durations_are_exact, numerator,
};
use crate::digits::{fixed_point, lemma_pow10_pos, numeral, pow10};
use crate::double::{fixed, nearest, quotient, Double};
use crate::duration::{parsed_duration, rendered_duration};
use crate::grammar::{
    is_unit, law_meaning_of_durations, lemma_fixed_point_number, lemma_numeral_digits,
    unit_nanoseconds,
};
use crate::notation::{is_numeral_of, law_numeral};
use crate::nearest::{
    lemma_nearest_close, lemma_nearest_monotone, lemma_nearest_ratio, lemma_nearest_wf,
    lemma_nearest_whole,
};
use crate::rounding::{
    half_even, is_half_even, lemma_half_even_is, lemma_half_even_monotone, up,
};
use vstd::arithmetic::div_mod::lemma_fundamental_div_mod;
use vstd::arithmetic::power2::{
    lemma2_to64, lemma_pow2_adds, lemma_pow2_strictly_increases, pow2,
};
use vstd::prelude::*;

verus! {

/// The unit that a number of nanoseconds is written in.
pub open spec fn readable_unit(nanoseconds: u64) -> Seq<char> {
    if nanoseconds < 1_000 {
        "ns"@
    } else if nanoseconds < 1_000_000 {
        "us"@
    } else if nanoseconds < 1_000_000_000 {
        "ms"@
    } else {
        "s"@
    }
}

/// The number of units, in double precision.
pub open spec fn unit_count(nanoseconds: u64) -> Double {
    quotient(
        nearest(false, nanoseconds as nat, 1),
        nearest(false, unit_nanoseconds(readable_unit(nanoseconds)), 1),
    )
}

proof fn lemma_readable_unit(nanoseconds: u64)
    ensures
        is_unit(readable_unit(nanoseconds)),
        unit_nanoseconds(readable_unit(nanoseconds)) == if nanoseconds < 1_000 {
            1
        } else if nanoseconds < 1_000_000 {
            1_000
        } else if nanoseconds < 1_000_000_000 {
            1_000_000nat
        } else {
            1_000_000_000
        },
{
    reveal_strlit("ms");
    reveal_strlit("us");
    reveal_strlit("ns");
    reveal_strlit("s");
    assert("ms"@[0] == 'm' && "us"@[0] == 'u' && "ns"@[0] == 'n');
}

/// A ratio is within one part in `2^51` of another.
pub open spec fn is_close(a: nat, b: nat, c: nat, d: nat) -> bool {
    &&& 0x8_0000_0000_0000 * (a * d) <= 0x8_0000_0000_0001 * (c * b)
    &&& 0x8_0000_0000_0000 * (a * d) >= 0x7_ffff_ffff_ffff * (c * b)
}

/// A rounding and a division that is rounded come to less than one part in `2^51`.
proof fn lemma_rounded_division(n: nat, a: nat, b: nat, unit: nat, c: nat, d: nat)
    requires
        b > 0,
        0x20_0000_0000_0000 * a <= 0x20_0000_0000_0001 * (n * b),
        0x20_0000_0000_0000 * a >= 0x1f_ffff_ffff_ffff * (n * b),
        0x20_0000_0000_0000 * (c * (b * unit)) <= 0x20_0000_0000_0001 * (a * d),
        0x20_0000_0000_0000 * (c * (b * unit)) >= 0x1f_ffff_ffff_ffff * (a * d),
    ensures
        is_close(c, d, n, unit),
{
    let cu = c * unit;
    let nd = n * d;
    let nb = n * b;
    assert(c * (b * unit) == cu * b) by (nonlinear_arith)
        requires
            cu == c * unit,
    ;
    assert(nb * d == nd * b) by (nonlinear_arith)
        requires
            nb == n * b,
            nd == n * d,
    ;
    assert(0x20_0000_0000_0000 * (a * d) <= 0x20_0000_0000_0001 * (nb * d)) by (nonlinear_arith)
        requires
            0x20_0000_0000_0000 * a <= 0x20_0000_0000_0001 * nb,
    ;
    assert(0x20_0000_0000_0000 * (a * d) >= 0x1f_ffff_ffff_ffff * (nb * d)) by (nonlinear_arith)
        requires
            0x20_0000_0000_0000 * a >= 0x1f_ffff_ffff_ffff * nb,
    ;
    assert(0x8_0000_0000_0000 * (cu * b) <= 0x8_0000_0000_0001 * (nd * b));
    assert(0x8_0000_0000_0000 * (cu * b) >= 0x7_ffff_ffff_ffff * (nd * b));
    assert(0x8_0000_0000_0000 * cu <= 0x8_0000_0000_0001 * nd) by (nonlinear_arith)
        requires
            0x8_0000_0000_0000 * (cu * b) <= 0x8_0000_0000_0001 * (nd * b),
            b > 0,
    ;
    assert(0x8_0000_0000_0000 * cu >= 0x7_ffff_ffff_ffff * nd) by (nonlinear_arith)
        requires
            0x8_0000_0000_0000 * (cu * b) >= 0x7_ffff_ffff_ffff * (nd * b),
            b > 0,
    ;
}

/// A positive number of nanoseconds over the length of a unit, in double precision, is finite and
/// near to the exact number of units. Up to `2^53` nanoseconds it is rounded only once.
pub(crate) proof fn lemma_unit_count(nanoseconds: u64, unit: nat) -> (w: Double)
    requires
        nanoseconds >= 1,
        1 <= unit <= 1_000_000_000,
    ensures
        w == quotient(nearest(false, nanoseconds as nat, 1), nearest(false, unit, 1)),
        w is Finite,
        !w.is_negative(),
        w.den() > 0,
        ({
            let v = nearest(false, nanoseconds as nat, 1);
            v is Finite && v.den() > 0 && w == nearest(false, v.num(), v.den() * unit)
        }),
        is_close(w.num(), w.den(), nanoseconds as nat, unit),
        nanoseconds <= 0x20_0000_0000_0000 ==> w == nearest(false, nanoseconds as nat, unit),
        nanoseconds <= 0x20_0000_0000_0000 ==> {
            let n = nanoseconds as nat;
            &&& 0x20_0000_0000_0000 * (w.num() * unit) <= 0x20_0000_0000_0001 * (n * w.den())
            &&& 0x20_0000_0000_0000 * (w.num() * unit) >= 0x1f_ffff_ffff_ffff * (n * w.den())
        },
{
    let n = nanoseconds as nat;
    let p = pow2(200);
    lemma2_to64();
    lemma_pow2_adds(100, 100);
    lemma_pow2_strictly_increases(64, 100);
    lemma_pow2_strictly_increases(100, 200);
    assert(p >= 0x1_0000_0000_0000_0000 * 0x1_0000_0000_0000_0000) by (nonlinear_arith)
        requires
            p == pow2(100) * pow2(100),
            pow2(100) >= 0x1_0000_0000_0000_0000,
    ;
    lemma_nearest_whole(unit);
    let u = nearest(false, unit, 1);
    let v = nearest(false, n, 1);
    assert(n * p > 1) by (nonlinear_arith)
        requires
            n >= 1,
            p >= 2,
    ;
    lemma_nearest_close(n, 1);
    lemma_nearest_wf(false, n, 1);
    let a = v.num();
    let b = v.den();
    // what is divided is moderate
    assert(b * unit > 0 && b * u.num() > 0) by (nonlinear_arith)
        requires
            b > 0,
            unit >= 1,
            u.num() == unit * u.den(),
            u.den() > 0,
    ;
    assert((a * u.den()) * (b * unit) == a * (b * u.num())) by (nonlinear_arith)
        requires
            u.num() == unit * u.den(),
    ;
    lemma_nearest_ratio(false, a * u.den(), b * u.num(), a, b * unit);
    assert(!u.is_zero()) by {
        if u.is_zero() {
            assert(u.num() == 0) by (nonlinear_arith)
                requires
                    u.num() == u->mantissa as nat * up(u->exponent as int),
                    u->mantissa == 0,
            ;
            assert(unit * u.den() > 0) by (nonlinear_arith)
                requires
                    unit >= 1,
                    u.den() > 0,
            ;
        }
    }
    let nb = n * b;
    assert(a * p > b * unit) by (nonlinear_arith)
        requires
            2 * a >= nb,
            nb == n * b,
            n >= 1,
            unit <= 1_000_000_000,
            p >= 0x1_0000_0000_0000_0000,
            b > 0,
    {
        assert(nb >= b);
        assert(2 * (a * p) >= b * p);
        assert(b * p >= b * 0x1_0000_0000_0000_0000);
        assert(b * unit <= b * 1_000_000_000);
    }
    assert(a < (b * unit) * p) by (nonlinear_arith)
        requires
            a <= 2 * nb,
            nb == n * b,
            n < 0x1_0000_0000_0000_0000,
            unit >= 1,
            p >= 0x1_0000_0000_0000_0000 * 0x1_0000_0000_0000_0000,
            b > 0,
    {
        assert(nb < 0x1_0000_0000_0000_0000 * b);
        assert(b * unit >= b);
        assert((b * unit) * p >= b * p);
        assert(b * p >= b * (0x1_0000_0000_0000_0000 * 0x1_0000_0000_0000_0000));
    }
    lemma_nearest_close(a, b * unit);
    lemma_nearest_wf(false, a, b * unit);
    let w = nearest(false, a, b * unit);
    lemma_rounded_division(n, a, b, unit, w.num(), w.den());
    if nanoseconds <= 0x20_0000_0000_0000 {
        lemma_nearest_whole(n);
        assert(a * unit == n * (b * unit)) by (nonlinear_arith)
            requires
                a == n * b,
        ;
        lemma_nearest_ratio(false, a, b * unit, n, unit);
        assert(n * p > unit) by (nonlinear_arith)
            requires
                n >= 1,
                p >= 0x1_0000_0000_0000_0000,
                unit <= 1_000_000_000,
        ;
        assert(n < unit * p) by (nonlinear_arith)
            requires
                n < 0x1_0000_0000_0000_0000,
                p >= 0x1_0000_0000_0000_0000,
                unit >= 1,
        ;
        lemma_nearest_close(n, unit);
    }
    w
}

/// The digits of a rendered duration, as if there was no point.
pub open spec fn rendered_digits(nanoseconds: u64, decimals: nat) -> nat {
    let w = unit_count(nanoseconds);
    half_even(w.num() * pow10(decimals), w.den())
}

proof fn lemma_rendered(nanoseconds: u64, decimals: nat)
    requires
        nanoseconds >= 1_000,
    ensures
        rendered_duration(nanoseconds, decimals) == fixed_point(
            rendered_digits(nanoseconds, decimals),
            decimals,
        ) + readable_unit(nanoseconds),
{
    lemma_readable_unit(nanoseconds);
    let w = lemma_unit_count(nanoseconds, unit_nanoseconds(readable_unit(nanoseconds)));
    let s = fixed_point(rendered_digits(nanoseconds, decimals), decimals);
    assert(fixed(w, decimals) =~= s);
}

/// Below a microsecond a duration is written out in full: it is read back unchanged.
pub proof fn law_nanoseconds_read_back(nanoseconds: u64, decimals: nat)
    requires
        nanoseconds < 1_000,
    ensures
        parsed_duration(rendered_duration(nanoseconds, decimals)) == Some(nanoseconds),
{
    let n = nanoseconds as nat;
    lemma_readable_unit(nanoseconds);
    lemma_numeral_digits(n);
    law_whole_durations_are_exact(numeral(n), "ns"@);
}

/// Every rendered duration is accepted as a duration.
pub proof fn law_rendered_duration_is_accepted(nanoseconds: u64, decimals: nat)
    ensures
        parsed_duration(rendered_duration(nanoseconds, decimals)) is Some,
{
    if nanoseconds < 1_000 {
        law_nanoseconds_read_back(nanoseconds, decimals);
    } else {
        lemma_readable_unit(nanoseconds);
        lemma_rendered(nanoseconds, decimals);
        let digits = rendered_digits(nanoseconds, decimals);
        lemma_fixed_point_number(digits, decimals);
        law_meaning_of_durations(fixed_point(digits, decimals), readable_unit(nanoseconds));
    }
}

/// What is read back of a rendered duration, next to the digits that were written.
proof fn lemma_read_back(nanoseconds: u64, decimals: nat) -> (r: u64)
    requires
        nanoseconds >= 1_000,
    ensures
        parsed_duration(rendered_duration(nanoseconds, decimals)) == Some(r),
        ({
            let x = rendered_digits(nanoseconds, decimals) * unit_nanoseconds(
                readable_unit(nanoseconds),
            );
            let p = pow10(decimals);
            &&& r as nat * p <= x
            &&& x < (r as nat + 1) * p || r == u64::MAX
        }),
{
    let digits = rendered_digits(nanoseconds, decimals);
    let number = fixed_point(digits, decimals);
    let unit = readable_unit(nanoseconds);
    lemma_readable_unit(nanoseconds);
    lemma_rendered(nanoseconds, decimals);
    lemma_fixed_point_number(digits, decimals);
    law_meaning_of_durations(number, unit);
    law_parsing_is_exact(number, unit);
    assert(numerator(number) == digits);
    assert(denominator(number) == pow10(decimals));
    parsed_duration(rendered_duration(nanoseconds, decimals))->Some_0
}

/// The digits are half a digit apart from the number `a / b` of units at most. So what bounds the
/// one by the nanoseconds bounds the other.
proof fn lemma_digits_bound(
    a: nat,
    b: nat,
    unit: nat,
    n: nat,
    p: nat,
    digits: nat,
    k: nat,
    l: nat,
)
    requires
        b > 0,
        is_half_even(a * p, b, digits),
    ensures
        k * (a * unit) <= l * (n * b) ==> k * (2 * (digits * unit)) <= l * (2 * (n * p)) + k * unit,
        k * (a * unit) >= l * (n * b) ==> k * (2 * (digits * unit)) + k * unit >= l * (2 * (n * p)),
{
    let x = digits * unit;
    let np = n * p;
    let db = digits * b;
    let ap = a * p;
    let au = a * unit;
    let nb = n * b;
    assert(2 * digits * b == 2 * db) by (nonlinear_arith)
        requires
            db == digits * b,
    ;
    // times `k * unit`, over `b`
    assert(k * (2 * (ap * unit)) == 2 * ((k * au) * p)) by (nonlinear_arith)
        requires
            ap == a * p,
            au == a * unit,
    ;
    assert(k * (2 * (db * unit)) == (k * (2 * x)) * b) by (nonlinear_arith)
        requires
            db == digits * b,
            x == digits * unit,
    ;
    assert(2 * ((l * nb) * p) == (l * (2 * np)) * b) by (nonlinear_arith)
        requires
            nb == n * b,
            np == n * p,
    ;
    assert(k * (2 * (db * unit)) <= k * (2 * (ap * unit)) + (k * unit) * b) by (nonlinear_arith)
        requires
            2 * db - b <= 2 * ap,
    ;
    assert(k * (2 * (ap * unit)) <= k * (2 * (db * unit)) + (k * unit) * b) by (nonlinear_arith)
        requires
            2 * ap <= 2 * db + b,
    ;
    let kx = k * (2 * x);
    let ln = l * (2 * np);
    let ku = k * unit;
    if k * au <= l * nb {
        assert((k * au) * p <= (l * nb) * p) by (nonlinear_arith)
            requires
                k * au <= l * nb,
        ;
        assert(kx <= ln + ku) by (nonlinear_arith)
            requires
                kx * b <= ln * b + ku * b,
                b > 0,
        ;
    }
    if k * au >= l * nb {
        assert((k * au) * p >= (l * nb) * p) by (nonlinear_arith)
            requires
                k * au >= l * nb,
        ;
        assert(kx + ku >= ln) by (nonlinear_arith)
            requires
                kx * b + ku * b >= ln * b,
                b > 0,
        ;
    }
}

/// From a microsecond on, the number that is written is within half of its last digit of the
/// nanoseconds, and one part in `2^51`; up to `2^53` nanoseconds one part in `2^53`.
pub proof fn law_rendering_is_accurate(nanoseconds: u64, decimals: nat)
    requires
        nanoseconds >= 1_000,
    ensures
        rendered_duration(nanoseconds, decimals) == fixed_point(
            rendered_digits(nanoseconds, decimals),
            decimals,
        ) + readable_unit(nanoseconds),
        ({
            let unit = unit_nanoseconds(readable_unit(nanoseconds));
            let x = rendered_digits(nanoseconds, decimals) * unit;
            let np = nanoseconds as nat * pow10(decimals);
            &&& 0x8_0000_0000_0000 * (2 * x) <= 0x8_0000_0000_0001 * (2 * np) + 0x8_0000_0000_0000
                * unit
            &&& 0x8_0000_0000_0000 * (2 * x) + 0x8_0000_0000_0000 * unit >= 0x7_ffff_ffff_ffff * (2
                * np)
            &&& nanoseconds <= 0x20_0000_0000_0000 ==> {
                &&& 0x20_0000_0000_0000 * (2 * x) <= 0x20_0000_0000_0001 * (2 * np)
                    + 0x20_0000_0000_0000 * unit
                &&& 0x20_0000_0000_0000 * (2 * x) + 0x20_0000_0000_0000 * unit
                    >= 0x1f_ffff_ffff_ffff * (2 * np)
            }
        }),
{
    let unit = unit_nanoseconds(readable_unit(nanoseconds));
    lemma_readable_unit(nanoseconds);
    let w = lemma_unit_count(nanoseconds, unit);
    let p = pow10(decimals);
    let n = nanoseconds as nat;
    let a = w.num();
    let b = w.den();
    let digits = rendered_digits(nanoseconds, decimals);
    lemma_rendered(nanoseconds, decimals);
    lemma_half_even_is(a * p, b);
    lemma_digits_bound(a, b, unit, n, p, digits, 0x8_0000_0000_0000, 0x8_0000_0000_0001);
    lemma_digits_bound(a, b, unit, n, p, digits, 0x8_0000_0000_0000, 0x7_ffff_ffff_ffff);
    lemma_digits_bound(a, b, unit, n, p, digits, 0x20_0000_0000_0000, 0x20_0000_0000_0001);
    lemma_digits_bound(a, b, unit, n, p, digits, 0x20_0000_0000_0000, 0x1f_ffff_ffff_ffff);
}

/// In one unit, a longer duration is never written as a smaller number.
pub proof fn law_rendering_is_monotone(a: u64, b: u64, decimals: nat)
    requires
        1_000 <= a <= b,
        readable_unit(a) == readable_unit(b),
    ensures
        rendered_digits(a, decimals) <= rendered_digits(b, decimals),
{
    lemma_readable_unit(a);
    let unit = unit_nanoseconds(readable_unit(a));
    let p = pow10(decimals);
    let s = lemma_unit_count(a, unit);
    let t = lemma_unit_count(b, unit);
    let x = nearest(false, a as nat, 1);
    let y = nearest(false, b as nat, 1);
    lemma_nearest_monotone(false, a as nat, 1, b as nat, 1);
    assert(x.num() * (y.den() * unit) <= y.num() * (x.den() * unit)) by (nonlinear_arith)
        requires
            x.num() * y.den() <= y.num() * x.den(),
    {
        assert(x.num() * (y.den() * unit) == (x.num() * y.den()) * unit);
        assert(y.num() * (x.den() * unit) == (y.num() * x.den()) * unit);
    }
    assert(x.den() * unit > 0 && y.den() * unit > 0) by (nonlinear_arith)
        requires
            x.den() > 0,
            y.den() > 0,
            unit > 0,
    ;
    lemma_nearest_monotone(false, x.num(), x.den() * unit, y.num(), y.den() * unit);
    assert((s.num() * p) * t.den() <= (t.num() * p) * s.den()) by (nonlinear_arith)
        requires
            s.num() * t.den() <= t.num() * s.den(),
    ;
    lemma_half_even_monotone(s.num() * p, s.den(), t.num() * p, t.den());
}

/// A rendered duration is read back to within half of the last digit that was written, a
/// nanosecond, and one part in `2^51`.
pub proof fn law_rendered_duration_reads_back(nanoseconds: u64, decimals: nat)
    ensures
        ({
            let r = parsed_duration(rendered_duration(nanoseconds, decimals))->Some_0;
            let unit = unit_nanoseconds(readable_unit(nanoseconds));
            let distance = if r >= nanoseconds {
                r - nanoseconds
            } else {
                nanoseconds - r
            };
            let p = pow10(decimals);
            0x8_0000_0000_0000 * (2 * (distance * p)) < 0x8_0000_0000_0000 * (unit + 2 * p) + 2 * (
            nanoseconds as nat * p)
        }),
{
    lemma_readable_unit(nanoseconds);
    lemma_pow10_pos(decimals);
    let p = pow10(decimals);
    if nanoseconds < 1_000 {
        law_nanoseconds_read_back(nanoseconds, decimals);
        assert(0 * p == 0) by (nonlinear_arith);
        assert(nanoseconds as nat * p >= 0) by (nonlinear_arith);
    } else {
        let n = nanoseconds as nat;
        let unit = unit_nanoseconds(readable_unit(nanoseconds));
        let x = rendered_digits(nanoseconds, decimals) * unit;
        let np = n * p;
        let r = lemma_read_back(nanoseconds, decimals) as nat;
        law_rendering_is_accurate(nanoseconds, decimals);
        assert((r + 1) * p == r * p + p) by (nonlinear_arith);
        let rp = r * p;
        let d = if r >= n {
            r - n
        } else {
            n - r
        };
        assert(d * p == if r >= n {
            rp - np
        } else {
            np - rp
        }) by (nonlinear_arith)
            requires
                rp == r * p,
                np == n * p,
                d == if r >= n {
                    r - n
                } else {
                    n - r
                },
        ;
    }
}

/// The digits hold all of the nanoseconds, and are not too many for double precision.
pub open spec fn are_full_digits(nanoseconds: u64, decimals: nat) -> bool {
    let unit = unit_nanoseconds(readable_unit(nanoseconds));
    &&& nanoseconds <= 0x20_0000_0000_0000
    &&& nanoseconds as nat * pow10(decimals) % unit == 0
    &&& nanoseconds as nat * pow10(decimals) < 0x10_0000_0000_0000 * unit
}

/// Where the digits that are asked for hold all of the nanoseconds, it is them that are written.
pub proof fn law_full_digits_are_exact(nanoseconds: u64, decimals: nat)
    requires
        nanoseconds >= 1_000,
        are_full_digits(nanoseconds, decimals),
    ensures
        rendered_duration(nanoseconds, decimals) == fixed_point(
            nanoseconds as nat * pow10(decimals) / unit_nanoseconds(readable_unit(nanoseconds)),
            decimals,
        ) + readable_unit(nanoseconds),
{
    lemma_full_digits(nanoseconds, decimals);
    lemma_rendered(nanoseconds, decimals);
}

proof fn lemma_full_digits(nanoseconds: u64, decimals: nat)
    requires
        nanoseconds >= 1_000,
        are_full_digits(nanoseconds, decimals),
    ensures
        rendered_digits(nanoseconds, decimals) == nanoseconds as nat * pow10(decimals)
            / unit_nanoseconds(readable_unit(nanoseconds)),
        rendered_digits(nanoseconds, decimals) * unit_nanoseconds(readable_unit(nanoseconds))
            == nanoseconds as nat * pow10(decimals),
{
    lemma_readable_unit(nanoseconds);
    let unit = unit_nanoseconds(readable_unit(nanoseconds));
    let np = nanoseconds as nat * pow10(decimals);
    let j = np / unit;
    lemma_fundamental_div_mod(np as int, unit as int);
    assert(np == j * unit) by (nonlinear_arith)
        requires
            np == unit * (np / unit),
            j == np / unit,
    ;
    let digits = rendered_digits(nanoseconds, decimals);
    let x = digits * unit;
    law_rendering_is_accurate(nanoseconds, decimals);
    // half a unit and one part in 2^53 are less than a whole unit
    assert(digits == j) by (nonlinear_arith)
        requires
            x == digits * unit,
            np == j * unit,
            np < 0x10_0000_0000_0000 * unit,
            0x20_0000_0000_0000 * (2 * x) <= 0x20_0000_0000_0001 * (2 * np) + 0x20_0000_0000_0000
                * unit,
            0x20_0000_0000_0000 * (2 * x) + 0x20_0000_0000_0000 * unit >= 0x1f_ffff_ffff_ffff * (2
                * np),
            unit > 0,
    {
        assert(2 * x < 2 * np + 2 * unit);
        assert(2 * x + 2 * unit > 2 * np);
        assert(digits * unit < (j + 1) * unit);
        assert((digits + 1) * unit > j * unit);
    }
}

/// Where the digits that are written hold all of the nanoseconds, the duration is read back
/// unchanged.
pub proof fn law_full_digits_read_back(nanoseconds: u64, decimals: nat)
    requires
        are_full_digits(nanoseconds, decimals),
    ensures
        parsed_duration(rendered_duration(nanoseconds, decimals)) == Some(nanoseconds),
{
    lemma_readable_unit(nanoseconds);
    lemma_pow10_pos(decimals);
    let p = pow10(decimals);
    if nanoseconds < 1_000 {
        law_nanoseconds_read_back(nanoseconds, decimals);
    } else {
        let n = nanoseconds as nat;
        lemma_full_digits(nanoseconds, decimals);
        let r = lemma_read_back(nanoseconds, decimals) as nat;
        assert(r <= n) by (nonlinear_arith)
            requires
                r * p <= n * p,
                p > 0,
        ;
        assert(n < r + 1) by (nonlinear_arith)
            requires
                n * p < (r + 1) * p || n <= r,
                p > 0,
        ;
    }
}

/// Below a microsecond a duration is written in the digits of its nanoseconds, whatever the number
/// of digits behind the point that is asked for.
pub proof fn law_nanoseconds_text(nanoseconds: u64, decimals: nat)
    requires
        nanoseconds < 1_000,
    ensures
        exists|digits: Seq<char>|
            {
                &&& rendered_duration(nanoseconds, decimals) == #[trigger] (digits + "ns"@)
                &&& is_numeral_of(digits, nanoseconds as nat)
            },
{
    let digits = numeral(nanoseconds as nat);
    law_numeral(nanoseconds as nat);
    assert(rendered_duration(nanoseconds, decimals) == digits + "ns"@);
}

} // verus!
