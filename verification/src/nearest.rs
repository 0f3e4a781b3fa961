//! What follows from the definition of the nearest double.

use crate::double::{
    at_most, binade, exponent_of, in_binade, mantissa_at, nearest, packed, Double, EXPONENT_MAX,
    EXPONENT_MIN, MANTISSA_END, MANTISSA_MIN,
};
use crate::rounding::{
    lemma_half_even_exact, lemma_half_even_is, lemma_half_even_monotone, lemma_half_even_ratio,
    lemma_scale, lemma_up_pos, lemma_up_step, scaled_ge, scaled_le, up,
};
use vstd::arithmetic::power2::{
    lemma2_to64, lemma2_to64_rest, lemma_pow2_adds, lemma_pow2_pos, lemma_pow2_strictly_increases,
    lemma_pow2_unfold, pow2,
};
use vstd::prelude::*;

verus! {

proof fn lemma_binade_unique(num: nat, den: nat, e1: int, e2: int)
    requires
        den > 0,
        in_binade(num, den, e1),
        in_binade(num, den, e2),
    ensures
        e1 == e2,
{
    lemma_binade_order(num, den, e1, e2);
    lemma_binade_order(num, den, e2, e1);
}

proof fn lemma_binade_order(num: nat, den: nat, e1: int, e2: int)
    requires
        den > 0,
        in_binade(num, den, e1),
        in_binade(num, den, e2),
    ensures
        e1 >= e2,
{
    if e1 < e2 {
        let k = (e2 - e1) as nat;
        lemma_scale(MANTISSA_MIN as nat * den, e1, k, num);
        lemma_pow2_pos((k - 1) as nat);
        lemma_pow2_unfold(k);
        let x = MANTISSA_MIN as nat * den * pow2(k);
        assert(MANTISSA_END as nat * den <= x) by (nonlinear_arith)
            requires
                x == MANTISSA_MIN as nat * den * pow2(k),
                pow2(k) >= 2,
                MANTISSA_END == 2 * MANTISSA_MIN,
        ;
        lemma_up_pos(e1);
        assert(MANTISSA_END as nat * den * up(e1) <= x * up(e1)) by (nonlinear_arith)
            requires
                MANTISSA_END as nat * den <= x,
        ;
    }
}

/// The exponent of a positive ratio is found by counting the bits of its whole part.
pub(crate) proof fn lemma_binade_of_bits(num: nat, den: nat, e: int, n: nat, b: nat)
    requires
        den > 0,
        b > 0,
        pow2((b - 1) as nat) <= n < pow2(b),
        scaled_le(n * den, e, num),
        !scaled_le((n + 1) * den, e, num),
    ensures
        in_binade(num, den, e + b - 53),
        binade(num, den) == e + b - 53,
{
    let f = e + b - 53;
    lemma2_to64_rest();
    assert(pow2(52) == MANTISSA_MIN);
    assert(pow2(53) == MANTISSA_END);
    let lo = pow2((b - 1) as nat);
    let hi = pow2(b);
    lemma_up_pos(e);
    assert(scaled_le(lo * den, e, num)) by {
        assert(lo * den * up(e) <= n * den * up(e)) by (nonlinear_arith)
            requires
                lo <= n,
        ;
    }
    assert(!scaled_le(hi * den, e, num)) by {
        assert((n + 1) * den * up(e) <= hi * den * up(e)) by (nonlinear_arith)
            requires
                n + 1 <= hi,
        ;
    }
    if b >= 53 {
        let k = (b - 53) as nat;
        lemma_scale(MANTISSA_MIN as nat * den, e, k, num);
        lemma_scale(MANTISSA_END as nat * den, e, k, num);
        lemma_pow2_adds(52, k);
        lemma_pow2_adds(53, k);
        assert(MANTISSA_MIN as nat * den * pow2(k) == lo * den) by (nonlinear_arith)
            requires
                lo == MANTISSA_MIN * pow2(k),
        ;
        assert(MANTISSA_END as nat * den * pow2(k) == hi * den) by (nonlinear_arith)
            requires
                hi == MANTISSA_END * pow2(k),
        ;
    } else {
        let k = (53 - b) as nat;
        lemma_scale(lo * den, f, k, num);
        lemma_scale(hi * den, f, k, num);
        lemma_pow2_adds((b - 1) as nat, k);
        lemma_pow2_adds(b, k);
        assert(lo * den * pow2(k) == MANTISSA_MIN as nat * den) by (nonlinear_arith)
            requires
                lo * pow2(k) == MANTISSA_MIN,
        ;
        assert(hi * den * pow2(k) == MANTISSA_END as nat * den) by (nonlinear_arith)
            requires
                hi * pow2(k) == MANTISSA_END,
        ;
    }
    assert(in_binade(num, den, f));
    lemma_binade_unique(num, den, f, binade(num, den));
}

/// An exact whole part leaves no room for the next one.
pub(crate) proof fn lemma_exact_is_whole(x: nat, den: nat, e: int, num: nat)
    requires
        den > 0,
        scaled_ge(x * den, e, num),
    ensures
        !scaled_le((x + 1) * den, e, num),
{
    lemma_up_pos(e);
    assert((x + 1) * den * up(e) > x * den * up(e)) by (nonlinear_arith)
        requires
            den > 0,
            up(e) > 0,
    ;
}

pub(crate) proof fn lemma_bits(n: nat) -> (b: nat)
    requires
        n > 0,
    ensures
        b > 0,
        pow2((b - 1) as nat) <= n < pow2(b),
    decreases n,
{
    if n == 1 {
        lemma2_to64();
        1
    } else {
        let c = lemma_bits(n / 2);
        lemma_pow2_unfold(c);
        lemma_pow2_unfold(c + 1);
        c + 1
    }
}

proof fn lemma_pow2_exceeds(n: nat)
    ensures
        pow2(n) > n,
    decreases n,
{
    if n == 0 {
        lemma2_to64();
    } else {
        lemma_pow2_exceeds((n - 1) as nat);
        lemma_pow2_unfold(n);
    }
}

/// Every positive ratio has a binade.
proof fn lemma_binade(num: nat, den: nat)
    requires
        num > 0,
        den > 0,
    ensures
        in_binade(num, den, binade(num, den)),
{
    let e = -(den as int);
    let p = pow2(den);
    lemma_pow2_exceeds(den);
    let nn = num * p;
    let n = nn / den;
    vstd::arithmetic::div_mod::lemma_fundamental_div_mod(nn as int, den as int);
    assert(nn >= den) by (nonlinear_arith)
        requires
            nn == num * p,
            num > 0,
            p > den,
    ;
    assert(n > 0) by {
        vstd::arithmetic::div_mod::lemma_div_non_zero(nn as int, den as int);
    }
    let b = lemma_bits(n);
    assert(up(-e) == p);
    assert(up(e) == 1);
    assert(n * den * up(e) == den * n) by (nonlinear_arith)
        requires
            up(e) == 1,
    ;
    assert((n + 1) * den * up(e) == den * n + den) by (nonlinear_arith)
        requires
            up(e) == 1,
    ;
    lemma_binade_of_bits(num, den, e, n, b);
}

/// The mantissa is at most `2^53`, and at least `2^52` unless the exponent is the smallest one.
proof fn lemma_mantissa_bounds(num: nat, den: nat)
    requires
        num > 0,
        den > 0,
    ensures
        mantissa_at(num, den, exponent_of(num, den)) <= MANTISSA_END,
        exponent_of(num, den) > EXPONENT_MIN ==> mantissa_at(num, den, exponent_of(num, den))
            >= MANTISSA_MIN,
{
    lemma_binade(num, den);
    let b = binade(num, den);
    let e = exponent_of(num, den);
    lemma_up_pos(e);
    lemma_up_pos(-e);
    let n = num * up(-e);
    let d = den * up(e);
    assert(d > 0) by (nonlinear_arith)
        requires
            d == den * up(e),
            den > 0,
            up(e) > 0,
    ;
    // The ratio is below 2^53 at its own binade, and so at a larger exponent.
    assert(!scaled_le(MANTISSA_END as nat * den, e, num)) by {
        let k = (e - b) as nat;
        lemma_scale(MANTISSA_END as nat * den, b, k, num);
        lemma_pow2_pos(k);
        lemma_up_pos(b);
        assert(MANTISSA_END as nat * den * up(b) <= MANTISSA_END as nat * den * pow2(k) * up(b))
            by (nonlinear_arith)
            requires
                pow2(k) >= 1,
        ;
    }
    assert(MANTISSA_END as nat * den * up(e) == MANTISSA_END * d) by (nonlinear_arith)
        requires
            d == den * up(e),
    ;
    lemma_half_even_exact(MANTISSA_END as nat * d, d, MANTISSA_END as nat);
    assert(n * d <= (MANTISSA_END as nat * d) * d) by (nonlinear_arith)
        requires
            n <= MANTISSA_END as nat * d,
    ;
    lemma_half_even_monotone(n, d, MANTISSA_END as nat * d, d);
    if e > EXPONENT_MIN {
        assert(MANTISSA_MIN as nat * den * up(e) == MANTISSA_MIN * d) by (nonlinear_arith)
            requires
                d == den * up(e),
        ;
        lemma_half_even_exact(MANTISSA_MIN as nat * d, d, MANTISSA_MIN as nat);
        assert((MANTISSA_MIN as nat * d) * d <= n * d) by (nonlinear_arith)
            requires
                MANTISSA_MIN as nat * d <= n,
        ;
        lemma_half_even_monotone(MANTISSA_MIN as nat * d, d, n, d);
    }
}

pub proof fn lemma_nearest_wf(negative: bool, num: nat, den: nat)
    requires
        den > 0,
    ensures
        nearest(negative, num, den).wf(),
        nearest(negative, num, den) !is NotANumber,
        nearest(negative, num, den).is_negative() == negative,
{
    if num > 0 {
        lemma_mantissa_bounds(num, den);
    }
}

/// `m1 * 2^e1 <= m2 * 2^e2`
spec fn scaled_order(m1: nat, e1: int, m2: nat, e2: int) -> bool {
    (m1 * up(e1)) * up(-e2) <= (m2 * up(e2)) * up(-e1)
}

proof fn lemma_scaled_order(m1: nat, e1: int, m2: nat, e2: int)
    requires
        e1 <= e2,
        m1 <= m2 * pow2((e2 - e1) as nat),
    ensures
        scaled_order(m1, e1, m2, e2),
{
    let k = (e2 - e1) as nat;
    lemma_up_step(e1, k);
    assert(e1 + k == e2);
    let a = up(e2);
    let b = up(-e1);
    let c = up(e1);
    let g = up(-e2);
    let p = pow2(k);
    assert((m2 * a) * b == (m2 * p) * (c * g)) by (nonlinear_arith)
        requires
            a * b == c * g * p,
    ;
    assert((m1 * c) * g <= (m2 * p) * (c * g)) by (nonlinear_arith)
        requires
            m1 <= m2 * p,
    ;
}

proof fn lemma_packed_order(negative: bool, m1: nat, e1: int, m2: nat, e2: int)
    requires
        EXPONENT_MIN <= e1 <= e2,
        m1 <= MANTISSA_END,
        m2 <= MANTISSA_END,
        e1 == e2 ==> m1 <= m2,
        e1 < e2 ==> m2 >= MANTISSA_MIN,
    ensures
        at_most(packed(negative, m1, e1), packed(negative, m2, e2)),
{
    lemma2_to64();
    let a = packed(negative, m1, e1);
    let b = packed(negative, m2, e2);
    if b is Finite {
        assert(e2 <= EXPONENT_MAX);
        if e1 == e2 && e1 == EXPONENT_MAX && m1 == MANTISSA_END {
            assert(m2 == MANTISSA_END);
        }
        assert(a is Finite);
        let ma = a->mantissa as nat;
        let ea = a->exponent as int;
        let mb = b->mantissa as nat;
        let eb = b->exponent as int;
        if ea <= eb {
            let k = (eb - ea) as nat;
            lemma_pow2_pos(k);
            if k > 0 {
                lemma_pow2_unfold(k);
                lemma_pow2_pos((k - 1) as nat);
                assert(ma <= mb * pow2(k)) by (nonlinear_arith)
                    requires
                        pow2(k) >= 2,
                        2 * mb >= ma,
                ;
            } else {
                assert(mb * pow2(0) == mb);
            }
            lemma_scaled_order(ma, ea, mb, eb);
        }
    }
}

/// Rounding keeps the order: of two ratios in order, the nearest doubles are in order.
pub proof fn lemma_nearest_monotone(negative: bool, num1: nat, den1: nat, num2: nat, den2: nat)
    requires
        den1 > 0,
        den2 > 0,
        num1 * den2 <= num2 * den1,
    ensures
        at_most(nearest(negative, num1, den1), nearest(negative, num2, den2)),
{
    let a = nearest(negative, num1, den1);
    let b = nearest(negative, num2, den2);
    if num1 == 0 {
        if b is Finite {
            assert(a.num() == 0) by (nonlinear_arith)
                requires
                    a.num() == 0 * up(EXPONENT_MIN as int),
            ;
            assert(a.num() * b.den() == 0) by (nonlinear_arith)
                requires
                    a.num() == 0,
            ;
        }
    } else {
        assert(num2 > 0) by (nonlinear_arith)
            requires
                num1 * den2 <= num2 * den1,
                num1 > 0,
                den2 > 0,
        ;
        lemma_binade(num1, den1);
        lemma_binade(num2, den2);
        let b1 = binade(num1, den1);
        let b2 = binade(num2, den2);
        let e1 = exponent_of(num1, den1);
        let e2 = exponent_of(num2, den2);
        lemma_mantissa_bounds(num1, den1);
        lemma_mantissa_bounds(num2, den2);
        if b2 < b1 {
            // num1 / den1 >= 2^52 * 2^b1 >= 2^53 * 2^b2 > num2 / den2
            lemma_binade_shift(num1, den1, b1, num2, den2, b2);
        }
        if e1 == e2 {
            lemma_up_pos(e1);
            lemma_up_pos(-e1);
            let u = up(e1);
            let w = up(-e1);
            assert(den1 * u > 0 && den2 * u > 0) by (nonlinear_arith)
                requires
                    den1 > 0,
                    den2 > 0,
                    u > 0,
            ;
            assert((num1 * w) * (den2 * u) <= (num2 * w) * (den1 * u)) by (nonlinear_arith)
                requires
                    num1 * den2 <= num2 * den1,
            ;
            lemma_half_even_monotone(num1 * w, den1 * u, num2 * w, den2 * u);
        }
        lemma_packed_order(
            negative,
            mantissa_at(num1, den1, e1),
            e1,
            mantissa_at(num2, den2, e2),
            e2,
        );
    }
}

proof fn lemma_binade_shift(num1: nat, den1: nat, b1: int, num2: nat, den2: nat, b2: int)
    requires
        den1 > 0,
        den2 > 0,
        num1 * den2 <= num2 * den1,
        in_binade(num1, den1, b1),
        in_binade(num2, den2, b2),
    ensures
        b1 <= b2,
{
    if b2 < b1 {
        let k = (b1 - b2) as nat;
        lemma_scale(MANTISSA_MIN as nat * den1, b2, k, num1);
        lemma_pow2_unfold(k);
        lemma_pow2_pos((k - 1) as nat);
        lemma_up_pos(b2);
        lemma_up_pos(-b2);
        let u = up(b2);
        let w = up(-b2);
        let p = pow2(k);
        assert(MANTISSA_MIN as nat * den1 * p * u <= num1 * w);
        assert(MANTISSA_END as nat * den2 * u > num2 * w);
        assert((MANTISSA_END as nat * den1 * u) * den2 <= (num1 * w) * den2) by (nonlinear_arith)
            requires
                MANTISSA_MIN as nat * den1 * p * u <= num1 * w,
                p >= 2,
                MANTISSA_END == 2 * MANTISSA_MIN,
        ;
        assert((num1 * w) * den2 <= (num2 * w) * den1) by (nonlinear_arith)
            requires
                num1 * den2 <= num2 * den1,
        ;
        assert((num2 * w) * den1 < (MANTISSA_END as nat * den2 * u) * den1) by (nonlinear_arith)
            requires
                MANTISSA_END as nat * den2 * u > num2 * w,
                den1 > 0,
        ;
        assert((MANTISSA_END as nat * den2 * u) * den1 == (MANTISSA_END as nat * den1 * u) * den2)
            by (nonlinear_arith);
    }
}

/// A double is the nearest one to itself.
pub proof fn lemma_nearest_identity(a: Double)
    requires
        a.wf(),
        a is Finite,
    ensures
        nearest(a.is_negative(), a.num(), a.den()) == a,
{
    let m = a->mantissa as nat;
    let e = a->exponent as int;
    let num = a.num();
    let den = a.den();
    lemma_up_pos(e);
    lemma_up_pos(-e);
    if m == 0 {
        assert(num == 0) by (nonlinear_arith)
            requires
                num == m * up(e),
                m == 0,
        ;
    } else {
        assert(num > 0) by (nonlinear_arith)
            requires
                num == m * up(e),
                m > 0,
                up(e) > 0,
        ;
        let b = lemma_bits(m);
        assert(m * den * up(e) == num * up(-e)) by (nonlinear_arith)
            requires
                num == m * up(e),
                den == up(-e),
        ;
        lemma_exact_is_whole(m, den, e, num);
        lemma_binade_of_bits(num, den, e, m, b);
        lemma2_to64_rest();
        if b > 53 {
            lemma_pow2_strictly_increases(52, (b - 1) as nat);
            if b > 54 {
                lemma_pow2_strictly_increases(53, (b - 1) as nat);
            }
        }
        if b < 53 && m >= MANTISSA_MIN {
            if b < 52 {
                lemma_pow2_strictly_increases(b, 52);
            }
        }
        assert(exponent_of(num, den) == e);
        assert(den * up(e) > 0) by (nonlinear_arith)
            requires
                den == up(-e),
                up(e) > 0,
                up(-e) > 0,
        ;
        assert(num * up(-e) == m * (den * up(e))) by (nonlinear_arith)
            requires
                num == m * up(e),
                den == up(-e),
        ;
        lemma_half_even_exact(num * up(-e), den * up(e), m);
    }
}

/// The nearest double depends on the ratio alone.
pub proof fn lemma_nearest_ratio(negative: bool, num1: nat, den1: nat, num2: nat, den2: nat)
    requires
        den1 > 0,
        den2 > 0,
        num1 * den2 == num2 * den1,
    ensures
        nearest(negative, num1, den1) == nearest(negative, num2, den2),
{
    if num1 == 0 {
        assert(num2 == 0) by (nonlinear_arith)
            requires
                num2 * den1 == 0,
                den1 > 0,
        ;
    } else {
        assert(num2 > 0) by (nonlinear_arith)
            requires
                num1 * den2 == num2 * den1,
                num1 > 0,
                den2 > 0,
        ;
        lemma_binade(num1, den1);
        lemma_binade(num2, den2);
        let b1 = binade(num1, den1);
        let b2 = binade(num2, den2);
        lemma_binade_shift(num1, den1, b1, num2, den2, b2);
        lemma_binade_shift(num2, den2, b2, num1, den1, b1);
        let e = exponent_of(num1, den1);
        lemma_up_pos(e);
        let u = up(e);
        let w = up(-e);
        assert(den1 * u > 0 && den2 * u > 0) by (nonlinear_arith)
            requires
                den1 > 0,
                den2 > 0,
                u > 0,
        ;
        assert((num1 * w) * (den2 * u) == (num2 * w) * (den1 * u)) by (nonlinear_arith)
            requires
                num1 * den2 == num2 * den1,
        ;
        lemma_half_even_ratio(num1 * w, den1 * u, num2 * w, den2 * u);
    }
}

pub(crate) proof fn lemma_den_pos(a: Double)
    requires
        a is Finite,
    ensures
        a.den() > 0,
{
    lemma_up_pos(-(a->exponent as int));
}

/// Finite doubles in their normal form are ordered by exponent, and then by mantissa.
pub(crate) proof fn lemma_order(a: Double, b: Double)
    requires
        a is Finite,
        b is Finite,
        a.wf(),
        b.wf(),
    ensures
        at_most(a, b) <==> a->exponent < b->exponent || (a->exponent == b->exponent && a->mantissa
            <= b->mantissa),
{
    let ma = a->mantissa as nat;
    let ea = a->exponent as int;
    let mb = b->mantissa as nat;
    let eb = b->exponent as int;
    lemma2_to64();
    if ea <= eb {
        let k = (eb - ea) as nat;
        lemma_pow2_pos(k);
        if k > 0 {
            lemma_pow2_unfold(k);
            lemma_pow2_pos((k - 1) as nat);
            assert(ma <= mb * pow2(k)) by (nonlinear_arith)
                requires
                    pow2(k) >= 2,
                    2 * mb >= ma,
            ;
            lemma_scaled_order(ma, ea, mb, eb);
        } else {
            lemma_up_pos(ea);
            lemma_up_pos(-ea);
            let z = up(ea) * up(-ea);
            assert((ma * up(ea)) * up(-ea) == ma * z && (mb * up(ea)) * up(-ea) == mb * z && z > 0)
                by (nonlinear_arith)
                requires
                    z == up(ea) * up(-ea),
                    up(ea) > 0,
                    up(-ea) > 0,
            ;
            assert(ma * z <= mb * z <==> ma <= mb) by (nonlinear_arith)
                requires
                    z > 0,
            ;
        }
    } else {
        let k = (ea - eb) as nat;
        lemma_up_step(eb, k);
        assert(eb + k == ea);
        lemma_pow2_unfold(k);
        lemma_pow2_pos((k - 1) as nat);
        lemma_up_pos(eb);
        lemma_up_pos(-ea);
        let p = pow2(k);
        let z = up(eb) * up(-ea);
        assert(z > 0) by (nonlinear_arith)
            requires
                z == up(eb) * up(-ea),
                up(eb) > 0,
                up(-ea) > 0,
        ;
        assert((ma * up(ea)) * up(-eb) == (ma * p) * z) by (nonlinear_arith)
            requires
                up(ea) * up(-eb) == up(eb) * up(-ea) * p,
                z == up(eb) * up(-ea),
        ;
        assert((mb * up(eb)) * up(-ea) == mb * z) by (nonlinear_arith)
            requires
                z == up(eb) * up(-ea),
        ;
        assert(mb < ma * p) by (nonlinear_arith)
            requires
                p >= 2,
                mb < 2 * ma,
        ;
        assert((ma * p) * z > mb * z) by (nonlinear_arith)
            requires
                mb < ma * p,
                z > 0,
        ;
    }
}

/// `a / b` and `c / d` are equal, so what bounds the one by `num / den` bounds the other.
proof fn lemma_transfer(a: nat, b: nat, c: nat, d: nat, num: nat, den: nat, k: nat, l: nat)
    requires
        a * d == c * b,
        b > 0,
    ensures
        k * (a * den) <= l * (num * b) ==> k * (c * den) <= l * (num * d),
        k * (a * den) >= l * (num * b) ==> k * (c * den) >= l * (num * d),
{
    assert((k * (a * den)) * d == (k * (c * den)) * b) by (nonlinear_arith)
        requires
            a * d == c * b,
    ;
    assert((l * (num * b)) * d == (l * (num * d)) * b) by (nonlinear_arith);
    let x = k * (a * den);
    let y = l * (num * b);
    let z = k * (c * den);
    let w = l * (num * d);
    if x <= y {
        assert(z <= w) by (nonlinear_arith)
            requires
                x <= y,
                x * d == z * b,
                y * d == w * b,
                b > 0,
        ;
    }
    if x >= y {
        assert(z >= w) by (nonlinear_arith)
            requires
                x >= y,
                x * d == z * b,
                y * d == w * b,
                b > 0,
        ;
    }
}

/// The exponent of a ratio that is neither tiny nor huge.
proof fn lemma_binade_moderate(num: nat, den: nat)
    requires
        den > 0,
        num * pow2(200) > den,
        num < den * pow2(200),
    ensures
        num > 0,
        -400 <= binade(num, den) <= 200,
        in_binade(num, den, binade(num, den)),
{
    let e = binade(num, den);
    let p = pow2(200);
    lemma_pow2_pos(200);
    assert(num > 0) by (nonlinear_arith)
        requires
            num * p > den,
    ;
    lemma_binade(num, den);
    lemma2_to64_rest();
    if e > 200 {
        lemma_pow2_strictly_increases(200, e as nat);
        assert(up(e) == pow2(e as nat));
        assert(up(-e) == 1);
        let x = MANTISSA_MIN as nat * den;
        assert(x * up(e) >= den * p) by (nonlinear_arith)
            requires
                x >= den,
                up(e) >= p,
        ;
        assert(num * up(-e) == num) by (nonlinear_arith)
            requires
                up(-e) == 1,
        ;
    }
    if e < -400 {
        let k = (-e) as nat;
        lemma_pow2_strictly_increases(400, k);
        lemma_pow2_adds(200, 200);
        lemma_pow2_strictly_increases(53, 200);
        assert(up(-e) == pow2(k));
        assert(up(e) == 1);
        let x = MANTISSA_END as nat * den;
        assert(x * up(e) == x) by (nonlinear_arith)
            requires
                up(e) == 1,
        ;
        assert(num * up(-e) >= num * (p * p)) by (nonlinear_arith)
            requires
                up(-e) >= p * p,
        ;
        assert(num * (p * p) >= x) by (nonlinear_arith)
            requires
                num * p > den,
                p >= MANTISSA_END,
                x == MANTISSA_END * den,
        ;
    }
}

/// The double nearest to a ratio that is neither tiny nor huge is finite, and differs from it by
/// at most one part in `2^53`.
pub proof fn lemma_nearest_close(num: nat, den: nat)
    requires
        den > 0,
        num * pow2(200) > den,
        num < den * pow2(200),
    ensures
        nearest(false, num, den) is Finite,
        nearest(false, num, den).den() > 0,
        0x20_0000_0000_0000 * (nearest(false, num, den).num() * den) <= 0x20_0000_0000_0001 * (num
            * nearest(false, num, den).den()),
        0x20_0000_0000_0000 * (nearest(false, num, den).num() * den) >= 0x1f_ffff_ffff_ffff * (num
            * nearest(false, num, den).den()),
{
    lemma_binade_moderate(num, den);
    let e = binade(num, den);
    let d = nearest(false, num, den);
    assert(e == exponent_of(num, den));
    lemma_mantissa_bounds(num, den);
    let n1 = num * up(-e);
    let d1 = den * up(e);
    lemma_up_pos(e);
    lemma_up_pos(-e);
    assert(d1 > 0) by (nonlinear_arith)
        requires
            d1 == den * up(e),
            den > 0,
            up(e) > 0,
    ;
    let m = mantissa_at(num, den, e);
    lemma_half_even_is(n1, d1);
    assert(MANTISSA_MIN * d1 <= n1) by (nonlinear_arith)
        requires
            d1 == den * up(e),
            MANTISSA_MIN as nat * den * up(e) <= n1,
    ;
    let md = m * d1;
    assert(2 * m * d1 == 2 * md) by (nonlinear_arith)
        requires
            md == m * d1,
    ;
    assert(0x20_0000_0000_0000 * md <= 0x20_0000_0000_0001 * n1);
    assert(0x20_0000_0000_0000 * md >= 0x1f_ffff_ffff_ffff * n1);
    let a = m * up(e);
    assert(a * den == md) by (nonlinear_arith)
        requires
            a == m * up(e),
            md == m * (den * up(e)),
    ;
    if m == MANTISSA_END {
        lemma_up_step(e, 1);
        lemma2_to64();
        assert(d.num() == MANTISSA_MIN as nat * up(e + 1));
        assert(d.den() == up(-(e + 1)));
        lemma_up_pos(-(e + 1));
        assert(a * d.den() == d.num() * up(-e)) by (nonlinear_arith)
            requires
                a == m * up(e),
                m == MANTISSA_END,
                MANTISSA_END == 2 * MANTISSA_MIN,
                d.den() == up(-(e + 1)),
                d.num() == MANTISSA_MIN as nat * up(e + 1),
                up(e + 1) * up(-e) == up(e) * up(-(e + 1)) * pow2(1),
                pow2(1) == 2,
        ;
        lemma_transfer(
            a,
            up(-e),
            d.num(),
            d.den(),
            num,
            den,
            0x20_0000_0000_0000,
            0x20_0000_0000_0001,
        );
        lemma_transfer(
            a,
            up(-e),
            d.num(),
            d.den(),
            num,
            den,
            0x20_0000_0000_0000,
            0x1f_ffff_ffff_ffff,
        );
    } else {
        assert(d.num() == a);
        assert(d.den() == up(-e));
    }
}

/// A whole number up to `2^53` as a double.
proof fn lemma_whole_double(n: nat) -> (d: Double)
    requires
        n <= MANTISSA_END,
    ensures
        d.wf(),
        d is Finite,
        !d.is_negative(),
        d.num() == n * d.den(),
{
    lemma2_to64();
    lemma2_to64_rest();
    if n == 0 {
        let d = Double::Finite { negative: false, mantissa: 0, exponent: EXPONENT_MIN };
        assert(d.num() == 0 && n * d.den() == 0) by (nonlinear_arith)
            requires
                d.num() == 0 * up(EXPONENT_MIN as int),
                n == 0,
        ;
        d
    } else if n == MANTISSA_END {
        let d = Double::Finite { negative: false, mantissa: MANTISSA_MIN, exponent: 1 };
        assert(up(1) == 2);
        assert(up(-1) == 1);
        d
    } else {
        let b = lemma_bits(n);
        if b > 53 {
            if b > 54 {
                lemma_pow2_strictly_increases(53, (b - 1) as nat);
            }
        }
        let k = (53 - b) as nat;
        let e = -(k as int);
        lemma_pow2_adds(k, b);
        lemma_pow2_adds(k, (b - 1) as nat);
        lemma_pow2_pos(k);
        let m = n * pow2(k);
        assert(MANTISSA_MIN <= m < MANTISSA_END) by (nonlinear_arith)
            requires
                m == n * pow2(k),
                pow2((b - 1) as nat) <= n < pow2(b),
                pow2(k) * pow2(b) == MANTISSA_END,
                pow2(k) * pow2((b - 1) as nat) == MANTISSA_MIN,
                pow2(k) > 0,
        ;
        let d = Double::Finite { negative: false, mantissa: m as u64, exponent: e as i32 };
        assert(up(e) == 1);
        assert(up(-e) == pow2(k));
        assert(d.num() == m) by (nonlinear_arith)
            requires
                d.num() == m * up(e),
                up(e) == 1,
        ;
        d
    }
}

/// Whole numbers up to `2^53` are doubles.
pub proof fn lemma_nearest_whole(n: nat)
    requires
        n <= MANTISSA_END,
    ensures
        nearest(false, n, 1) is Finite,
        nearest(false, n, 1).num() == n * nearest(false, n, 1).den(),
        nearest(false, n, 1).den() > 0,
{
    let d = lemma_whole_double(n);
    lemma_den_pos(d);
    lemma_nearest_identity(d);
    lemma_nearest_ratio(false, n, 1, d.num(), d.den());
}

} // verus!
