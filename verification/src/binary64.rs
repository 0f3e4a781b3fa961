//! Arithmetic on double precision numbers.

use crate::digits::scaled_text;
use crate::double::{
    decoded, difference, fixed, is_root, mantissa_at, nearest, product, quotient, root, signed, sum,
    Double, EXPONENT_MAX, EXPONENT_MIN, MANTISSA_END, MANTISSA_MIN,
};
use crate::nearest::{
    lemma_binade_of_bits, lemma_exact_is_whole, lemma_nearest_identity, lemma_nearest_ratio,
};
use crate::rounding::{
    lemma_half_even_exact, lemma_half_even_unique, lemma_scale, lemma_up_add, lemma_up_pos,
    lemma_up_step, scaled_ge, scaled_le, up,
};
use vstd::arithmetic::power2::{
    lemma2_to64, lemma2_to64_rest, lemma_pow2_adds, lemma_pow2_pos, lemma_pow2_strictly_increases,
    lemma_pow2_unfold, pow2,
};
use vstd::prelude::*;

verus! {

/// Dropping `k` low bits of the whole part of `num / den / 2^e` and rounding by them gives the
/// nearest multiple of `2^(e + k)`.
proof fn lemma_round_right(
    num: nat,
    den: nat,
    e: int,
    n: nat,
    inexact: bool,
    k: nat,
    q: nat,
    r: nat,
    m: nat,
)
    requires
        den > 0,
        k > 0,
        scaled_le(n * den, e, num),
        !scaled_le((n + 1) * den, e, num),
        inexact <==> !scaled_ge(n * den, e, num),
        n == q * pow2(k) + r,
        r < pow2(k),
        m == if 2 * r < pow2(k) || (2 * r == pow2(k) && !inexact && q % 2 == 0) {
            q
        } else {
            q + 1
        },
    ensures
        m == mantissa_at(num, den, e + k),
{
    let f = e + k;
    let h = pow2((k - 1) as nat);
    lemma_pow2_unfold(k);
    assert(pow2(k) == 2 * h);
    lemma_up_pos(e);
    lemma_up_pos(-e);
    lemma_up_pos(f);
    lemma_up_pos(-f);
    let dd = den * up(e);
    let nn = num * up(-e);
    assert(dd > 0) by (nonlinear_arith)
        requires
            dd == den * up(e),
            den > 0,
            up(e) > 0,
    ;
    assert(n * den * up(e) == n * dd) by (nonlinear_arith)
        requires
            dd == den * up(e),
    ;
    assert((n + 1) * den * up(e) == n * dd + dd) by (nonlinear_arith)
        requires
            dd == den * up(e),
    ;
    assert(n * dd <= nn < n * dd + dd);
    assert(inexact <==> nn > n * dd);
    // The half-way points around `m`, in units of `2^e`.
    let below = (2 * m - 1) * (2 * h) * dd;
    let above = (2 * m + 1) * (2 * h) * dd;
    let hd = h * dd;
    let rd = r * dd;
    let qhd = q * hd;
    assert(n * dd == 2 * qhd + rd) by (nonlinear_arith)
        requires
            n == q * (2 * h) + r,
            hd == h * dd,
            rd == r * dd,
            qhd == q * hd,
    ;
    assert(below == 2 * (2 * (m * hd)) - 2 * hd) by (nonlinear_arith)
        requires
            below == (2 * m - 1) * (2 * h) * dd,
            hd == h * dd,
    ;
    assert(above == 2 * (2 * (m * hd)) + 2 * hd) by (nonlinear_arith)
        requires
            above == (2 * m + 1) * (2 * h) * dd,
            hd == h * dd,
    ;
    assert((q + 1) * hd == qhd + hd) by (nonlinear_arith)
        requires
            qhd == q * hd,
    ;
    assert(hd > 0) by (nonlinear_arith)
        requires
            hd == h * dd,
            dd > 0,
            h > 0,
    ;
    if r < h {
        assert(rd + dd <= hd) by (nonlinear_arith)
            requires
                r + 1 <= h,
                rd == r * dd,
                hd == h * dd,
        ;
        assert(2 * nn < above);
    } else {
        assert(hd <= rd) by (nonlinear_arith)
            requires
                h <= r,
                rd == r * dd,
                hd == h * dd,
        ;
        assert(rd + dd <= 2 * hd) by (nonlinear_arith)
            requires
                r + 1 <= 2 * h,
                rd == r * dd,
                hd == h * dd,
        ;
        if r > h {
            assert(hd + dd <= rd) by (nonlinear_arith)
                requires
                    h + 1 <= r,
                    rd == r * dd,
                    hd == h * dd,
            ;
        }
    }
    assert(below <= 2 * nn <= above);
    assert(2 * nn == below || 2 * nn == above ==> m % 2 == 0);
    // The same, in units of `2^f`.
    let a: nat = (2 * m + 1) * den;
    lemma_scale(a, e, k, 2 * num);
    assert(a * pow2(k) * up(e) == above) by (nonlinear_arith)
        requires
            a == (2 * m + 1) * den,
            pow2(k) == 2 * h,
            dd == den * up(e),
            above == (2 * m + 1) * (2 * h) * dd,
    ;
    assert(2 * num * up(-e) == 2 * nn) by (nonlinear_arith)
        requires
            nn == num * up(-e),
    ;
    let df = den * up(f);
    let nf = num * up(-f);
    assert(2 * num * up(-f) == 2 * nf) by (nonlinear_arith)
        requires
            nf == num * up(-f),
    ;
    assert(a * up(f) == 2 * m * df + df) by (nonlinear_arith)
        requires
            a == (2 * m + 1) * den,
            df == den * up(f),
    ;
    assert(2 * nf <= 2 * m * df + df);
    assert(2 * nf == 2 * m * df + df <==> 2 * nn == above);
    if m > 0 {
        let c: nat = ((2 * m - 1) * den) as nat;
        assert((2 * m - 1) * den >= 0) by (nonlinear_arith)
            requires
                m > 0,
        ;
        lemma_scale(c, e, k, 2 * num);
        assert(c * pow2(k) * up(e) == below) by (nonlinear_arith)
            requires
                c == (2 * m - 1) * den,
                pow2(k) == 2 * h,
                dd == den * up(e),
                below == (2 * m - 1) * (2 * h) * dd,
        ;
        assert(c * up(f) == 2 * m * df - df) by (nonlinear_arith)
            requires
                c == (2 * m - 1) * den,
                df == den * up(f),
        ;
    } else {
        assert(2 * m * df == 0) by (nonlinear_arith)
            requires
                m == 0,
        ;
    }
    assert(df > 0) by (nonlinear_arith)
        requires
            df == den * up(f),
            den > 0,
            up(f) > 0,
    ;
    lemma_half_even_unique(nf, df, m);
}

/// A multiple of a larger power of two is a multiple of a smaller one.
proof fn lemma_round_left(num: nat, den: nat, e: int, n: nat, k: nat)
    requires
        den > 0,
        scaled_le(n * den, e, num),
        scaled_ge(n * den, e, num),
    ensures
        n * pow2(k) == mantissa_at(num, den, e - k),
{
    let f = e - k;
    let m = n * pow2(k);
    lemma_scale(n * den, f, k, num);
    lemma_up_pos(f);
    let df = den * up(f);
    assert(df > 0) by (nonlinear_arith)
        requires
            df == den * up(f),
            den > 0,
            up(f) > 0,
    ;
    assert(n * den * pow2(k) * up(f) == m * df) by (nonlinear_arith)
        requires
            m == n * pow2(k),
            df == den * up(f),
    ;
    lemma_half_even_exact(num * up(-f), df, m);
}

/// `2^k` as an integer.
fn power_of_two(k: u32) -> (p: u128)
    requires
        k < 128,
    ensures
        p == pow2(k as nat),
        p > 0,
{
    let mut p: u128 = 1;
    let mut i: u32 = 0;
    proof {
        lemma2_to64();
    }
    while i < k
        invariant
            i <= k < 128,
            p == pow2(i as nat),
            p > 0,
        decreases k - i,
    {
        proof {
            lemma_pow2_unfold((i + 1) as nat);
            lemma_pow2_127();
            if i < 126 {
                lemma_pow2_strictly_increases(i as nat, 126);
            }
        }
        p = p * 2;
        i += 1;
    }
    p
}

proof fn lemma_pow2_127()
    ensures
        pow2(126) == 0x4000_0000_0000_0000_0000_0000_0000_0000,
        pow2(127) == 0x8000_0000_0000_0000_0000_0000_0000_0000,
        pow2(128) == 0x1_0000_0000_0000_0000_0000_0000_0000_0000,
{
    lemma2_to64();
    lemma2_to64_rest();
    lemma_pow2_adds(63, 63);
    lemma_pow2_adds(64, 63);
    lemma_pow2_adds(64, 64);
    assert(0x8000_0000_0000_0000 * 0x8000_0000_0000_0000
        == 0x4000_0000_0000_0000_0000_0000_0000_0000) by (nonlinear_arith);
    assert(0x1_0000_0000_0000_0000 * 0x8000_0000_0000_0000
        == 0x8000_0000_0000_0000_0000_0000_0000_0000) by (nonlinear_arith);
    assert(0x1_0000_0000_0000_0000 * 0x1_0000_0000_0000_0000
        == 0x1_0000_0000_0000_0000_0000_0000_0000_0000) by (nonlinear_arith);
}

/// The number of bits of `n`.
fn bit_length(n: u128) -> (b: u32)
    requires
        n > 0,
    ensures
        0 < b <= 128,
        pow2((b - 1) as nat) <= n < pow2(b as nat),
{
    let mut b: u32 = 1;
    let mut rest: u128 = n / 2;
    proof {
        lemma2_to64();
        lemma_pow2_127();
    }
    while rest > 0
        invariant
            0 < b <= 128,
            rest == n as nat / pow2(b as nat),
            pow2((b - 1) as nat) <= n,
            pow2(128) > n,
        decreases rest,
    {
        proof {
            let p = pow2(b as nat);
            lemma_pow2_pos(b as nat);
            lemma_pow2_unfold((b + 1) as nat);
            vstd::arithmetic::div_mod::lemma_div_denominator(n as int, p as int, 2);
            assert(p * 2 == pow2((b + 1) as nat));
            vstd::arithmetic::div_mod::lemma_fundamental_div_mod(n as int, p as int);
            assert(n >= p) by (nonlinear_arith)
                requires
                    n == p * rest + n as nat % p,
                    rest > 0,
                    p > 0,
            ;
            if b >= 128 {
                assert(b == 128);
            }
        }
        rest = rest / 2;
        b += 1;
    }
    proof {
        let p = pow2(b as nat);
        lemma_pow2_pos(b as nat);
        vstd::arithmetic::div_mod::lemma_fundamental_div_mod(n as int, p as int);
        assert(n < p) by (nonlinear_arith)
            requires
                n == p * 0 + n as nat % p,
                0 <= n as nat % p < p,
        ;
    }
    b
}

/// The double nearest to `num / den`, from the whole part `n` of `num / den / 2^e` and from
/// whether anything is left beside it.
pub(crate) fn round(
    negative: bool,
    n: u128,
    e: i32,
    inexact: bool,
    Ghost(num): Ghost<nat>,
    Ghost(den): Ghost<nat>,
) -> (d: Double)
    requires
        den > 0,
        0 < n < 0x8000_0000_0000_0000_0000_0000_0000_0000,
        -10000 <= e <= 10000,
        inexact ==> n >= MANTISSA_END,
        scaled_le(n as nat * den, e as int, num),
        !scaled_le((n + 1) as nat * den, e as int, num),
        inexact <==> !scaled_ge(n as nat * den, e as int, num),
    ensures
        d == nearest(negative, num, den),
        d.wf(),
{
    let b = bit_length(n);
    let by_bits: i32 = b as i32 - 53;
    let by_range: i32 = EXPONENT_MIN - e;
    let k: i32 = if by_bits < by_range { by_range } else { by_bits };
    let exponent: i32 = e + k;
    proof {
        lemma2_to64_rest();
        lemma_pow2_127();
        lemma_binade_of_bits(num, den, e as int, n as nat, b as nat);
        assert(num > 0) by {
            if num == 0 {
                lemma_up_pos(e as int);
                assert(n as nat * den * up(e as int) > 0) by (nonlinear_arith)
                    requires
                        n > 0,
                        den > 0,
                        up(e as int) > 0,
                ;
                assert(0 * up(-e) == 0);
            }
        }
        if b > 53 {
            lemma_pow2_strictly_increases(53, b as nat);
        }
        if b < 53 {
            lemma_pow2_strictly_increases(b as nat, 53);
        }
    }
    if k <= 0 {
        let j: u32 = (-k) as u32;
        let p = power_of_two(j);
        proof {
            lemma_pow2_adds(b as nat, j as nat);
            lemma_pow2_adds((b - 1) as nat, j as nat);
            if b + j < 53 {
                lemma_pow2_strictly_increases((b + j) as nat, 53);
            }
            lemma_pow2_pos(j as nat);
            assert(n * p < pow2(b as nat) * pow2(j as nat)) by (nonlinear_arith)
                requires
                    n < pow2(b as nat),
                    p == pow2(j as nat),
                    p > 0,
            ;
            assert(n * p >= pow2((b - 1) as nat) * pow2(j as nat)) by (nonlinear_arith)
                requires
                    n >= pow2((b - 1) as nat),
                    p == pow2(j as nat),
            ;
            lemma_round_left(num, den, e as int, n as nat, j as nat);
        }
        let m: u64 = (n * p) as u64;
        if exponent > EXPONENT_MAX {
            Double::Infinite { negative }
        } else {
            Double::Finite { negative, mantissa: m, exponent }
        }
    } else if k >= 128 {
        proof {
            if k > 128 {
                lemma_pow2_strictly_increases(128, k as nat);
            }
            lemma_round_right(num, den, e as int, n as nat, inexact, k as nat, 0, n as nat, 0);
        }
        Double::Finite { negative, mantissa: 0, exponent }
    } else {
        let p = power_of_two(k as u32);
        let q: u128 = n / p;
        let r: u128 = n % p;
        let half = power_of_two(k as u32 - 1);
        proof {
            lemma_pow2_unfold(k as nat);
            lemma_pow2_pos(k as nat);
            vstd::arithmetic::div_mod::lemma_fundamental_div_mod(n as int, p as int);
            assert(q * p + r == n) by (nonlinear_arith)
                requires
                    n == p * q + r,
            ;
            lemma_pow2_adds(53, k as nat);
            lemma_pow2_adds(52, k as nat);
            if b < 53 + k {
                lemma_pow2_strictly_increases(b as nat, (53 + k) as nat);
            }
            assert(q < MANTISSA_END) by (nonlinear_arith)
                requires
                    q * p + r == n,
                    n < MANTISSA_END * p,
                    p > 0,
                    r >= 0,
            ;
        }
        let up: bool = r > half || (r == half && (inexact || q % 2 == 1));
        let m: u64 = if up { q as u64 + 1 } else { q as u64 };
        proof {
            lemma_round_right(
                num,
                den,
                e as int,
                n as nat,
                inexact,
                k as nat,
                q as nat,
                r as nat,
                m as nat,
            );
            if k == by_bits {
                assert(q >= MANTISSA_MIN) by (nonlinear_arith)
                    requires
                        q * p + r == n,
                        n >= MANTISSA_MIN * p,
                        p > 0,
                        r < p,
                ;
            }
        }
        if m == MANTISSA_END {
            if exponent >= EXPONENT_MAX {
                Double::Infinite { negative }
            } else {
                Double::Finite { negative, mantissa: MANTISSA_MIN, exponent: exponent + 1 }
            }
        } else if exponent > EXPONENT_MAX {
            Double::Infinite { negative }
        } else {
            Double::Finite { negative, mantissa: m, exponent }
        }
    }
}

proof fn lemma_cancel_product(ma: nat, ea: int, mb: nat, eb: int)
    ensures
        scaled_le(ma * mb * (up(-ea) * up(-eb)), ea + eb, (ma * up(ea)) * (mb * up(eb))),
        scaled_ge(ma * mb * (up(-ea) * up(-eb)), ea + eb, (ma * up(ea)) * (mb * up(eb))),
{
    lemma_up_add(ea, eb);
    let e = ea + eb;
    assert(ma * mb * (up(-ea) * up(-eb)) * up(e) == (ma * up(ea)) * (mb * up(eb)) * up(-e))
        by (nonlinear_arith)
        requires
            up(ea) * up(eb) * up(-e) == up(-ea) * up(-eb) * up(e),
    ;
}

proof fn lemma_cancel_quotient(ma: nat, ea: int, mb: nat, eb: int, s: nat, n: nat)
    requires
        n * mb <= ma * pow2(s) < (n + 1) * mb,
    ensures
        scaled_le(
            n * (up(-ea) * (mb * up(eb))),
            ea - eb - s,
            (ma * up(ea)) * up(-eb),
        ),
        !scaled_le(
            (n + 1) * (up(-ea) * (mb * up(eb))),
            ea - eb - s,
            (ma * up(ea)) * up(-eb),
        ),
        scaled_ge(
            n * (up(-ea) * (mb * up(eb))),
            ea - eb - s,
            (ma * up(ea)) * up(-eb),
        ) <==> n * mb == ma * pow2(s),
{
    let e = ea - eb - s;
    let f = ea - eb;
    lemma_up_add(ea, -eb);
    lemma_up_step(e, s);
    assert(e + s == f);
    assert(-(-eb) == eb);
    assert(ea + (-eb) == f);
    lemma_up_pos(f);
    lemma_up_pos(e);
    lemma_up_pos(-e);
    lemma_up_pos(ea);
    lemma_up_pos(-ea);
    lemma_up_pos(eb);
    lemma_up_pos(-eb);
    let x = up(ea) * up(-eb);
    let y = up(-ea) * up(eb);
    let p = pow2(s);
    assert(x * up(-f) == y * up(f));
    assert(up(f) * up(-e) == up(e) * up(-f) * p);
    assert((x * up(-e)) * up(f) == (p * y * up(e)) * up(f)) by (nonlinear_arith)
        requires
            x * up(-f) == y * up(f),
            up(f) * up(-e) == up(e) * up(-f) * p,
    ;
    assert(x * up(-e) == p * y * up(e)) by (nonlinear_arith)
        requires
            (x * up(-e)) * up(f) == (p * y * up(e)) * up(f),
            up(f) > 0,
    ;
    let z = y * up(e);
    assert(z > 0) by (nonlinear_arith)
        requires
            z == up(-ea) * up(eb) * up(e),
            up(-ea) > 0,
            up(eb) > 0,
            up(e) > 0,
    ;
    let num = (ma * up(ea)) * up(-eb);
    let den = up(-ea) * (mb * up(eb));
    assert(num * up(-e) == (ma * p) * z) by (nonlinear_arith)
        requires
            num == (ma * up(ea)) * up(-eb),
            x == up(ea) * up(-eb),
            x * up(-e) == p * y * up(e),
            z == y * up(e),
    ;
    assert(n * den * up(e) == (n * mb) * z) by (nonlinear_arith)
        requires
            den == up(-ea) * (mb * up(eb)),
            y == up(-ea) * up(eb),
            z == y * up(e),
    ;
    assert((n + 1) * den * up(e) == ((n + 1) * mb) * z) by (nonlinear_arith)
        requires
            den == up(-ea) * (mb * up(eb)),
            y == up(-ea) * up(eb),
            z == y * up(e),
    ;
    let g = ma * p;
    let lo = n * mb;
    let hi = (n + 1) * mb;
    assert(lo * z <= g * z && g * z < hi * z && (lo * z >= g * z <==> lo == g))
        by (nonlinear_arith)
        requires
            z > 0,
            lo <= g < hi,
    ;
}

/// `x * 2^f` against the sum of `mh * 2^eh` and `s * ml * 2^el`, all over the common denominator.
proof fn lemma_cancel_sum(eh: int, el: int, v: nat, x: nat, k: nat)
    requires
        el <= eh,
    ensures
        scaled_le(x * (up(-eh) * up(-el)), el + k, v * (up(el) * up(-eh))) <==> x * pow2(k) <= v,
        scaled_ge(x * (up(-eh) * up(-el)), el + k, v * (up(el) * up(-eh))) <==> x * pow2(k) >= v,
{
    let den = up(-eh) * up(-el);
    let num = v * (up(el) * up(-eh));
    lemma_scale(x * den, el, k, num);
    lemma_up_pos(-eh);
    lemma_up_pos(el);
    lemma_up_pos(-el);
    let z = up(-eh) * up(-el) * up(el);
    assert(z > 0) by (nonlinear_arith)
        requires
            z == up(-eh) * up(-el) * up(el),
            up(-eh) > 0,
            up(-el) > 0,
            up(el) > 0,
    ;
    let y = x * pow2(k);
    assert(x * den * pow2(k) * up(el) == y * z) by (nonlinear_arith)
        requires
            den == up(-eh) * up(-el),
            z == up(-eh) * up(-el) * up(el),
            y == x * pow2(k),
    ;
    assert(num * up(-el) == v * z) by (nonlinear_arith)
        requires
            num == v * (up(el) * up(-eh)),
            z == up(-eh) * up(-el) * up(el),
    ;
    assert((y * z <= v * z <==> y <= v) && (y * z >= v * z <==> y >= v)) by (nonlinear_arith)
        requires
            z > 0,
    ;
}

/// The terms of a sum over the common denominator are multiples of one number.
proof fn lemma_sum_terms(mh: nat, eh: int, ml: nat, el: int)
    requires
        el <= eh,
    ensures
        (mh * up(eh)) * up(-el) == (mh * pow2((eh - el) as nat)) * (up(el) * up(-eh)),
        (ml * up(el)) * up(-eh) == ml * (up(el) * up(-eh)),
        up(el) * up(-eh) > 0,
        up(-eh) * up(-el) > 0,
{
    let d = (eh - el) as nat;
    lemma_up_step(el, d);
    assert(el + d == eh);
    assert((mh * up(eh)) * up(-el) == (mh * pow2(d)) * (up(el) * up(-eh))) by (nonlinear_arith)
        requires
            up(eh) * up(-el) == up(el) * up(-eh) * pow2(d),
    ;
    assert((ml * up(el)) * up(-eh) == ml * (up(el) * up(-eh))) by (nonlinear_arith);
    lemma_up_pos(el);
    lemma_up_pos(-el);
    lemma_up_pos(-eh);
    assert(up(el) * up(-eh) > 0 && up(-eh) * up(-el) > 0) by (nonlinear_arith)
        requires
            up(el) > 0,
            up(-eh) > 0,
            up(-el) > 0,
    ;
}

/// The sum of two finite doubles in multiples of the smaller one's unit.
proof fn lemma_sum_value(a: Double, b: Double, negative: bool, v: nat)
    requires
        a is Finite,
        b is Finite,
        b->exponent <= a->exponent,
        signed(
            a.is_negative(),
            a->mantissa as nat * pow2((a->exponent - b->exponent) as nat),
        ) + signed(b.is_negative(), b->mantissa as nat) == signed(negative, v),
    ensures
        v > 0 ==> sum(a, b) == nearest(
            negative,
            v * (up(b->exponent as int) * up(-(a->exponent as int))),
            up(-(a->exponent as int)) * up(-(b->exponent as int)),
        ),
        v == 0 ==> sum(a, b) == (Double::Finite {
            negative: a.is_negative() && b.is_negative(),
            mantissa: 0,
            exponent: EXPONENT_MIN,
        }),
        up(-(a->exponent as int)) * up(-(b->exponent as int)) > 0,
{
    let w = up(b->exponent as int) * up(-(a->exponent as int));
    let vh = a->mantissa as nat * pow2((a->exponent - b->exponent) as nat);
    let vl = b->mantissa as nat;
    lemma_sum_terms(a->mantissa as nat, a->exponent as int, vl, b->exponent as int);
    let t = signed(a.is_negative(), a.num() * b.den()) + signed(
        b.is_negative(),
        b.num() * a.den(),
    );
    let x = signed(a.is_negative(), vh);
    let y = signed(b.is_negative(), vl);
    assert(a.num() * b.den() == vh * w);
    assert(b.num() * a.den() == vl * w);
    assert(signed(a.is_negative(), vh * w) == x * w) by (nonlinear_arith)
        requires
            x == signed(a.is_negative(), vh),
            signed(a.is_negative(), vh * w) == if a.is_negative() {
                -(vh * w)
            } else {
                (vh * w) as int
            },
            x == if a.is_negative() {
                -vh
            } else {
                vh as int
            },
    ;
    assert(signed(b.is_negative(), vl * w) == y * w) by (nonlinear_arith)
        requires
            signed(b.is_negative(), vl * w) == if b.is_negative() {
                -(vl * w)
            } else {
                (vl * w) as int
            },
            y == if b.is_negative() {
                -vl
            } else {
                vl as int
            },
    ;
    let z = signed(negative, v);
    assert(t == z * w) by (nonlinear_arith)
        requires
            t == x * w + y * w,
            z == x + y,
    ;
    assert(z * w == signed(negative, v * w)) by (nonlinear_arith)
        requires
            signed(negative, v * w) == if negative {
                -(v * w)
            } else {
                (v * w) as int
            },
            z == if negative {
                -v
            } else {
                v as int
            },
    ;
    assert(v == 0 ==> v * w == 0) by (nonlinear_arith);
    assert(v > 0 ==> v * w > 0) by (nonlinear_arith)
        requires
            w > 0,
    ;
}

/// The sum of two finite doubles whose exponents are near, the one with the larger exponent
/// first.
fn add_near(nh: bool, mh: u64, eh: i32, nl: bool, ml: u64, el: i32) -> (d: Double)
    requires
        (Double::Finite { negative: nh, mantissa: mh, exponent: eh }).wf(),
        (Double::Finite { negative: nl, mantissa: ml, exponent: el }).wf(),
        el <= eh <= el + 64,
    ensures
        d == sum(
            Double::Finite { negative: nh, mantissa: mh, exponent: eh },
            Double::Finite { negative: nl, mantissa: ml, exponent: el },
        ),
        d.wf(),
{
    let shift: u32 = (eh - el) as u32;
    let p = power_of_two(shift);
    proof {
        lemma2_to64_rest();
        lemma_pow2_117();
        lemma_pow2_adds(53, shift as nat);
        if shift < 64 {
            lemma_pow2_strictly_increases((53 + shift) as nat, 117);
        }
        assert(mh * p < pow2(53) * pow2(shift as nat)) by (nonlinear_arith)
            requires
                mh < pow2(53),
                p == pow2(shift as nat),
                p > 0,
        ;
    }
    let high: u128 = mh as u128 * p;
    let low: u128 = ml as u128;
    let (negative, n): (bool, u128) = if nh == nl {
        (nh, high + low)
    } else if high >= low {
        (nh, high - low)
    } else {
        (nl, low - high)
    };
    let ghost den = up(-(eh as int)) * up(-(el as int));
    let ghost num = n as nat * (up(el as int) * up(-(eh as int)));
    proof {
        lemma_sum_value(
            Double::Finite { negative: nh, mantissa: mh, exponent: eh },
            Double::Finite { negative: nl, mantissa: ml, exponent: el },
            negative,
            n as nat,
        );
        lemma2_to64();
        lemma_cancel_sum(eh as int, el as int, n as nat, n as nat, 0);
        assert(n as nat * pow2(0) == n) by (nonlinear_arith)
            requires
                pow2(0) == 1,
        ;
        lemma_exact_is_whole(n as nat, den, el as int, num);
    }
    if n == 0 {
        return Double::Finite { negative: nh && nl, mantissa: 0, exponent: EXPONENT_MIN };
    }
    round(negative, n, el, false, Ghost(num), Ghost(den))
}

/// The sum of two finite doubles whose exponents are far apart, the one with the larger exponent
/// first: the other one only decides the rounding.
fn add_far(nh: bool, mh: u64, eh: i32, nl: bool, ml: u64, el: i32) -> (d: Double)
    requires
        (Double::Finite { negative: nh, mantissa: mh, exponent: eh }).wf(),
        (Double::Finite { negative: nl, mantissa: ml, exponent: el }).wf(),
        el + 64 < eh,
        ml > 0,
    ensures
        d == sum(
            Double::Finite { negative: nh, mantissa: mh, exponent: eh },
            Double::Finite { negative: nl, mantissa: ml, exponent: el },
        ),
        d.wf(),
{
    let n: u128 = if nh == nl { mh as u128 * 4096 } else { mh as u128 * 4096 - 1 };
    let ghost shift: nat = (eh - el) as nat;
    let ghost k: nat = (shift - 12) as nat;
    let ghost vh = mh as nat * pow2(shift);
    let ghost v: nat = if nh == nl { vh + ml as nat } else { (vh - ml) as nat };
    let ghost den = up(-(eh as int)) * up(-(el as int));
    let ghost num = v * (up(el as int) * up(-(eh as int)));
    proof {
        let q = pow2(k);
        lemma2_to64();
        lemma2_to64_rest();
        lemma_pow2_adds(12, k);
        if k > 53 {
            lemma_pow2_strictly_increases(53, k);
        }
        assert(vh == (mh * 4096) * q) by (nonlinear_arith)
            requires
                vh == mh * (4096 * q),
        ;
        assert(vh > ml) by (nonlinear_arith)
            requires
                vh == (mh * 4096) * q,
                q > ml,
                mh > 0,
        ;
        assert((mh * 4096 - 1) * q == vh - q) by (nonlinear_arith)
            requires
                vh == (mh * 4096) * q,
        ;
        assert((mh * 4096 + 1) * q == vh + q) by (nonlinear_arith)
            requires
                vh == (mh * 4096) * q,
        ;
        lemma_sum_value(
            Double::Finite { negative: nh, mantissa: mh, exponent: eh },
            Double::Finite { negative: nl, mantissa: ml, exponent: el },
            nh,
            v,
        );
        lemma_cancel_sum(eh as int, el as int, v, n as nat, k);
        lemma_cancel_sum(eh as int, el as int, v, (n + 1) as nat, k);
        assert(el + k == eh - 12);
    }
    round(nh, n, eh - 12, true, Ghost(num), Ghost(den))
}

/// Zero adds nothing.
proof fn lemma_sum_zero(a: Double, b: Double)
    requires
        a is Finite,
        a.wf(),
        a->mantissa > 0,
        b is Finite,
        b->mantissa == 0,
    ensures
        sum(a, b) == a,
{
    lemma_up_pos(a->exponent as int);
    lemma_up_pos(-(a->exponent as int));
    lemma_up_pos(-(b->exponent as int));
    let num = a.num() * b.den();
    let den = a.den() * b.den();
    assert(b.num() * a.den() == 0) by (nonlinear_arith)
        requires
            b.num() == b->mantissa as nat * up(b->exponent as int),
            b->mantissa == 0,
    ;
    assert(a.num() > 0) by (nonlinear_arith)
        requires
            a.num() == a->mantissa as nat * up(a->exponent as int),
            a->mantissa > 0,
            up(a->exponent as int) > 0,
    ;
    assert(num > 0 && den > 0) by (nonlinear_arith)
        requires
            num == a.num() * b.den(),
            den == a.den() * b.den(),
            a.num() > 0,
            b.den() > 0,
            a.den() > 0,
    ;
    assert(num * a.den() == a.num() * den) by (nonlinear_arith)
        requires
            num == a.num() * b.den(),
            den == a.den() * b.den(),
    ;
    lemma_nearest_ratio(a.is_negative(), num, den, a.num(), a.den());
    lemma_nearest_identity(a);
}

/// The sum of two finite doubles, the one with the larger exponent first.
fn add_ordered(nh: bool, mh: u64, eh: i32, nl: bool, ml: u64, el: i32) -> (d: Double)
    requires
        (Double::Finite { negative: nh, mantissa: mh, exponent: eh }).wf(),
        (Double::Finite { negative: nl, mantissa: ml, exponent: el }).wf(),
        el <= eh,
    ensures
        d == sum(
            Double::Finite { negative: nh, mantissa: mh, exponent: eh },
            Double::Finite { negative: nl, mantissa: ml, exponent: el },
        ),
        d.wf(),
{
    if eh - el <= 64 {
        add_near(nh, mh, eh, nl, ml, el)
    } else if ml == 0 {
        let high = Double::Finite { negative: nh, mantissa: mh, exponent: eh };
        proof {
            lemma_sum_zero(high, Double::Finite { negative: nl, mantissa: ml, exponent: el });
        }
        high
    } else {
        add_far(nh, mh, eh, nl, ml, el)
    }
}

proof fn lemma_pow2_117()
    ensures
        pow2(117) == 0x20_0000_0000_0000_0000_0000_0000_0000,
{
    lemma2_to64();
    lemma2_to64_rest();
    lemma_pow2_adds(64, 53);
    assert(0x1_0000_0000_0000_0000 * 0x20_0000_0000_0000
        == 0x20_0000_0000_0000_0000_0000_0000_0000) by (nonlinear_arith);
}

/// The order of the terms does not matter.
proof fn lemma_sum_commutes(a: Double, b: Double)
    requires
        a is Finite,
        b is Finite,
    ensures
        sum(a, b) == sum(b, a),
{
    assert(a.den() * b.den() == b.den() * a.den()) by (nonlinear_arith);
}

/// The whole part of the square root of `n`.
fn whole_root(n: u128) -> (q: u64)
    requires
        n < 0x400_0000_0000_0000_0000_0000_0000,
    ensures
        q * q <= n < (q + 1) * (q + 1),
        q < MANTISSA_END,
{
    let mut lo: u64 = 0;
    let mut hi: u64 = MANTISSA_END;
    proof {
        assert(MANTISSA_END * MANTISSA_END == 0x400_0000_0000_0000_0000_0000_0000)
            by (nonlinear_arith)
            requires
                MANTISSA_END == 0x20_0000_0000_0000,
        ;
    }
    while hi - lo > 1
        invariant
            lo < hi <= MANTISSA_END,
            lo * lo <= n < hi * hi,
        decreases hi - lo,
    {
        let mid: u64 = lo + (hi - lo) / 2;
        proof {
            assert(mid * mid < 0x400_0000_0000_0000_0000_0000_0000) by (nonlinear_arith)
                requires
                    mid < 0x20_0000_0000_0000,
            ;
        }
        if mid as u128 * mid as u128 <= n {
            lo = mid;
        } else {
            hi = mid;
        }
    }
    lo
}

pub(crate) proof fn lemma_root_order(num: nat, den: nat, m1: nat, e1: int, m2: nat, e2: int)
    requires
        den > 0,
        is_root(num, den, m1, e1),
        is_root(num, den, m2, e2),
    ensures
        e1 >= e2,
        e1 == e2 ==> m1 >= m2,
{
    if e1 < e2 {
        let k = (2 * (e2 - e1)) as nat;
        let lo = MANTISSA_MIN as nat * MANTISSA_MIN as nat;
        let hi = MANTISSA_END as nat * MANTISSA_END as nat;
        lemma_scale(lo * den, 2 * e1, k, num);
        lemma_pow2_unfold(k);
        lemma_pow2_unfold((k - 1) as nat);
        lemma_pow2_pos((k - 2) as nat);
        lemma_up_pos(2 * e1);
        assert(hi == 4 * lo) by (nonlinear_arith)
            requires
                lo == MANTISSA_MIN as nat * MANTISSA_MIN as nat,
                hi == MANTISSA_END as nat * MANTISSA_END as nat,
                MANTISSA_END == 2 * MANTISSA_MIN,
        ;
        assert(hi * den * up(2 * e1) <= lo * den * pow2(k) * up(2 * e1)) by (nonlinear_arith)
            requires
                hi == 4 * lo,
                pow2(k) >= 4,
        ;
    } else if e1 == e2 && m1 < m2 {
        let x = ((2 * m1 + 1) * (2 * m1 + 1)) as nat;
        let y = ((2 * m2 - 1) * (2 * m2 - 1)) as nat;
        lemma_up_pos(2 * e1);
        assert((2 * m1 + 1) * (2 * m1 + 1) <= (2 * m2 - 1) * (2 * m2 - 1)) by (nonlinear_arith)
            requires
                m1 + 1 <= m2,
        ;
        assert(x * den * up(2 * e1) <= y * den * up(2 * e1)) by (nonlinear_arith)
            requires
                x <= y,
        ;
    }
}

/// `x` quarters of a step against `y` times a double, in multiples of `2^(ex - k)`.
proof fn lemma_cancel_root(m: nat, ex: int, k: nat, x: nat, y: nat)
    ensures
        scaled_le(x * up(-ex), ex - k, y * (m * up(ex))) <==> x <= y * (m * pow2(k)),
        scaled_ge(x * up(-ex), ex - k, y * (m * up(ex))) <==> x >= y * (m * pow2(k)),
{
    let f = ex - k;
    lemma_up_step(f, k);
    assert(f + k == ex);
    lemma_up_pos(-ex);
    lemma_up_pos(f);
    let z = up(-ex) * up(f);
    assert(z > 0) by (nonlinear_arith)
        requires
            z == up(-ex) * up(f),
            up(-ex) > 0,
            up(f) > 0,
    ;
    let g = y * (m * pow2(k));
    assert(x * up(-ex) * up(f) == x * z) by (nonlinear_arith)
        requires
            z == up(-ex) * up(f),
    ;
    assert(y * (m * up(ex)) * up(-f) == g * z) by (nonlinear_arith)
        requires
            up(ex) * up(-f) == up(f) * up(-ex) * pow2(k),
            z == up(-ex) * up(f),
            g == y * (m * pow2(k)),
    ;
    assert((x * z <= g * z <==> x <= g) && (x * z >= g * z <==> x >= g)) by (nonlinear_arith)
        requires
            z > 0,
    ;
}

/// The square root of a positive finite double.
fn root_of(mantissa: u64, exponent: i32) -> (d: Double)
    requires
        (Double::Finite { negative: false, mantissa, exponent }).wf(),
        mantissa > 0,
    ensures
        d == root(Double::Finite { negative: false, mantissa, exponent }),
        d.wf(),
{
    let l = bit_length(mantissa as u128);
    proof {
        lemma2_to64_rest();
        if l > 53 {
            lemma_pow2_strictly_increases(52, (l - 1) as nat);
            if l > 54 {
                lemma_pow2_strictly_increases(53, (l - 1) as nat);
            }
        }
    }
    let k0: u32 = 105 - l;
    let k: u32 = if (exponent + 4096 - k0 as i32) % 2 == 0 { k0 } else { k0 + 1 };
    let e: i32 = (exponent + 4096 - k as i32) / 2 - 2048;
    let p = power_of_two(k);
    let ghost num = mantissa as nat * up(exponent as int);
    let ghost den = up(-(exponent as int));
    proof {
        assert(2 * e == exponent - k);
        lemma_pow2_adds(l as nat, k as nat);
        lemma_pow2_adds((l - 1) as nat, k as nat);
        lemma_pow2_adds(52, 52);
        lemma_pow2_adds(53, 53);
        assert(MANTISSA_END * MANTISSA_END == 0x400_0000_0000_0000_0000_0000_0000)
            by (nonlinear_arith)
            requires
                MANTISSA_END == 0x20_0000_0000_0000,
        ;
        if l + k < 106 {
            lemma_pow2_strictly_increases((l + k) as nat, 106);
        }
        if l - 1 + k > 104 {
            lemma_pow2_strictly_increases(104, (l - 1 + k) as nat);
        }
        assert(mantissa * p < pow2(l as nat) * pow2(k as nat)) by (nonlinear_arith)
            requires
                mantissa < pow2(l as nat),
                p == pow2(k as nat),
                p > 0,
        ;
        assert(mantissa * p >= pow2((l - 1) as nat) * pow2(k as nat)) by (nonlinear_arith)
            requires
                mantissa >= pow2((l - 1) as nat),
                p == pow2(k as nat),
        ;
    }
    let n: u128 = mantissa as u128 * p;
    let q = whole_root(n);
    proof {
        assert(q * q <= n);
        assert(q * q < 0x400_0000_0000_0000_0000_0000_0000);
    }
    let rest: u128 = n - q as u128 * q as u128;
    let m: u64 = if rest > q as u128 { q + 1 } else { q };
    proof {
        let lo = MANTISSA_MIN as nat * MANTISSA_MIN as nat;
        let hi = MANTISSA_END as nat * MANTISSA_END as nat;
        let ex = exponent as int;
        assert(lo == pow2(104));
        assert(hi == pow2(106));
        assert(q >= MANTISSA_MIN) by (nonlinear_arith)
            requires
                n >= MANTISSA_MIN * MANTISSA_MIN,
                n < (q + 1) * (q + 1),
                q >= 0,
        ;
        assert(num * 1 == num);
        lemma_cancel_root(mantissa as nat, ex, k as nat, lo, 1);
        lemma_cancel_root(mantissa as nat, ex, k as nat, hi, 1);
        assert(1 * num == num);
        let below = ((2 * m - 1) * (2 * m - 1)) as nat;
        let above = ((2 * m + 1) * (2 * m + 1)) as nat;
        lemma_cancel_root(mantissa as nat, ex, k as nat, below, 4);
        lemma_cancel_root(mantissa as nat, ex, k as nat, above, 4);
        let qq = q * q;
        assert((2 * q + 1) * (2 * q + 1) == 4 * qq + 4 * q + 1) by (nonlinear_arith)
            requires
                qq == q * q,
        ;
        assert((2 * q - 1) * (2 * q - 1) == 4 * qq - 4 * q + 1) by (nonlinear_arith)
            requires
                qq == q * q,
        ;
        assert((2 * (q + 1) + 1) * (2 * (q + 1) + 1) == 4 * qq + 12 * q + 9) by (nonlinear_arith)
            requires
                qq == q * q,
        ;
        assert((2 * (q + 1) - 1) * (2 * (q + 1) - 1) == 4 * qq + 4 * q + 1) by (nonlinear_arith)
            requires
                qq == q * q,
        ;
        assert((q + 1) * (q + 1) == qq + 2 * q + 1) by (nonlinear_arith)
            requires
                qq == q * q,
        ;
        assert(below < 4 * n < above);
        assert(is_root(num, den, m as nat, e as int));
        let (m1, e1) = choose|m: nat, e: int| is_root(num, den, m, e);
        lemma_up_pos(-ex);
        lemma_root_order(num, den, m1, e1, m as nat, e as int);
        lemma_root_order(num, den, m as nat, e as int, m1, e1);
    }
    if m == MANTISSA_END {
        Double::Finite { negative: false, mantissa: MANTISSA_MIN, exponent: e + 1 }
    } else {
        Double::Finite { negative: false, mantissa: m, exponent: e }
    }
}

impl Double {
    /// The value whose binary64 encoding is `bits`.
    pub fn from_bits(bits: u64) -> (d: Double)
        ensures
            d == decoded(bits),
            d.wf(),
    {
        let negative: bool = bits / 0x8000_0000_0000_0000 == 1;
        let field: u64 = bits / 0x10_0000_0000_0000 % 0x800;
        let fraction: u64 = bits % 0x10_0000_0000_0000;
        if field == 0x7ff {
            if fraction == 0 {
                Double::Infinite { negative }
            } else {
                Double::NotANumber
            }
        } else if field == 0 {
            Double::Finite { negative, mantissa: fraction, exponent: EXPONENT_MIN }
        } else {
            Double::Finite {
                negative,
                mantissa: MANTISSA_MIN + fraction,
                exponent: field as i32 - 1075,
            }
        }
    }

    /// The double nearest to an integer.
    pub fn from_u64(n: u64) -> (d: Double)
        ensures
            d == nearest(false, n as nat, 1),
            d.wf(),
    {
        if n == 0 {
            return Double::Finite { negative: false, mantissa: 0, exponent: EXPONENT_MIN };
        }
        proof {
            lemma_exact_is_whole(n as nat, 1, 0, n as nat);
        }
        round(false, n as u128, 0, false, Ghost(n as nat), Ghost(1))
    }

    /// The product of two doubles.
    pub fn times(self, other: Double) -> (d: Double)
        requires
            self.wf(),
            other.wf(),
        ensures
            d == product(self, other),
            d.wf(),
    {
        let negative: bool = self.sign() != other.sign();
        match (self, other) {
            (Double::NotANumber, _) => Double::NotANumber,
            (_, Double::NotANumber) => Double::NotANumber,
            (Double::Infinite { .. }, Double::Infinite { .. }) => Double::Infinite { negative },
            (Double::Infinite { .. }, Double::Finite { mantissa, .. }) => if mantissa == 0 {
                Double::NotANumber
            } else {
                Double::Infinite { negative }
            },
            (Double::Finite { mantissa, .. }, Double::Infinite { .. }) => if mantissa == 0 {
                Double::NotANumber
            } else {
                Double::Infinite { negative }
            },
            (
                Double::Finite { mantissa: ma, exponent: ea, .. },
                Double::Finite { mantissa: mb, exponent: eb, .. },
            ) => {
                if ma == 0 || mb == 0 {
                    proof {
                        assert(self.num() * other.num() == 0) by (nonlinear_arith)
                            requires
                                self.num() == ma as nat * up(ea as int),
                                other.num() == mb as nat * up(eb as int),
                                ma == 0 || mb == 0,
                        ;
                    }
                    return Double::Finite { negative, mantissa: 0, exponent: EXPONENT_MIN };
                }
                let ghost num = self.num() * other.num();
                let ghost den = self.den() * other.den();
                proof {
                    lemma_up_pos(-(ea as int));
                    lemma_up_pos(-(eb as int));
                    assert(den > 0) by (nonlinear_arith)
                        requires
                            den == up(-(ea as int)) * up(-(eb as int)),
                            up(-(ea as int)) > 0,
                            up(-(eb as int)) > 0,
                    ;
                    lemma_cancel_product(ma as nat, ea as int, mb as nat, eb as int);
                    assert(0 < ma * mb < 0x400_0000_0000_0000_0000_0000_0000) by (nonlinear_arith)
                        requires
                            0 < ma < 0x20_0000_0000_0000,
                            0 < mb < 0x20_0000_0000_0000,
                    ;
                    lemma_exact_is_whole(ma as nat * mb as nat, den, ea + eb, num);
                }
                let n: u128 = ma as u128 * mb as u128;
                round(negative, n, ea + eb, false, Ghost(num), Ghost(den))
            },
        }
    }

    fn sign(self) -> (negative: bool)
        ensures
            negative == self.is_negative(),
    {
        match self {
            Double::Finite { negative, .. } => negative,
            Double::Infinite { negative } => negative,
            Double::NotANumber => false,
        }
    }

    /// The quotient of two doubles.
    pub fn over(self, other: Double) -> (d: Double)
        requires
            self.wf(),
            other.wf(),
        ensures
            d == quotient(self, other),
            d.wf(),
    {
        let negative: bool = self.sign() != other.sign();
        let zero = Double::Finite { negative, mantissa: 0, exponent: EXPONENT_MIN };
        match (self, other) {
            (Double::NotANumber, _) => Double::NotANumber,
            (_, Double::NotANumber) => Double::NotANumber,
            (Double::Infinite { .. }, Double::Infinite { .. }) => Double::NotANumber,
            (Double::Infinite { .. }, Double::Finite { .. }) => Double::Infinite { negative },
            (Double::Finite { .. }, Double::Infinite { .. }) => zero,
            (
                Double::Finite { mantissa: ma, exponent: ea, .. },
                Double::Finite { mantissa: mb, exponent: eb, .. },
            ) => {
                if mb == 0 {
                    if ma == 0 {
                        return Double::NotANumber;
                    }
                    return Double::Infinite { negative };
                }
                if ma == 0 {
                    proof {
                        assert(self.num() * other.den() == 0) by (nonlinear_arith)
                            requires
                                self.num() == ma as nat * up(ea as int),
                                ma == 0,
                        ;
                    }
                    return zero;
                }
                let l = bit_length(ma as u128);
                proof {
                    lemma2_to64_rest();
                    lemma_pow2_127();
                    if l > 54 {
                        lemma_pow2_strictly_increases(53, (l - 1) as nat);
                    }
                    lemma_pow2_strictly_increases(116, 127);
                }
                let s: u32 = 116 - l;
                let p = power_of_two(s);
                proof {
                    lemma_pow2_adds(l as nat, s as nat);
                    lemma_pow2_adds((l - 1) as nat, s as nat);
                    lemma_pow2_adds(53, 62);
                    assert(ma * p < pow2(116)) by (nonlinear_arith)
                        requires
                            ma < pow2(l as nat),
                            p == pow2(s as nat),
                            p > 0,
                            pow2(l as nat) * pow2(s as nat) == pow2(116),
                    ;
                    assert(ma * p >= pow2(115)) by (nonlinear_arith)
                        requires
                            ma >= pow2((l - 1) as nat),
                            p == pow2(s as nat),
                            pow2((l - 1) as nat) * pow2(s as nat) == pow2(115),
                    ;
                }
                let g: u128 = ma as u128 * p;
                let n: u128 = g / mb as u128;
                let r: u128 = g % mb as u128;
                let ghost num = self.num() * other.den();
                let ghost den = self.den() * other.num();
                let e: i32 = ea - eb - s as i32;
                proof {
                    vstd::arithmetic::div_mod::lemma_fundamental_div_mod(g as int, mb as int);
                    assert(n * mb + r == g) by (nonlinear_arith)
                        requires
                            g == mb * n + r,
                    ;
                    assert((n + 1) * mb > g) by (nonlinear_arith)
                        requires
                            n * mb + r == g,
                            r < mb,
                    ;
                    assert(n >= MANTISSA_END) by (nonlinear_arith)
                        requires
                            n * mb + r == g,
                            r < mb,
                            mb < 0x20_0000_0000_0000,
                            g >= 0x20_0000_0000_0000 * 0x4000_0000_0000_0000,
                            MANTISSA_END == 0x20_0000_0000_0000,
                    ;
                    assert(n <= g) by (nonlinear_arith)
                        requires
                            n * mb + r == g,
                            mb > 0,
                            r >= 0,
                    ;
                    lemma_cancel_quotient(
                        ma as nat,
                        ea as int,
                        mb as nat,
                        eb as int,
                        s as nat,
                        n as nat,
                    );
                    lemma_up_pos(-(ea as int));
                    lemma_up_pos(eb as int);
                    assert(den > 0) by (nonlinear_arith)
                        requires
                            den == up(-(ea as int)) * (mb as nat * up(eb as int)),
                            up(-(ea as int)) > 0,
                            up(eb as int) > 0,
                            mb > 0,
                    ;
                }
                round(negative, n, e, r != 0, Ghost(num), Ghost(den))
            },
        }
    }

    /// The decimal notation with a fixed number of digits behind the point.
    pub fn to_fixed(self, decimals: usize) -> (text: String)
        requires
            self.wf(),
            decimals < usize::MAX,
        ensures
            text@ == fixed(self, decimals as nat),
    {
        let mut text = String::new();
        match self {
            Double::NotANumber => {
                text.append("NaN");
            },
            Double::Infinite { negative } => {
                if negative {
                    text.push('-');
                }
                text.append("inf");
            },
            Double::Finite { negative, mantissa, exponent } => {
                if negative {
                    text.push('-');
                }
                text.append(scaled_text(mantissa, exponent, decimals).as_str());
            },
        }
        proof {
            assert(text@ =~= fixed(self, decimals as nat));
        }
        text
    }

    /// The sum of two doubles.
    pub fn plus(self, other: Double) -> (d: Double)
        requires
            self.wf(),
            other.wf(),
        ensures
            d == sum(self, other),
            d.wf(),
    {
        match (self, other) {
            (Double::NotANumber, _) => Double::NotANumber,
            (_, Double::NotANumber) => Double::NotANumber,
            (Double::Infinite { negative: a }, Double::Infinite { negative: b }) => if a != b {
                Double::NotANumber
            } else {
                self
            },
            (Double::Infinite { .. }, Double::Finite { .. }) => self,
            (Double::Finite { .. }, Double::Infinite { .. }) => other,
            (
                Double::Finite { negative: na, mantissa: ma, exponent: ea },
                Double::Finite { negative: nb, mantissa: mb, exponent: eb },
            ) => if ea >= eb {
                add_ordered(na, ma, ea, nb, mb, eb)
            } else {
                proof {
                    lemma_sum_commutes(self, other);
                }
                add_ordered(nb, mb, eb, na, ma, ea)
            },
        }
    }

    /// The difference of two doubles.
    pub fn minus(self, other: Double) -> (d: Double)
        requires
            self.wf(),
            other.wf(),
        ensures
            d == difference(self, other),
            d.wf(),
    {
        let opposite = match other {
            Double::Finite { negative, mantissa, exponent } => Double::Finite {
                negative: !negative,
                mantissa,
                exponent,
            },
            Double::Infinite { negative } => Double::Infinite { negative: !negative },
            Double::NotANumber => Double::NotANumber,
        };
        self.plus(opposite)
    }

    /// The square root of a double.
    pub fn sqrt(self) -> (d: Double)
        requires
            self.wf(),
        ensures
            d == root(self),
            d.wf(),
    {
        match self {
            Double::Finite { negative, mantissa, exponent } => if mantissa == 0 {
                self
            } else if negative {
                Double::NotANumber
            } else {
                root_of(mantissa, exponent)
            },
            Double::Infinite { negative } => if negative {
                Double::NotANumber
            } else {
                self
            },
            Double::NotANumber => Double::NotANumber,
        }
    }
}

} // verus!
