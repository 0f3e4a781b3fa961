use vstd::arithmetic::div_mod::lemma_fundamental_div_mod;
use vstd::arithmetic::power2::{lemma2_to64, lemma_pow2_pos, lemma_pow2_unfold, pow2};
use vstd::prelude::*;

verus! {

/// The integer nearest to `n / d`; of two that are equally near, the even one.
pub open spec fn half_even(n: nat, d: nat) -> nat {
    let q = n / d;
    let r = n % d;
    if 2 * r < d || (2 * r == d && q % 2 == 0) {
        q
    } else {
        q + 1
    }
}

/// `m` is an integer nearest to `n / d`, and even if another is equally near.
pub open spec fn is_half_even(n: nat, d: nat, m: nat) -> bool {
    &&& 2 * m * d - d <= 2 * n <= 2 * m * d + d
    &&& 2 * n == 2 * m * d - d || 2 * n == 2 * m * d + d ==> m % 2 == 0
}

/// Of two ratios in order, the nearest integers are in order.
pub proof fn lemma_is_half_even_monotone(n1: nat, d1: nat, m1: nat, n2: nat, d2: nat, m2: nat)
    requires
        d1 > 0,
        d2 > 0,
        is_half_even(n1, d1, m1),
        is_half_even(n2, d2, m2),
        n1 * d2 <= n2 * d1,
    ensures
        m1 <= m2,
{
    if m1 > m2 {
        let p = d1 * d2;
        assert(p > 0) by (nonlinear_arith)
            requires
                d1 > 0,
                d2 > 0,
                p == d1 * d2,
        ;
        assert((2 * m1 - 1) * p <= 2 * (n1 * d2)) by (nonlinear_arith)
            requires
                2 * m1 * d1 - d1 <= 2 * n1,
                p == d1 * d2,
                d2 > 0,
        ;
        assert(2 * (n2 * d1) <= (2 * m2 + 1) * p) by (nonlinear_arith)
            requires
                2 * n2 <= 2 * m2 * d2 + d2,
                p == d1 * d2,
                d1 > 0,
        ;
        assert(2 * m1 - 1 <= 2 * m2 + 1) by (nonlinear_arith)
            requires
                (2 * m1 - 1) * p <= (2 * m2 + 1) * p,
                p > 0,
        ;
        assert(m1 == m2 + 1);
        assert(2 * n1 == 2 * m1 * d1 - d1) by (nonlinear_arith)
            requires
                2 * m1 * d1 - d1 <= 2 * n1,
                2 * (n1 * d2) == (2 * m1 - 1) * p,
                p == d1 * d2,
                d2 > 0,
        ;
        assert(2 * n2 == 2 * m2 * d2 + d2) by (nonlinear_arith)
            requires
                2 * n2 <= 2 * m2 * d2 + d2,
                2 * (n2 * d1) == (2 * m2 + 1) * p,
                p == d1 * d2,
                d1 > 0,
        ;
    }
}

pub proof fn lemma_half_even_is(n: nat, d: nat)
    requires
        d > 0,
    ensures
        is_half_even(n, d, half_even(n, d)),
{
    lemma_fundamental_div_mod(n as int, d as int);
    let q = n / d;
    let r = n % d;
    assert(n == d * q + r);
    assert(2 * q * d == 2 * (d * q)) by (nonlinear_arith);
    assert(2 * (q + 1) * d == 2 * (d * q) + 2 * d) by (nonlinear_arith);
}

/// The nearest integer is unique.
pub proof fn lemma_half_even_unique(n: nat, d: nat, m: nat)
    requires
        d > 0,
        is_half_even(n, d, m),
    ensures
        m == half_even(n, d),
{
    lemma_half_even_is(n, d);
    lemma_is_half_even_monotone(n, d, m, n, d, half_even(n, d));
    lemma_is_half_even_monotone(n, d, half_even(n, d), n, d, m);
}

pub proof fn lemma_half_even_monotone(n1: nat, d1: nat, n2: nat, d2: nat)
    requires
        d1 > 0,
        d2 > 0,
        n1 * d2 <= n2 * d1,
    ensures
        half_even(n1, d1) <= half_even(n2, d2),
{
    lemma_half_even_is(n1, d1);
    lemma_half_even_is(n2, d2);
    lemma_is_half_even_monotone(n1, d1, half_even(n1, d1), n2, d2, half_even(n2, d2));
}

/// The nearest integer depends on the ratio alone.
pub proof fn lemma_half_even_ratio(n1: nat, d1: nat, n2: nat, d2: nat)
    requires
        d1 > 0,
        d2 > 0,
        n1 * d2 == n2 * d1,
    ensures
        half_even(n1, d1) == half_even(n2, d2),
{
    lemma_half_even_monotone(n1, d1, n2, d2);
    lemma_half_even_monotone(n2, d2, n1, d1);
}

/// An integer is its own nearest integer.
pub proof fn lemma_half_even_exact(n: nat, d: nat, m: nat)
    requires
        d > 0,
        n == m * d,
    ensures
        half_even(n, d) == m,
{
    assert(2 * m * d == 2 * n) by (nonlinear_arith)
        requires
            n == m * d,
    ;
    lemma_half_even_unique(n, d, m);
}

/// `2^e` for `e >= 0`, and 1 otherwise.
pub open spec fn up(e: int) -> nat {
    if e > 0 {
        pow2(e as nat)
    } else {
        1
    }
}

pub proof fn lemma_up_pos(e: int)
    ensures
        up(e) > 0,
{
    if e > 0 {
        lemma_pow2_pos(e as nat);
    }
}

/// `up(e) / up(-e)` is `2^e`, so a step of `k` in the exponent is a factor of `2^k`.
pub proof fn lemma_up_step(e: int, k: nat)
    ensures
        up(e + k) * up(-e) == up(e) * up(-(e + k)) * pow2(k),
    decreases k,
{
    if k > 0 {
        lemma_up_step(e, (k - 1) as nat);
        let f = e + k - 1;
        assert(up(f + 1) * up(-f) == 2 * (up(f) * up(-(f + 1)))) by {
            lemma_up_one(f);
        }
        lemma_up_pos(e);
        lemma_up_pos(-e);
        lemma_up_pos(f);
        lemma_up_pos(-f);
        lemma_up_pos(f + 1);
        lemma_up_pos(-(f + 1));
        lemma_pow2_unfold(k);
        let a = up(f + 1);
        let b = up(-f);
        let c = up(f);
        let g = up(-(f + 1));
        let x = up(e);
        let y = up(-e);
        let p = pow2((k - 1) as nat);
        assert(c * y == x * b * p);
        assert(a * b == 2 * (c * g));
        // (a * y) * (b * c) == (a * b) * (c * y) == 2 * c * g * x * b * p
        assert((a * y) * (b * c) == (x * g * (2 * p)) * (b * c)) by (nonlinear_arith)
            requires
                c * y == x * b * p,
                a * b == 2 * (c * g),
        ;
        assert(a * y == x * g * (2 * p)) by (nonlinear_arith)
            requires
                (a * y) * (b * c) == (x * g * (2 * p)) * (b * c),
                b > 0,
                c > 0,
        ;
    } else {
        lemma2_to64();
        assert(up(e) * up(-e) * 1 == up(e) * up(-e)) by (nonlinear_arith);
    }
}

proof fn lemma_up_one(f: int)
    ensures
        up(f + 1) * up(-f) == 2 * (up(f) * up(-(f + 1))),
{
    lemma2_to64();
    if f > 0 {
        lemma_pow2_unfold((f + 1) as nat);
    } else if f < 0 {
        lemma_pow2_unfold((-f) as nat);
        if f == -1 {
            assert(pow2(1) == 2);
        }
    }
}

/// `2^a * 2^b` is `2^(a + b)`.
pub proof fn lemma_up_add(a: int, b: int)
    ensures
        up(a) * up(b) * up(-(a + b)) == up(-a) * up(-b) * up(a + b),
{
    if b >= 0 {
        lemma_up_step(a, b as nat);
        lemma2_to64();
        assert(up(b) == pow2(b as nat));
        assert(up(a) * up(b) * up(-(a + b)) == up(-a) * up(-b) * up(a + b)) by (nonlinear_arith)
            requires
                up(a + b) * up(-a) == up(a) * up(-(a + b)) * up(b),
                up(-b) == 1,
        ;
    } else {
        lemma_up_step(a + b, (-b) as nat);
        assert(a + b + (-b) as nat == a);
        assert(up(-b) == pow2((-b) as nat));
        assert(up(a) * up(b) * up(-(a + b)) == up(-a) * up(-b) * up(a + b)) by (nonlinear_arith)
            requires
                up(a) * up(-(a + b)) == up(a + b) * up(-a) * up(-b),
                up(b) == 1,
        ;
    }
}

/// `x * 2^e <= y`, for an exponent of either sign.
pub open spec fn scaled_le(x: nat, e: int, y: nat) -> bool {
    x * up(e) <= y * up(-e)
}

/// `x * 2^e >= y`, for an exponent of either sign.
pub open spec fn scaled_ge(x: nat, e: int, y: nat) -> bool {
    x * up(e) >= y * up(-e)
}

/// `x * 2^(e + k)` is `(x * 2^k) * 2^e`.
pub proof fn lemma_scale(x: nat, e: int, k: nat, y: nat)
    ensures
        scaled_le(x, e + k, y) <==> scaled_le(x * pow2(k), e, y),
        scaled_ge(x, e + k, y) <==> scaled_ge(x * pow2(k), e, y),
{
    lemma_up_step(e, k);
    lemma_up_pos(e);
    lemma_up_pos(-e);
    lemma_up_pos(e + k);
    lemma_up_pos(-(e + k));
    let a = up(e + k);
    let b = up(-e);
    let c = up(e);
    let g = up(-(e + k));
    let p = pow2(k);
    assert((x * a) * b == (x * p * c) * g) by (nonlinear_arith)
        requires
            a * b == c * g * p,
    ;
    assert((y * g) * b == (y * b) * g) by (nonlinear_arith);
    assert(x * a <= y * g <==> x * p * c <= y * b) by (nonlinear_arith)
        requires
            (x * a) * b == (x * p * c) * g,
            (y * g) * b == (y * b) * g,
            b > 0,
            g > 0,
    ;
    assert(x * a >= y * g <==> x * p * c >= y * b) by (nonlinear_arith)
        requires
            (x * a) * b == (x * p * c) * g,
            (y * g) * b == (y * b) * g,
            b > 0,
            g > 0,
    ;
}

} // verus!
