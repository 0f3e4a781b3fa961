//! What the operations on double precision numbers have in common with those on numbers, and how
//! near they come to them.

use crate::binary64::lemma_root_order;
use crate::double::{
    decoded, difference, fixed, is_root, nearest, negated, packed, product, quotient, root, sum,
    Double, MANTISSA_END, MANTISSA_MIN,
};
use crate::nearest::{
    lemma_den_pos, lemma_nearest_close, lemma_nearest_identity, lemma_nearest_ratio,
    lemma_nearest_wf, lemma_nearest_whole,
};
use crate::rounding::{lemma_up_pos, up};
use vstd::arithmetic::power2::{lemma_pow2_adds, pow2};
use vstd::prelude::*;

verus! {

/// The encoding of a double: the sign, the exponent and the mantissa next to each other.
pub open spec fn encoded(d: Double) -> u64 {
    match d {
        Double::Finite { negative, mantissa, exponent } => {
            let sign = if negative {
                0x8000_0000_0000_0000
            } else {
                0int
            };
            if mantissa < 0x10_0000_0000_0000 {
                (sign + mantissa) as u64
            } else {
                (sign + (exponent + 1075) * 0x10_0000_0000_0000 + (mantissa - 0x10_0000_0000_0000))
                    as u64
            }
        },
        Double::Infinite { negative } => if negative {
            0xfff0_0000_0000_0000
        } else {
            0x7ff0_0000_0000_0000
        },
        Double::NotANumber => 0x7ff8_0000_0000_0000,
    }
}

/// Each double is read from its encoding.
pub proof fn law_encoding_reads_back(d: Double)
    requires
        d.wf(),
    ensures
        decoded(encoded(d)) == d,
{
}

/// Above the encoding of infinity, the sign aside, there is no number.
pub proof fn law_encodings_of_no_number(bits: u64)
    ensures
        decoded(bits) is NotANumber <==> bits % 0x8000_0000_0000_0000 > 0x7ff0_0000_0000_0000,
        decoded(bits).wf(),
{
}

/// Sums and products do not depend on the order of the two numbers.
pub proof fn law_order_of_operands(a: Double, b: Double)
    ensures
        product(a, b) == product(b, a),
        sum(a, b) == sum(b, a),
{
    if a is Finite && b is Finite {
        assert(a.num() * b.num() == b.num() * a.num()) by (nonlinear_arith);
        assert(a.den() * b.den() == b.den() * a.den()) by (nonlinear_arith);
    }
}

/// One is nothing in a product, and in a quotient.
pub proof fn law_one(a: Double)
    requires
        a.wf(),
        a is Finite,
    ensures
        product(a, nearest(false, 1, 1)) == a,
        quotient(a, nearest(false, 1, 1)) == a,
{
    let one = nearest(false, 1, 1);
    lemma_nearest_whole(1);
    lemma_den_pos(a);
    lemma_nearest_identity(a);
    let d = a.den() * one.den();
    assert(d > 0) by (nonlinear_arith)
        requires
            d == a.den() * one.den(),
            a.den() > 0,
            one.den() > 0,
    ;
    assert((a.num() * one.den()) * a.den() == a.num() * d) by (nonlinear_arith)
        requires
            d == a.den() * one.den(),
    ;
    lemma_nearest_ratio(a.is_negative(), a.num() * one.den(), d, a.num(), a.den());
    assert(one.num() == one.den());
    assert(!one.is_zero()) by {
        if one.is_zero() {
            assert(one.num() == 0) by (nonlinear_arith)
                requires
                    one.num() == one->mantissa as nat * up(one->exponent as int),
                    one->mantissa == 0,
            ;
        }
    }
    assert(!one.is_negative()) by {
        lemma_nearest_wf(false, 1, 1);
    }
}

/// A number less itself is zero, and a number is taken away by adding its opposite.
pub proof fn law_differences(a: Double, b: Double)
    requires
        a is Finite,
    ensures
        difference(a, a) == nearest(false, 0, 1),
        difference(a, b) == sum(a, negated(b)),
        negated(negated(b)) == b,
        negated(b).is_negative() != b.is_negative() || b is NotANumber,
{
}

/// The sum, the product and the quotient of two finite numbers that are not negative are the doubles
/// nearest to what they are of the numbers; of zeros as of others.
pub proof fn law_operations_round_once(a: Double, b: Double)
    requires
        a is Finite,
        b is Finite,
        !a.is_negative(),
        !b.is_negative(),
    ensures
        sum(a, b) == nearest(false, a.num() * b.den() + b.num() * a.den(), a.den() * b.den()),
        product(a, b) == nearest(false, a.num() * b.num(), a.den() * b.den()),
        b.num() > 0 ==> quotient(a, b) == nearest(false, a.num() * b.den(), a.den() * b.num()),
{
    assert(a.num() * b.den() + b.num() * a.den() >= 0);
    if b.is_zero() {
        assert(b.num() == 0) by (nonlinear_arith)
            requires
                b.num() == b->mantissa as nat * up(b->exponent as int),
                b->mantissa == 0,
        ;
    }
}

/// The difference of two finite numbers that are not negative is the double nearest to that of the
/// numbers, with its sign; that of equal numbers is zero.
pub proof fn law_differences_round_once(a: Double, b: Double)
    requires
        a is Finite,
        b is Finite,
        !a.is_negative(),
        !b.is_negative(),
    ensures
        ({
            let x = a.num() * b.den();
            let y = b.num() * a.den();
            let den = a.den() * b.den();
            &&& x >= y ==> difference(a, b) == nearest(false, (x - y) as nat, den)
            &&& x < y ==> difference(a, b) == nearest(true, (y - x) as nat, den)
        }),
{
}

/// A square is never negative, and is the double nearest to that of the number.
pub proof fn law_squares(a: Double)
    requires
        a is Finite,
    ensures
        product(a, a) == nearest(false, a.num() * a.num(), a.den() * a.den()),
        product(negated(a), negated(a)) == product(a, a),
{
}

/// Within `2^200` and its inverse, the double nearest to a number differs from it by at most one part
/// in `2^53`.
pub proof fn law_nearest_is_near(num: nat, den: nat)
    requires
        den > 0,
        num * pow2(200) > den,
        num < den * pow2(200),
    ensures
        ({
            let d = nearest(false, num, den);
            &&& d is Finite
            &&& 0x20_0000_0000_0000 * (d.num() * den) <= 0x20_0000_0000_0001 * (num * d.den())
            &&& 0x20_0000_0000_0000 * (d.num() * den) >= 0x1f_ffff_ffff_ffff * (num * d.den())
        }),
{
    lemma_nearest_close(num, den);
}

proof fn lemma_up_twice(e: int)
    ensures
        up(2 * e) == up(e) * up(e),
        up(-(2 * e)) == up(-e) * up(-e),
{
    if e > 0 {
        lemma_pow2_adds(e as nat, e as nat);
    } else if e < 0 {
        lemma_pow2_adds((-e) as nat, (-e) as nat);
    }
}

/// The root of a square is the number: where `q` is the square of `a`, exactly, the root of `q` is
/// `a`.
pub proof fn law_root_undoes_the_square(a: Double, q: Double)
    requires
        a.wf(),
        a is Finite,
        !a.is_negative(),
        a->mantissa >= MANTISSA_MIN,
        q is Finite,
        !q.is_negative(),
        q.num() * (a.den() * a.den()) == (a.num() * a.num()) * q.den(),
    ensures
        root(q) == a,
{
    let m = a->mantissa as nat;
    let e = a->exponent as int;
    let num = q.num();
    let den = q.den();
    let big = den * up(2 * e);
    lemma_up_twice(e);
    lemma_up_pos(e);
    lemma_up_pos(2 * e);
    lemma_up_pos(-(2 * e));
    lemma_den_pos(q);
    assert(big > 0) by (nonlinear_arith)
        requires
            big == den * up(2 * e),
            den > 0,
            up(2 * e) > 0,
    ;
    assert(num * up(-(2 * e)) == (m * m) * big) by (nonlinear_arith)
        requires
            num * (up(-e) * up(-e)) == ((m * up(e)) * (m * up(e))) * den,
            up(2 * e) == up(e) * up(e),
            up(-(2 * e)) == up(-e) * up(-e),
            big == den * up(2 * e),
    ;
    let lo = MANTISSA_MIN as nat * MANTISSA_MIN as nat;
    let hi = MANTISSA_END as nat * MANTISSA_END as nat;
    let below = ((2 * m - 1) * (2 * m - 1)) as nat;
    let above = ((2 * m + 1) * (2 * m + 1)) as nat;
    assert(lo <= m * m) by (nonlinear_arith)
        requires
            lo == MANTISSA_MIN as nat * MANTISSA_MIN as nat,
            m >= MANTISSA_MIN,
    ;
    assert(m * m < hi) by (nonlinear_arith)
        requires
            hi == MANTISSA_END as nat * MANTISSA_END as nat,
            m < MANTISSA_END,
    ;
    assert(0 <= (2 * m - 1) * (2 * m - 1) < 4 * (m * m)) by (nonlinear_arith)
        requires
            m >= 1,
    ;
    assert((2 * m + 1) * (2 * m + 1) > 4 * (m * m)) by (nonlinear_arith)
        requires
            m >= 1,
    ;
    lemma_scaled(lo, den, e, big);
    lemma_scaled(hi, den, e, big);
    lemma_scaled(below, den, e, big);
    lemma_scaled(above, den, e, big);
    let mm = m * m;
    assert((4 * num) * up(-(2 * e)) == (4 * mm) * big) by (nonlinear_arith)
        requires
            num * up(-(2 * e)) == mm * big,
    ;
    assert(lo * big <= mm * big && mm * big < hi * big && below * big < (4 * mm) * big && (4 * mm)
        * big < above * big) by (nonlinear_arith)
        requires
            lo <= mm < hi,
            below < 4 * mm < above,
            big > 0,
    ;
    assert(is_root(num, den, m, e));
    assert(packed(false, m, e) == a);
    assert(q->mantissa > 0) by {
        if q->mantissa == 0 {
            assert(num == 0) by (nonlinear_arith)
                requires
                    num == q->mantissa as nat * up(q->exponent as int),
                    q->mantissa == 0,
            ;
            assert(mm * big > 0) by (nonlinear_arith)
                requires
                    mm >= lo,
                    lo > 0,
                    big > 0,
            ;
        }
    }
    law_root_is_nearest(q, m, e);
}

proof fn lemma_scaled(x: nat, den: nat, e: int, big: nat)
    requires
        big == den * up(2 * e),
    ensures
        (x * den) * up(2 * e) == x * big,
{
    assert((x * den) * up(2 * e) == x * big) by (nonlinear_arith)
        requires
            big == den * up(2 * e),
    ;
}

/// The root of a positive number is the double whose half steps below and above lie around it: their
/// squares are less and more than the number.
pub proof fn law_root_is_nearest(a: Double, m: nat, e: int)
    requires
        a is Finite,
        !a.is_negative(),
        a->mantissa > 0,
        is_root(a.num(), a.den(), m, e),
    ensures
        root(a) == packed(false, m, e),
{
    let (m1, e1) = choose|m: nat, e: int| is_root(a.num(), a.den(), m, e);
    lemma_den_pos(a);
    lemma_root_order(a.num(), a.den(), m, e, m1, e1);
    lemma_root_order(a.num(), a.den(), m1, e1, m, e);
}

/// The root of zero is zero.
pub proof fn law_root_of_zero(a: Double)
    requires
        a.is_zero(),
    ensures
        root(a) == a,
{
}

/// What is not finite is written in words.
pub proof fn law_notation_of_what_is_not_finite(decimals: nat)
    ensures
        fixed(Double::Infinite { negative: false }, decimals) == "inf"@,
        fixed(Double::Infinite { negative: true }, decimals) == seq!['-'] + "inf"@,
        fixed(Double::NotANumber, decimals) == "NaN"@,
{
    assert(Seq::<char>::empty() + "inf"@ =~= "inf"@);
}

} // verus!
