//! Double precision numbers (IEEE 754 binary64), held as integers, and what their operations
//! mean.

use crate::digits::{fixed_point, pow10};
use crate::rounding::{half_even, scaled_ge, scaled_le, up};
use vstd::prelude::*;

verus! {

/// `2^52`, the smallest mantissa of a normal value.
pub const MANTISSA_MIN: u64 = 0x10_0000_0000_0000;

/// `2^53`, which every mantissa is below.
pub const MANTISSA_END: u64 = 0x20_0000_0000_0000;

/// The exponent of the subnormal values.
pub const EXPONENT_MIN: i32 = -1074;

/// The exponent of the largest finite values.
pub const EXPONENT_MAX: i32 = 971;

/// A double precision number. A finite one is `mantissa * 2^exponent`, with a sign.
#[derive(Clone, Copy, Debug, PartialEq, Eq, Structural)]
pub enum Double {
    Finite { negative: bool, mantissa: u64, exponent: i32 },
    Infinite { negative: bool },
    NotANumber,
}

impl Double {
    /// The mantissa has 53 bits, unless the exponent is the smallest one.
    pub open spec fn wf(self) -> bool {
        self matches Double::Finite { mantissa, exponent, .. } ==> {
            &&& mantissa < MANTISSA_END
            &&& EXPONENT_MIN <= exponent <= EXPONENT_MAX
            &&& mantissa >= MANTISSA_MIN || exponent == EXPONENT_MIN
        }
    }

    pub open spec fn is_negative(self) -> bool {
        match self {
            Double::Finite { negative, .. } => negative,
            Double::Infinite { negative } => negative,
            Double::NotANumber => false,
        }
    }

    /// The numerator of the absolute value of a finite number.
    pub open spec fn num(self) -> nat {
        self->mantissa as nat * up(self->exponent as int)
    }

    /// The denominator of the absolute value of a finite number.
    pub open spec fn den(self) -> nat {
        up(-(self->exponent as int))
    }

    pub open spec fn is_zero(self) -> bool {
        self is Finite && self->mantissa == 0
    }
}

/// `num / den` lies between `2^52 * 2^e` and `2^53 * 2^e`, the latter excluded.
pub open spec fn in_binade(num: nat, den: nat, e: int) -> bool {
    &&& scaled_le(MANTISSA_MIN as nat * den, e, num)
    &&& !scaled_le(MANTISSA_END as nat * den, e, num)
}

/// The exponent that gives `num / den` a mantissa of 53 bits.
pub open spec fn binade(num: nat, den: nat) -> int {
    choose|e: int| in_binade(num, den, e)
}

/// `num / den` as a multiple of `2^e`, to the nearest, halves to even.
pub open spec fn mantissa_at(num: nat, den: nat, e: int) -> nat {
    half_even(num * up(-e), den * up(e))
}

/// The value with the given mantissa, which is at most `2^53`.
pub open spec fn packed(negative: bool, m: nat, e: int) -> Double {
    if m == MANTISSA_END {
        if e >= EXPONENT_MAX {
            Double::Infinite { negative }
        } else {
            Double::Finite { negative, mantissa: MANTISSA_MIN, exponent: (e + 1) as i32 }
        }
    } else if e > EXPONENT_MAX {
        Double::Infinite { negative }
    } else {
        Double::Finite { negative, mantissa: m as u64, exponent: e as i32 }
    }
}

/// The exponent of the double nearest to a positive ratio.
pub open spec fn exponent_of(num: nat, den: nat) -> int {
    if binade(num, den) < EXPONENT_MIN {
        EXPONENT_MIN as int
    } else {
        binade(num, den)
    }
}

/// The double nearest to `num / den`, with the given sign: of the multiples of the unit in the
/// last place the nearest one, halves to even; infinite where the exponent is too large.
pub open spec fn nearest(negative: bool, num: nat, den: nat) -> Double {
    if num == 0 {
        Double::Finite { negative, mantissa: 0, exponent: EXPONENT_MIN }
    } else {
        let e = exponent_of(num, den);
        packed(negative, mantissa_at(num, den, e), e)
    }
}

/// The value whose binary64 encoding is `bits`: a sign bit, 11 bits of exponent and 52 bits of
/// fraction.
pub open spec fn decoded(bits: u64) -> Double {
    let negative = bits / 0x8000_0000_0000_0000 == 1;
    let field = bits / 0x10_0000_0000_0000 % 0x800;
    let fraction = bits % 0x10_0000_0000_0000;
    if field == 0x7ff {
        if fraction == 0 {
            Double::Infinite { negative }
        } else {
            Double::NotANumber
        }
    } else if field == 0 {
        Double::Finite { negative, mantissa: fraction, exponent: EXPONENT_MIN }
    } else {
        Double::Finite {
            negative,
            mantissa: (MANTISSA_MIN + fraction) as u64,
            exponent: (field - 1075) as i32,
        }
    }
}

/// The product of two doubles.
pub open spec fn product(a: Double, b: Double) -> Double {
    let negative = a.is_negative() != b.is_negative();
    if a is NotANumber || b is NotANumber {
        Double::NotANumber
    } else if a is Infinite || b is Infinite {
        if a.is_zero() || b.is_zero() {
            Double::NotANumber
        } else {
            Double::Infinite { negative }
        }
    } else {
        nearest(negative, a.num() * b.num(), a.den() * b.den())
    }
}

/// The quotient of two doubles.
pub open spec fn quotient(a: Double, b: Double) -> Double {
    let negative = a.is_negative() != b.is_negative();
    if a is NotANumber || b is NotANumber {
        Double::NotANumber
    } else if a is Infinite {
        if b is Infinite {
            Double::NotANumber
        } else {
            Double::Infinite { negative }
        }
    } else if b is Infinite {
        nearest(negative, 0, 1)
    } else if b.is_zero() {
        if a.is_zero() {
            Double::NotANumber
        } else {
            Double::Infinite { negative }
        }
    } else {
        nearest(negative, a.num() * b.den(), a.den() * b.num())
    }
}

/// A magnitude with its sign.
pub open spec fn signed(negative: bool, magnitude: nat) -> int {
    if negative {
        -(magnitude as int)
    } else {
        magnitude as int
    }
}

/// The sum of two doubles.
pub open spec fn sum(a: Double, b: Double) -> Double {
    if a is NotANumber || b is NotANumber {
        Double::NotANumber
    } else if a is Infinite {
        if b is Infinite && a.is_negative() != b.is_negative() {
            Double::NotANumber
        } else {
            a
        }
    } else if b is Infinite {
        b
    } else {
        let t = signed(a.is_negative(), a.num() * b.den()) + signed(
            b.is_negative(),
            b.num() * a.den(),
        );
        if t == 0 {
            nearest(a.is_negative() && b.is_negative(), 0, 1)
        } else if t < 0 {
            nearest(true, (-t) as nat, a.den() * b.den())
        } else {
            nearest(false, t as nat, a.den() * b.den())
        }
    }
}

/// A double with the opposite sign.
pub open spec fn negated(a: Double) -> Double {
    match a {
        Double::Finite { negative, mantissa, exponent } => Double::Finite {
            negative: !negative,
            mantissa,
            exponent,
        },
        Double::Infinite { negative } => Double::Infinite { negative: !negative },
        Double::NotANumber => Double::NotANumber,
    }
}

/// The difference of two doubles.
pub open spec fn difference(a: Double, b: Double) -> Double {
    sum(a, negated(b))
}

/// `m * 2^e` has 53 bits and is nearest to the square root of `num / den`: the root lies between
/// the points half a step below and half a step above.
pub open spec fn is_root(num: nat, den: nat, m: nat, e: int) -> bool {
    &&& scaled_le((MANTISSA_MIN as nat * MANTISSA_MIN as nat) * den, 2 * e, num)
    &&& !scaled_le((MANTISSA_END as nat * MANTISSA_END as nat) * den, 2 * e, num)
    &&& m > 0
    &&& !scaled_ge(((2 * m - 1) * (2 * m - 1)) as nat * den, 2 * e, 4 * num)
    &&& !scaled_le(((2 * m + 1) * (2 * m + 1)) as nat * den, 2 * e, 4 * num)
}

/// The square root of a double.
pub open spec fn root(a: Double) -> Double {
    match a {
        Double::Finite { negative, mantissa, .. } => if mantissa == 0 {
            a
        } else if negative {
            Double::NotANumber
        } else {
            let (m, e) = choose|m: nat, e: int| is_root(a.num(), a.den(), m, e);
            packed(false, m, e)
        },
        Double::Infinite { negative } => if negative {
            Double::NotANumber
        } else {
            a
        },
        Double::NotANumber => Double::NotANumber,
    }
}

/// The absolute value of the one is at most that of the other.
pub open spec fn at_most(a: Double, b: Double) -> bool {
    ||| b is Infinite
    ||| a is Finite && b is Finite && a.num() * b.den() <= b.num() * a.den()
}

/// What is written before the absolute value of a number.
pub open spec fn sign_text(negative: bool) -> Seq<char> {
    if negative {
        seq!['-']
    } else {
        Seq::empty()
    }
}

/// A double in decimal notation with a fixed number of digits behind the point: the nearest such
/// decimal number, halves to even.
pub open spec fn fixed(a: Double, decimals: nat) -> Seq<char> {
    match a {
        Double::Finite { negative, .. } => sign_text(negative) + fixed_point(
            half_even(a.num() * pow10(decimals), a.den()),
            decimals,
        ),
        Double::Infinite { negative } => sign_text(negative) + "inf"@,
        Double::NotANumber => "NaN"@,
    }
}

} // verus!
