//! The binary32 interchange format: one sign bit, eight exponent bits, 23 fraction bits.
use vstd::prelude::*;
use crate::rounding::INFINITY_BITS;

verus! {

/// The sign bit; also the encoding of negative zero.
pub const SIGN_BIT: u32 = 0x8000_0000;

/// Weight of the implicit leading digit of a normal significand, `2^23`.
pub const HIDDEN_BIT: u32 = 0x80_0000;

/// The NaN that every operation of this library returns when its result is not a number.
pub const QUIET_NAN: u32 = 0x7fc0_0000;

/// Encoding of one, `2^23 * 2^-23` with biased exponent 127.
pub const ONE_BITS: u32 = 0x3f80_0000;

/// Whether the sign bit is set.
pub open spec fn is_negative(b: u32) -> bool {
    b >= SIGN_BIT
}

/// The encoding with its sign bit cleared.
pub open spec fn magnitude(b: u32) -> u32 {
    (b % SIGN_BIT) as u32
}

/// Not a number: the exponent bits all set over a fraction other than zero.
pub open spec fn is_nan(b: u32) -> bool {
    magnitude(b) > INFINITY_BITS
}

/// An infinity: the exponent bits all set over a fraction of zero.
pub open spec fn is_infinite(b: u32) -> bool {
    magnitude(b) == INFINITY_BITS
}

/// A number that is not an infinity.
pub open spec fn is_finite(b: u32) -> bool {
    magnitude(b) < INFINITY_BITS
}

/// A zero of either sign.
pub open spec fn is_zero(b: u32) -> bool {
    magnitude(b) == 0
}

/// For a finite `b`, the integer `s` with `|b| == s * 2^exponent(b)`.
pub open spec fn significand(b: u32) -> nat {
    let m = magnitude(b);
    if m < HIDDEN_BIT {
        m as nat
    } else {
        (m % HIDDEN_BIT + HIDDEN_BIT) as nat
    }
}

/// For a finite `b`, the exponent of its unit in the last place.
pub open spec fn exponent(b: u32) -> int {
    let m = magnitude(b);
    if m < HIDDEN_BIT {
        -149
    } else {
        m / HIDDEN_BIT - 150
    }
}

/// The significand with the sign of `b`.
pub open spec fn signed_significand(b: u32) -> int {
    if is_negative(b) {
        -(significand(b) as int)
    } else {
        significand(b) as int
    }
}

/// The encoding made of a sign and a magnitude.
pub open spec fn with_sign(negative: bool, mag: u32) -> u32 {
    if negative {
        (mag + SIGN_BIT) as u32
    } else {
        mag
    }
}

/// The encoding with its sign bit flipped.
pub open spec fn negated(b: u32) -> u32 {
    with_sign(!is_negative(b), magnitude(b))
}

/// Equality of the numbers encoded: no NaN equals anything, both zeros are equal.
pub open spec fn same_number(a: u32, b: u32) -> bool {
    !is_nan(a) && !is_nan(b) && (a == b || (is_zero(a) && is_zero(b)))
}

/// Negation flips the sign and keeps everything else.
pub proof fn lemma_negated(x: u32)
    ensures
        magnitude(negated(x)) == magnitude(x),
        is_negative(negated(x)) == !is_negative(x),
        significand(negated(x)) == significand(x),
        exponent(negated(x)) == exponent(x),
        signed_significand(negated(x)) == -signed_significand(x),
        negated(negated(x)) == x,
{
}

/// A sign put on a magnitude can be read back and flipped.
pub proof fn lemma_with_sign(negative: bool, mag: u32)
    requires
        mag < SIGN_BIT,
    ensures
        magnitude(with_sign(negative, mag)) == mag,
        is_negative(with_sign(negative, mag)) == negative,
        negated(with_sign(negative, mag)) == with_sign(!negative, mag),
{
}

/// A binary32 scalar, held as its encoding.
#[derive(Clone, Copy, Debug)]
pub struct Single {
    pub bits: u32,
}

impl Single {
    /// The scalar with the given encoding.
    pub fn from_bits(bits: u32) -> (r: Single)
        ensures
            r.bits == bits,
    {
        Single { bits }
    }

    /// The encoding of the scalar.
    pub fn to_bits(self) -> (bits: u32)
        ensures
            bits == self.bits,
    {
        self.bits
    }

    /// Whether the scalar is not a number.
    pub fn is_nan(self) -> (r: bool)
        ensures
            r == is_nan(self.bits),
    {
        self.bits % SIGN_BIT > INFINITY_BITS
    }

    /// Whether the scalar is an infinity of either sign.
    pub fn is_infinite(self) -> (r: bool)
        ensures
            r == is_infinite(self.bits),
    {
        self.bits % SIGN_BIT == INFINITY_BITS
    }

    /// Whether the scalar is a number and not an infinity.
    pub fn is_finite(self) -> (r: bool)
        ensures
            r == is_finite(self.bits),
    {
        self.bits % SIGN_BIT < INFINITY_BITS
    }

    /// Whether the sign bit is set, which it may be on a zero and on a NaN too.
    pub fn is_sign_negative(self) -> (r: bool)
        ensures
            r == is_negative(self.bits),
    {
        self.bits >= SIGN_BIT
    }

    /// The scalar with its sign flipped; a NaN stays a NaN.
    pub fn neg(self) -> (r: Single)
        ensures
            r.bits == negated(self.bits),
    {
        if self.bits >= SIGN_BIT {
            Single { bits: self.bits - SIGN_BIT }
        } else {
            Single { bits: self.bits + SIGN_BIT }
        }
    }

    /// Equality as numbers: false if either is NaN, true for zeros of either sign.
    pub fn equals(self, rhs: Single) -> (r: bool)
        ensures
            r == same_number(self.bits, rhs.bits),
    {
        !self.is_nan() && !rhs.is_nan() && (self.bits == rhs.bits || (self.bits % SIGN_BIT == 0
            && rhs.bits % SIGN_BIT == 0))
    }
}

/// Puts a sign on an encoding that has none.
pub fn apply_sign(negative: bool, mag: u32) -> (r: u32)
    requires
        mag < SIGN_BIT,
    ensures
        r == with_sign(negative, mag),
        magnitude(r) == mag,
        is_negative(r) == negative,
{
    if negative {
        mag + SIGN_BIT
    } else {
        mag
    }
}

/// Splits a finite encoding into significand and exponent.
pub fn decode(b: u32) -> (r: (u32, i32))
    requires
        is_finite(b),
    ensures
        r.0 == significand(b),
        r.1 == exponent(b),
        r.0 < 0x100_0000,
        -149 <= r.1 <= 104,
        r.1 > -149 ==> r.0 >= HIDDEN_BIT,
        (r.1 + 149) * HIDDEN_BIT + r.0 == magnitude(b),
{
    let m: u32 = b % SIGN_BIT;
    if m < HIDDEN_BIT {
        (m, -149)
    } else {
        (m % HIDDEN_BIT + HIDDEN_BIT, (m / HIDDEN_BIT) as i32 - 150)
    }
}

} // verus!
