//! Correctly rounded binary32 arithmetic.
use vstd::prelude::*;
use vstd::arithmetic::power2::*;
use vstd::bits::*;
use crate::rounding::{
    round_magnitude, round_pack, round_ratio, round_ratio_pack, nearest_sqrt, nearest_square_root,
    bit_length, bit_len, quantum, rounded_units, lemma_bit_len_unique, lemma_bit_len_bounds,
    lemma_bit_len_at_most, lemma_nearest_even_within_half, lemma_nearest_sqrt_bounds,
    INFINITY_BITS,
};
use crate::format::{
    Single, is_negative, magnitude, is_nan, is_infinite, is_finite, is_zero, significand, exponent,
    signed_significand, with_sign, negated, apply_sign, decode, SIGN_BIT, HIDDEN_BIT, QUIET_NAN,
};

verus! {

/// `a * b`: the exact product of the two numbers, rounded.
///
/// Not a number if an operand is, or for zero times infinity.
pub open spec fn product(a: u32, b: u32) -> u32 {
    let negative = is_negative(a) != is_negative(b);
    if is_nan(a) || is_nan(b) {
        QUIET_NAN
    } else if is_infinite(a) || is_infinite(b) {
        if is_zero(a) || is_zero(b) {
            QUIET_NAN
        } else {
            with_sign(negative, INFINITY_BITS)
        }
    } else {
        with_sign(
            negative,
            round_magnitude(significand(a) * significand(b), exponent(a) + exponent(b)),
        )
    }
}

/// The smaller of the two exponents: the unit in which a sum is exact.
pub open spec fn common_exponent(a: u32, b: u32) -> int {
    if exponent(a) <= exponent(b) {
        exponent(a)
    } else {
        exponent(b)
    }
}

/// The exact sum of two finite numbers, in units of `2^common_exponent(a, b)`.
pub open spec fn exact_sum(a: u32, b: u32) -> int {
    let e = common_exponent(a, b);
    signed_significand(a) * pow2((exponent(a) - e) as nat) + signed_significand(b) * pow2(
        (exponent(b) - e) as nat,
    )
}

/// `a + b`: the exact sum of the two numbers, rounded.
///
/// Not a number if an operand is, or for infinities of opposite sign. An exact
/// zero is negative only if both operands are.
pub open spec fn sum(a: u32, b: u32) -> u32 {
    if is_nan(a) || is_nan(b) {
        QUIET_NAN
    } else if is_infinite(a) {
        if is_infinite(b) && is_negative(a) != is_negative(b) {
            QUIET_NAN
        } else {
            a
        }
    } else if is_infinite(b) {
        b
    } else {
        let total = exact_sum(a, b);
        if total == 0 {
            if is_negative(a) && is_negative(b) {
                SIGN_BIT
            } else {
                0
            }
        } else if total < 0 {
            with_sign(true, round_magnitude((-total) as nat, common_exponent(a, b)))
        } else {
            with_sign(false, round_magnitude(total as nat, common_exponent(a, b)))
        }
    }
}

/// `a - b`, which is `a + (-b)`.
pub open spec fn difference(a: u32, b: u32) -> u32 {
    sum(a, negated(b))
}

/// `a / b`: the exact quotient of the two numbers, rounded.
///
/// Not a number if an operand is, for zero by zero and for infinity by
/// infinity. A number other than zero divided by zero is infinite.
pub open spec fn quotient(a: u32, b: u32) -> u32 {
    let negative = is_negative(a) != is_negative(b);
    if is_nan(a) || is_nan(b) {
        QUIET_NAN
    } else if is_infinite(a) {
        if is_infinite(b) {
            QUIET_NAN
        } else {
            with_sign(negative, INFINITY_BITS)
        }
    } else if is_infinite(b) {
        with_sign(negative, 0)
    } else if is_zero(b) {
        if is_zero(a) {
            QUIET_NAN
        } else {
            with_sign(negative, INFINITY_BITS)
        }
    } else {
        with_sign(
            negative,
            round_ratio(significand(a), significand(b), exponent(a) - exponent(b)),
        )
    }
}

/// Exponent of the unit in the last place of the square root of `m * 2^e`:
/// the root of a binary32 number always has 24 significant digits.
pub open spec fn root_quantum(m: nat, e: int) -> int {
    (e + bit_len(m) - 47) / 2
}

/// The square root of `a`: the exact root, rounded.
///
/// Not a number if `a` is, or if `a` is below zero. The root of a zero is
/// that zero, sign included.
pub open spec fn root(a: u32) -> u32 {
    if is_nan(a) {
        QUIET_NAN
    } else if is_zero(a) {
        a
    } else if is_negative(a) {
        QUIET_NAN
    } else if is_infinite(a) {
        a
    } else {
        let q = root_quantum(significand(a), exponent(a));
        let n = significand(a) * pow2((exponent(a) - 2 * q) as nat);
        ((q + 149) * 0x80_0000 + nearest_sqrt(n)) as u32
    }
}

/// A number that binary32 holds is not changed by rounding.
pub proof fn lemma_round_of_encoded(b: u32)
    requires
        is_finite(b),
    ensures
        round_magnitude(significand(b), exponent(b)) == magnitude(b),
{
    lemma2_to64();
    let m = significand(b);
    let e = exponent(b);
    if m > 0 {
        if magnitude(b) < HIDDEN_BIT {
            lemma_bit_len_at_most(m, 23);
        } else {
            lemma_bit_len_unique(m, 24);
        }
        assert(quantum(m, e) == e);
        assert(m * pow2(0) == m);
    }
}

/// Scaled to the quantum of its root, a significand has 47 or 48 digits.
proof fn lemma_root_scaling(m: nat, e: int)
    requires
        0 < m < 0x100_0000,
    ensures
        0 <= e - 2 * root_quantum(m, e) <= 47,
        0x4000_0000_0000 <= m * pow2((e - 2 * root_quantum(m, e)) as nat) < 0x1_0000_0000_0000,
{
    lemma2_to64();
    lemma2_to64_rest();
    let k = bit_len(m);
    lemma_bit_len_bounds(m);
    lemma_bit_len_at_most(m, 24);
    let up = (e - 2 * root_quantum(m, e)) as nat;
    assert(k + up == 47 || k + up == 48);
    lemma_pow2_adds(k, up);
    lemma_pow2_adds((k - 1) as nat, up);
    lemma_pow2_pos(up);
    if k + up < 48 {
        lemma_pow2_strictly_increases(k + up, 48);
    }
    if k + up > 47 {
        lemma_pow2_strictly_increases(46, (k + up - 1) as nat);
    }
    assert(m * pow2(up) < pow2(k) * pow2(up)) by (nonlinear_arith)
        requires
            m < pow2(k),
            pow2(up) > 0,
    ;
    assert(m * pow2(up) >= pow2((k - 1) as nat) * pow2(up)) by (nonlinear_arith)
        requires
            m >= pow2((k - 1) as nat),
            pow2(up) > 0,
    ;
}

/// The root of a finite number above zero is a finite number above zero.
pub proof fn lemma_root_of_positive(a: u32)
    requires
        is_finite(a),
        !is_zero(a),
        !is_negative(a),
    ensures
        is_finite(root(a)),
        !is_zero(root(a)),
        !is_negative(root(a)),
{
    let m = significand(a);
    let e = exponent(a);
    lemma_root_scaling(m, e);
    lemma_nearest_sqrt_bounds(m * pow2((e - 2 * root_quantum(m, e)) as nat));
}

/// The root of a number that is not below zero is a number, and not below zero.
pub proof fn lemma_root_not_negative(a: u32)
    requires
        !is_nan(a),
        !is_negative(a),
    ensures
        !is_nan(root(a)),
        !is_negative(root(a)),
{
    if is_finite(a) && !is_zero(a) {
        lemma_root_of_positive(a);
    }
}

/// Addition does not depend on the order of its operands.
pub proof fn lemma_sum_commutes(a: u32, b: u32)
    ensures
        sum(a, b) == sum(b, a),
{
}

/// Multiplication does not depend on the order of its operands.
pub proof fn lemma_product_commutes(a: u32, b: u32)
    ensures
        product(a, b) == product(b, a),
{
    assert(significand(a) * significand(b) == significand(b) * significand(a))
        by (nonlinear_arith);
}

/// When one operand lies at least 26 binary places above the other, the sum
/// or difference rounds back to the larger one.
proof fn lemma_round_far(mhi: nat, mlo: nat, d: nat, ehi: int, subtract: bool)
    requires
        0x80_0000 <= mhi < 0x100_0000,
        mlo < 0x100_0000,
        d >= 26,
        ehi - d >= -149,
        ehi <= 104,
    ensures
        mhi * pow2(d) > mlo,
        !subtract ==> round_magnitude(mhi * pow2(d) + mlo, ehi - d) == (ehi + 149) * 0x80_0000
            + mhi,
        subtract ==> round_magnitude((mhi * pow2(d) - mlo) as nat, ehi - d) == (ehi + 149)
            * 0x80_0000 + mhi,
{
    lemma2_to64();
    let big = pow2(d);
    let half = pow2((d - 1) as nat);
    lemma_pow2_unfold(d);
    if d > 26 {
        lemma_pow2_strictly_increases(26, d);
    }
    assert(big >= 0x400_0000);
    assert(mhi * big >= 0x80_0000 * big) by (nonlinear_arith)
        requires
            mhi >= 0x80_0000,
            big > 0,
    ;
    assert(mhi * big <= 0xff_ffff * big) by (nonlinear_arith)
        requires
            mhi <= 0xff_ffff,
            big > 0,
    ;
    lemma_pow2_adds(23, d);
    lemma_pow2_adds(24, d);
    lemma_pow2_adds(22, d);
    let m: nat = if subtract {
        (mhi * big - mlo) as nat
    } else {
        mhi * big + mlo
    };
    let e = ehi - d;
    if m >= pow2(23 + d) {
        lemma_bit_len_unique(m, 24 + d);
        assert(quantum(m, e) == ehi);
        lemma_nearest_even_within_half(m, big, mhi);
        assert(rounded_units(m, e) == mhi);
    } else {
        if mhi > 0x80_0000 {
            assert(mhi * big >= 0x80_0001 * big) by (nonlinear_arith)
                requires
                    mhi >= 0x80_0001,
                    big > 0,
            ;
        }
        assert(subtract && mhi == 0x80_0000);
        lemma_bit_len_unique(m, 23 + d);
        assert(quantum(m, e) == ehi - 1);
        assert(0x100_0000 * half == mhi * big) by (nonlinear_arith)
            requires
                big == 2 * half,
                mhi == 0x80_0000,
        ;
        lemma_nearest_even_within_half(m, half, 0x100_0000);
        assert(rounded_units(m, e) == 0x100_0000);
    }
}

/// A finite number absorbs another that lies at least 26 binary places below it.
proof fn lemma_sum_far(a: u32, b: u32)
    requires
        is_finite(a),
        is_finite(b),
        exponent(a) - exponent(b) >= 26,
    ensures
        sum(a, b) == a,
{
    lemma2_to64();
    let ma = significand(a);
    let mb = significand(b);
    let ea = exponent(a);
    let d = (ea - exponent(b)) as nat;
    let big = pow2(d);
    lemma_round_far(ma, mb, d, ea, is_negative(a) != is_negative(b));
    assert(-(ma as int) * big == -(ma * big)) by (nonlinear_arith);
    assert(exact_sum(a, b) == signed_significand(a) * big + signed_significand(b) * 1);
    assert((ea + 149) * 0x80_0000 + ma == magnitude(a));
}

/// Adds two finite numbers, the first with the larger exponent.
fn add_aligned(a: u32, b: u32) -> (r: u32)
    requires
        is_finite(a),
        is_finite(b),
        exponent(a) >= exponent(b),
    ensures
        r == sum(a, b),
{
    let (ma, ea) = decode(a);
    let (mb, eb) = decode(b);
    let na: bool = a >= SIGN_BIT;
    let nb: bool = b >= SIGN_BIT;
    let d: u64 = (ea - eb) as u64;
    assert(common_exponent(a, b) == eb);
    proof {
        lemma2_to64();
    }
    if d > 25 {
        proof {
            lemma_sum_far(a, b);
        }
        return a;
    }
    proof {
        lemma_pow2_adds(24, d as nat);
        if d < 25 {
            lemma_pow2_strictly_increases(d as nat, 25);
        }
        lemma_pow2_pos(d as nat);
        assert(ma * pow2(d as nat) <= 0x100_0000 * 0x200_0000) by (nonlinear_arith)
            requires
                ma <= 0x100_0000,
                0 < pow2(d as nat) <= 0x200_0000,
        ;
        lemma_u64_shl_is_mul(ma as u64, d);
        let big = pow2(d as nat);
        assert(-(ma as int) * big == -(ma * big)) by (nonlinear_arith);
    }
    let wide: u64 = (ma as u64) << d;
    let small: u64 = mb as u64;
    if na == nb {
        if wide + small == 0 {
            apply_sign(na, 0)
        } else {
            apply_sign(na, round_pack(wide + small, eb))
        }
    } else if wide > small {
        apply_sign(na, round_pack(wide - small, eb))
    } else if wide < small {
        apply_sign(nb, round_pack(small - wide, eb))
    } else {
        0
    }
}

impl Single {
    /// The product, correctly rounded.
    pub fn fmul(self, rhs: Single) -> (r: Single)
        ensures
            r.bits == product(self.bits, rhs.bits),
    {
        let a: u32 = self.bits;
        let b: u32 = rhs.bits;
        let mag_a: u32 = a % SIGN_BIT;
        let mag_b: u32 = b % SIGN_BIT;
        let negative: bool = (a >= SIGN_BIT) != (b >= SIGN_BIT);
        if mag_a > INFINITY_BITS || mag_b > INFINITY_BITS {
            return Single { bits: QUIET_NAN };
        }
        if mag_a == INFINITY_BITS || mag_b == INFINITY_BITS {
            if mag_a == 0 || mag_b == 0 {
                return Single { bits: QUIET_NAN };
            }
            return Single { bits: apply_sign(negative, INFINITY_BITS) };
        }
        let (ma, ea) = decode(a);
        let (mb, eb) = decode(b);
        assert(ma * mb <= 0x100_0000 * 0x100_0000) by (nonlinear_arith)
            requires
                ma <= 0x100_0000,
                mb <= 0x100_0000,
        ;
        let m: u64 = ma as u64 * mb as u64;
        Single { bits: apply_sign(negative, round_pack(m, ea + eb)) }
    }

    /// The sum, correctly rounded.
    pub fn fadd(self, rhs: Single) -> (r: Single)
        ensures
            r.bits == sum(self.bits, rhs.bits),
    {
        let a: u32 = self.bits;
        let b: u32 = rhs.bits;
        let mag_a: u32 = a % SIGN_BIT;
        let mag_b: u32 = b % SIGN_BIT;
        if mag_a > INFINITY_BITS || mag_b > INFINITY_BITS {
            return Single { bits: QUIET_NAN };
        }
        if mag_a == INFINITY_BITS {
            if mag_b == INFINITY_BITS && (a >= SIGN_BIT) != (b >= SIGN_BIT) {
                return Single { bits: QUIET_NAN };
            }
            return self;
        }
        if mag_b == INFINITY_BITS {
            return rhs;
        }
        if mag_a >= mag_b {
            Single { bits: add_aligned(a, b) }
        } else {
            proof {
                lemma_sum_commutes(a, b);
            }
            Single { bits: add_aligned(b, a) }
        }
    }

    /// The difference, correctly rounded.
    pub fn fsub(self, rhs: Single) -> (r: Single)
        ensures
            r.bits == difference(self.bits, rhs.bits),
    {
        self.fadd(rhs.neg())
    }

    /// The quotient, correctly rounded.
    pub fn fdiv(self, rhs: Single) -> (r: Single)
        ensures
            r.bits == quotient(self.bits, rhs.bits),
    {
        let a: u32 = self.bits;
        let b: u32 = rhs.bits;
        let mag_a: u32 = a % SIGN_BIT;
        let mag_b: u32 = b % SIGN_BIT;
        let negative: bool = (a >= SIGN_BIT) != (b >= SIGN_BIT);
        if mag_a > INFINITY_BITS || mag_b > INFINITY_BITS {
            return Single { bits: QUIET_NAN };
        }
        if mag_a == INFINITY_BITS {
            if mag_b == INFINITY_BITS {
                return Single { bits: QUIET_NAN };
            }
            return Single { bits: apply_sign(negative, INFINITY_BITS) };
        }
        if mag_b == INFINITY_BITS {
            return Single { bits: apply_sign(negative, 0) };
        }
        if mag_b == 0 {
            if mag_a == 0 {
                return Single { bits: QUIET_NAN };
            }
            return Single { bits: apply_sign(negative, INFINITY_BITS) };
        }
        let (ma, ea) = decode(a);
        let (mb, eb) = decode(b);
        Single { bits: apply_sign(negative, round_ratio_pack(ma, mb, ea - eb)) }
    }

    /// The square root, correctly rounded.
    pub fn fsqrt(self) -> (r: Single)
        ensures
            r.bits == root(self.bits),
    {
        let a: u32 = self.bits;
        let mag: u32 = a % SIGN_BIT;
        if mag > INFINITY_BITS {
            return Single { bits: QUIET_NAN };
        }
        if mag == 0 {
            return self;
        }
        if a >= SIGN_BIT {
            return Single { bits: QUIET_NAN };
        }
        if mag == INFINITY_BITS {
            return self;
        }
        let (m, e) = decode(a);
        let k: i32 = bit_length(m as u64) as i32;
        proof {
            lemma2_to64();
            lemma_bit_len_at_most(m as nat, 24);
        }
        let q: i32 = (e + k + 353) / 2 - 200;
        let up: u64 = (e - 2 * q) as u64;
        proof {
            lemma_root_scaling(m as nat, e as int);
            lemma_u64_shl_is_mul(m as u64, up);
        }
        let n: u64 = (m as u64) << up;
        let t: u64 = nearest_square_root(n);
        let packed: u64 = (q + 149) as u64 * 0x80_0000 + t;
        Single { bits: packed as u32 }
    }
}

} // verus!
