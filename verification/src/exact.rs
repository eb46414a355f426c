//! Operations whose result needs no rounding.
//!
//! Where the operands are small multiples of a power of two, products and
//! sums are computed exactly, and what holds of the integers holds of the
//! encodings.
use vstd::prelude::*;
use vstd::arithmetic::power2::*;
use crate::rounding::{
    round_magnitude, quantum, rounded_units, bit_len, lemma_bit_len_bounds, lemma_bit_len_at_most,
    lemma_round_units_bound, lemma_round_scaled, INFINITY_BITS,
};
use crate::format::{
    is_negative, magnitude, is_finite, is_zero, significand, exponent, signed_significand,
    with_sign, negated, lemma_negated, lemma_with_sign,
};
use crate::arith::{product, sum, difference, exact_sum, common_exponent};

verus! {

/// The finite number `b` is `n * 2^s`, and `2^s` is no finer than its unit
/// in the last place.
pub open spec fn encodes(b: u32, n: int, s: int) -> bool {
    is_finite(b) && exponent(b) <= s && signed_significand(b) == n * pow2(
        (s - exponent(b)) as nat,
    )
}

/// An integer below `2^24` on a unit that binary32 offers is held exactly.
pub proof fn lemma_round_small(n: nat, s: int)
    requires
        n < 0x100_0000,
        -149 <= s <= 104,
    ensures
        round_magnitude(n, s) < INFINITY_BITS,
        exponent(round_magnitude(n, s)) <= s,
        significand(round_magnitude(n, s)) == n * pow2(
            (s - exponent(round_magnitude(n, s))) as nat,
        ),
{
    lemma2_to64();
    if n == 0 {
        assert(n * pow2((s + 149) as nat) == 0) by (nonlinear_arith)
            requires
                n == 0,
        ;
    } else {
        lemma_bit_len_bounds(n);
        lemma_bit_len_at_most(n, 24);
        let k = bit_len(n);
        let q = quantum(n, s);
        let up = (s - q) as nat;
        let t = n * pow2(up);
        assert(rounded_units(n, s) == t);
        lemma_pow2_adds(k, up);
        lemma_pow2_pos(up);
        if k + up < 24 {
            lemma_pow2_strictly_increases(k + up, 24);
        }
        assert(t < pow2(k) * pow2(up)) by (nonlinear_arith)
            requires
                t == n * pow2(up),
                n < pow2(k),
                pow2(up) > 0,
        ;
        lemma_round_units_bound(n, s);
        let packed = (q + 149) * 0x80_0000 + t;
        assert(packed < 0x7f80_0000);
        let r = round_magnitude(n, s);
        assert(r == packed);
        assert(magnitude(r) == packed);
        assert(exponent(r) == q);
        assert(significand(r) == t);
    }
}

/// What `encodes` says of the significand, without its sign.
pub proof fn lemma_encodes_magnitude(b: u32, n: int, s: int)
    requires
        encodes(b, n, s),
    ensures
        n >= 0 ==> significand(b) == n * pow2((s - exponent(b)) as nat),
        n <= 0 ==> significand(b) == (-n) * pow2((s - exponent(b)) as nat),
        n > 0 ==> !is_negative(b),
        n < 0 ==> is_negative(b),
        n == 0 ==> is_zero(b),
{
    let w = pow2((s - exponent(b)) as nat);
    lemma_pow2_pos((s - exponent(b)) as nat);
    let m = significand(b);
    assert((-n) * w == -(n * w)) by (nonlinear_arith);
    if n > 0 {
        assert(n * w > 0) by (nonlinear_arith)
            requires
                n > 0,
                w > 0,
        ;
    } else if n < 0 {
        assert(n * w < 0) by (nonlinear_arith)
            requires
                n < 0,
                w > 0,
        ;
    } else {
        assert(n * w == 0) by (nonlinear_arith)
            requires
                n == 0,
        ;
    }
}

/// A number other than zero has one encoding.
pub proof fn lemma_encodes_unique(a: u32, b: u32, n: int, s: int)
    requires
        encodes(a, n, s),
        encodes(b, n, s),
        n != 0,
    ensures
        a == b,
{
    lemma_encodes_magnitude(a, n, s);
    lemma_encodes_magnitude(b, n, s);
    let ea = exponent(a);
    let eb = exponent(b);
    let m: nat = if n < 0 {
        (-n) as nat
    } else {
        n as nat
    };
    let wa = pow2((s - ea) as nat);
    let wb = pow2((s - eb) as nat);
    assert(significand(a) == m * wa);
    assert(significand(b) == m * wb);
    if ea < eb {
        let d = (eb - ea) as nat;
        lemma_pow2_adds((s - eb) as nat, d);
        lemma_pow2_unfold(d);
        lemma_pow2_pos((d - 1) as nat);
        assert(significand(a) >= 2 * significand(b)) by (nonlinear_arith)
            requires
                significand(a) == m * wa,
                significand(b) == m * wb,
                wa == wb * pow2(d),
                pow2(d) >= 2,
        ;
    } else if eb < ea {
        let d = (ea - eb) as nat;
        lemma_pow2_adds((s - ea) as nat, d);
        lemma_pow2_unfold(d);
        lemma_pow2_pos((d - 1) as nat);
        assert(significand(b) >= 2 * significand(a)) by (nonlinear_arith)
            requires
                significand(a) == m * wa,
                significand(b) == m * wb,
                wb == wa * pow2(d),
                pow2(d) >= 2,
        ;
    }
    assert(ea == eb);
    assert(magnitude(a) == magnitude(b));
}

/// A sign on the rounding of a small integer encodes the integer with that sign.
proof fn lemma_signed_round_small(negative: bool, n: nat, s: int)
    requires
        n < 0x100_0000,
        -149 <= s <= 104,
    ensures
        negative ==> encodes(with_sign(negative, round_magnitude(n, s)), -(n as int), s),
        !negative ==> encodes(with_sign(negative, round_magnitude(n, s)), n as int, s),
{
    let r = round_magnitude(n, s);
    lemma_round_small(n, s);
    lemma_with_sign(negative, r);
    let w = pow2((s - exponent(r)) as nat);
    assert((-(n as int)) * w == -(n * w)) by (nonlinear_arith);
    if n == 0 {
        assert(n * w == 0) by (nonlinear_arith)
            requires
                n == 0,
        ;
    }
}

/// The product of `x * 2^s` and `y * 2^t` is `(x * y) * 2^(s + t)` where
/// that is an integer below `2^24` on a unit that binary32 offers.
pub proof fn lemma_product_exact(a: u32, b: u32, x: int, y: int, s: int, t: int)
    requires
        encodes(a, x, s),
        encodes(b, y, t),
        -0x100_0000 < x * y < 0x100_0000,
        -149 <= s + t <= 104,
    ensures
        encodes(product(a, b), x * y, s + t),
{
    let ea = exponent(a);
    let eb = exponent(b);
    let ja = (s - ea) as nat;
    let jb = (t - eb) as nat;
    let wa = pow2(ja);
    let wb = pow2(jb);
    lemma_encodes_magnitude(a, x, s);
    lemma_encodes_magnitude(b, y, t);
    let ax: nat = if x < 0 {
        (-x) as nat
    } else {
        x as nat
    };
    let ay: nat = if y < 0 {
        (-y) as nat
    } else {
        y as nat
    };
    let n: nat = ax * ay;
    let negative = is_negative(a) != is_negative(b);
    assert(significand(a) == ax * wa);
    assert(significand(b) == ay * wb);
    assert(n == x * y || n == -(x * y)) by (nonlinear_arith)
        requires
            n == ax * ay,
            ax == x || ax == -x,
            ay == y || ay == -y,
    ;
    assert(x * y > 0 ==> (x > 0 && y > 0) || (x < 0 && y < 0)) by (nonlinear_arith);
    assert(x * y < 0 ==> (x > 0 && y < 0) || (x < 0 && y > 0)) by (nonlinear_arith);
    assert(x * y >= 0 ==> n == x * y);
    assert(x * y <= 0 ==> n == -(x * y));
    lemma_pow2_adds(ja, jb);
    assert(significand(a) * significand(b) == n * pow2(ja + jb)) by (nonlinear_arith)
        requires
            significand(a) == ax * wa,
            significand(b) == ay * wb,
            n == ax * ay,
            pow2(ja + jb) == wa * wb,
    ;
    lemma_round_scaled(n, ja + jb, ea + eb);
    assert(ea + eb + (ja + jb) == s + t);
    lemma_signed_round_small(negative, n, s + t);
    let r = round_magnitude(n, s + t);
    assert(product(a, b) == with_sign(negative, r));
    if x * y == 0 {
        lemma_signed_round_small(!negative, n, s + t);
    }
}

/// The sum of `x * 2^s` and `y * 2^s` is `(x + y) * 2^s` where that is an
/// integer below `2^24` on a unit that binary32 offers.
pub proof fn lemma_sum_exact(a: u32, b: u32, x: int, y: int, s: int)
    requires
        encodes(a, x, s),
        encodes(b, y, s),
        -0x100_0000 < x + y < 0x100_0000,
        -149 <= s <= 104,
    ensures
        encodes(sum(a, b), x + y, s),
{
    let ea = exponent(a);
    let eb = exponent(b);
    let c = common_exponent(a, b);
    let ja = (s - ea) as nat;
    let jb = (s - eb) as nat;
    let ka = (ea - c) as nat;
    let kb = (eb - c) as nat;
    let j = (s - c) as nat;
    lemma_pow2_adds(ja, ka);
    lemma_pow2_adds(jb, kb);
    assert(ja + ka == j && jb + kb == j);
    let total = exact_sum(a, b);
    assert(total == (x + y) * pow2(j)) by (nonlinear_arith)
        requires
            total == signed_significand(a) * pow2(ka) + signed_significand(b) * pow2(kb),
            signed_significand(a) == x * pow2(ja),
            signed_significand(b) == y * pow2(jb),
            pow2(j) == pow2(ja) * pow2(ka),
            pow2(j) == pow2(jb) * pow2(kb),
    ;
    lemma_pow2_pos(j);
    let w = pow2(j);
    if x + y == 0 {
        assert(total == 0) by (nonlinear_arith)
            requires
                total == (x + y) * w,
                x + y == 0,
        ;
        assert(is_zero(sum(a, b)));
        assert((x + y) * pow2((s + 149) as nat) == 0) by (nonlinear_arith)
            requires
                x + y == 0,
        ;
    } else if x + y < 0 {
        let n = (-(x + y)) as nat;
        assert(total < 0 && -total == n * w) by (nonlinear_arith)
            requires
                total == (x + y) * w,
                x + y < 0,
                w > 0,
                n == -(x + y),
        ;
        lemma_round_scaled(n, j, c);
        lemma_signed_round_small(true, n, s);
    } else {
        let n = (x + y) as nat;
        assert(total > 0 && total == n * w) by (nonlinear_arith)
            requires
                total == (x + y) * w,
                x + y > 0,
                w > 0,
                n == x + y,
        ;
        lemma_round_scaled(n, j, c);
        lemma_signed_round_small(false, n, s);
    }
}

/// The difference of `x * 2^s` and `y * 2^s` is `(x - y) * 2^s` where that
/// is an integer below `2^24` on a unit that binary32 offers.
pub proof fn lemma_difference_exact(a: u32, b: u32, x: int, y: int, s: int)
    requires
        encodes(a, x, s),
        encodes(b, y, s),
        -0x100_0000 < x - y < 0x100_0000,
        -149 <= s <= 104,
    ensures
        encodes(difference(a, b), x - y, s),
{
    lemma_negated(b);
    let w = pow2((s - exponent(b)) as nat);
    assert((-y) * w == -(y * w)) by (nonlinear_arith);
    assert(encodes(negated(b), -y, s));
    lemma_sum_exact(a, negated(b), x, -y, s);
}

} // verus!
