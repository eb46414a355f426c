//! What holds of the vector operations for every input.
use vstd::prelude::*;
use vstd::arithmetic::power2::*;
use crate::rounding::{round_magnitude};
use crate::format::{
    is_negative, is_nan, is_finite, is_zero, significand, exponent, signed_significand, with_sign,
    negated, same_number, lemma_negated, lemma_with_sign, QUIET_NAN,
};
use crate::arith::{
    product, sum, difference, exact_sum, common_exponent, lemma_product_commutes,
    lemma_root_not_negative, lemma_root_of_positive,
};
use crate::exact::{
    encodes, lemma_product_exact, lemma_sum_exact, lemma_difference_exact, lemma_encodes_magnitude,
};
use crate::vectors::{dot2, cross2, dot3, cross3, length3, cosine3};

verus! {

/// A square is never below zero, and is a number whenever its operand is.
pub proof fn lemma_square_not_negative(x: u32)
    requires
        !is_nan(x),
    ensures
        !is_nan(product(x, x)),
        !is_negative(product(x, x)),
{
}

/// The sum of two numbers that are not below zero is a number, and not below zero.
pub proof fn lemma_sum_not_negative(p: u32, q: u32)
    requires
        !is_nan(p),
        !is_nan(q),
        !is_negative(p),
        !is_negative(q),
    ensures
        !is_nan(sum(p, q)),
        !is_negative(sum(p, q)),
{
    if is_finite(p) && is_finite(q) {
        let e = common_exponent(p, q);
        let wp = pow2((exponent(p) - e) as nat);
        let wq = pow2((exponent(q) - e) as nat);
        assert(significand(p) * wp >= 0) by (nonlinear_arith);
        assert(significand(q) * wq >= 0) by (nonlinear_arith);
    }
}

proof fn lemma_difference_antisymmetric_finite(p: u32, q: u32)
    requires
        is_finite(p),
        is_finite(q),
    ensures
        !is_nan(difference(p, q)),
        !is_nan(difference(q, p)),
        same_number(difference(p, q), negated(difference(q, p))),
{
    let np = negated(p);
    let nq = negated(q);
    lemma_negated(p);
    lemma_negated(q);
    let e = common_exponent(p, q);
    assert(common_exponent(p, nq) == e);
    assert(common_exponent(q, np) == e);
    let wp = pow2((exponent(p) - e) as nat);
    let wq = pow2((exponent(q) - e) as nat);
    let sp = signed_significand(p);
    let sq = signed_significand(q);
    assert((-sp) * wp == -(sp * wp)) by (nonlinear_arith);
    assert((-sq) * wq == -(sq * wq)) by (nonlinear_arith);
    let t = exact_sum(p, nq);
    assert(t == sp * wp + (-sq) * wq);
    assert(exact_sum(q, np) == sq * wq + (-sp) * wp);
    assert(exact_sum(q, np) == -t);
    assert(is_finite(nq) && is_finite(np));
    if t == 0 {
        assert(is_zero(sum(p, nq)));
        assert(is_zero(sum(q, np)));
        lemma_negated(sum(q, np));
    } else if t < 0 {
        let r = round_magnitude((-t) as nat, e);
        assert(sum(p, nq) == with_sign(true, r));
        assert(sum(q, np) == with_sign(false, r));
        lemma_with_sign(true, r);
        lemma_with_sign(false, r);
    } else {
        let r = round_magnitude(t as nat, e);
        assert(sum(p, nq) == with_sign(false, r));
        assert(sum(q, np) == with_sign(true, r));
        lemma_with_sign(true, r);
        lemma_with_sign(false, r);
    }
}

/// `a - b` and `b - a` are numbers together, and then one is the other negated.
pub proof fn lemma_difference_antisymmetric(p: u32, q: u32)
    ensures
        is_nan(difference(p, q)) == is_nan(difference(q, p)),
        !is_nan(difference(p, q)) ==> same_number(difference(p, q), negated(difference(q, p))),
{
    lemma_negated(p);
    lemma_negated(q);
    if is_finite(p) && is_finite(q) {
        lemma_difference_antisymmetric_finite(p, q);
    } else if is_nan(p) || is_nan(q) {
    } else {
        let d = difference(q, p);
        lemma_negated(d);
    }
}

/// `p - p` is zero for a finite `p`, and not a number otherwise.
pub proof fn lemma_difference_self(p: u32)
    ensures
        difference(p, p) == if is_finite(p) {
            0u32
        } else {
            QUIET_NAN
        },
{
    if is_finite(p) {
        let np = negated(p);
        let w = pow2(0);
        let s = signed_significand(p);
        assert(signed_significand(np) == -s);
        assert((-s) * w == -(s * w)) by (nonlinear_arith);
        assert(exact_sum(p, np) == s * w + (-s) * w);
    }
}

/// The dot product in the plane does not depend on the order of its operands.
pub proof fn dot2_commutes(a: (u32, u32), b: (u32, u32))
    ensures
        dot2(a, b) == dot2(b, a),
{
    lemma_product_commutes(a.0, b.0);
    lemma_product_commutes(a.1, b.1);
}

/// The dot product in space does not depend on the order of its operands.
pub proof fn dot3_commutes(a: (u32, u32, u32), b: (u32, u32, u32))
    ensures
        dot3(a, b) == dot3(b, a),
{
    lemma_product_commutes(a.0, b.0);
    lemma_product_commutes(a.1, b.1);
    lemma_product_commutes(a.2, b.2);
}

/// The dot product of a vector in the plane with itself is a number and is
/// not below zero, unless a component is not a number.
pub proof fn dot2_self_not_negative(a: (u32, u32))
    requires
        !is_nan(a.0),
        !is_nan(a.1),
    ensures
        !is_nan(dot2(a, a)),
        !is_negative(dot2(a, a)),
{
    lemma_square_not_negative(a.0);
    lemma_square_not_negative(a.1);
    lemma_sum_not_negative(product(a.0, a.0), product(a.1, a.1));
}

/// The dot product of a vector in space with itself is a number and is not
/// below zero, unless a component is not a number.
pub proof fn dot3_self_not_negative(a: (u32, u32, u32))
    requires
        !is_nan(a.0),
        !is_nan(a.1),
        !is_nan(a.2),
    ensures
        !is_nan(dot3(a, a)),
        !is_negative(dot3(a, a)),
{
    lemma_square_not_negative(a.0);
    lemma_square_not_negative(a.1);
    lemma_square_not_negative(a.2);
    lemma_sum_not_negative(product(a.0, a.0), product(a.1, a.1));
    lemma_sum_not_negative(sum(product(a.0, a.0), product(a.1, a.1)), product(a.2, a.2));
}

/// The length of a vector is a number and is not below zero, unless a
/// component is not a number.
pub proof fn length3_not_negative(a: (u32, u32, u32))
    requires
        !is_nan(a.0),
        !is_nan(a.1),
        !is_nan(a.2),
    ensures
        !is_nan(length3(a)),
        !is_negative(length3(a)),
{
    dot3_self_not_negative(a);
    lemma_root_not_negative(dot3(a, a));
}

/// The length of a vector is zero exactly where its dot product with itself
/// is: where every square of a component is too small to be told from zero.
pub proof fn length3_zero_iff(a: (u32, u32, u32))
    requires
        !is_nan(a.0),
        !is_nan(a.1),
        !is_nan(a.2),
    ensures
        is_zero(length3(a)) <==> is_zero(dot3(a, a)),
{
    dot3_self_not_negative(a);
    let d = dot3(a, a);
    if is_finite(d) && !is_zero(d) {
        lemma_root_of_positive(d);
    }
}

/// Swapping the operands of the cross product in the plane negates it:
/// both results are numbers or neither is, and as numbers one is the
/// negation of the other.
pub proof fn cross2_antisymmetric(a: (u32, u32), b: (u32, u32))
    ensures
        is_nan(cross2(a, b)) == is_nan(cross2(b, a)),
        !is_nan(cross2(a, b)) ==> same_number(cross2(a, b), negated(cross2(b, a))),
{
    lemma_product_commutes(a.0, b.1);
    lemma_product_commutes(a.1, b.0);
    lemma_difference_antisymmetric(product(a.0, b.1), product(a.1, b.0));
}

/// Swapping the operands of the cross product in space negates each
/// component: the two are numbers or neither is, and as numbers one is the
/// negation of the other.
pub proof fn cross3_antisymmetric(a: (u32, u32, u32), b: (u32, u32, u32))
    ensures
        is_nan(cross3(a, b).0) == is_nan(cross3(b, a).0),
        is_nan(cross3(a, b).1) == is_nan(cross3(b, a).1),
        is_nan(cross3(a, b).2) == is_nan(cross3(b, a).2),
        !is_nan(cross3(a, b).0) ==> same_number(cross3(a, b).0, negated(cross3(b, a).0)),
        !is_nan(cross3(a, b).1) ==> same_number(cross3(a, b).1, negated(cross3(b, a).1)),
        !is_nan(cross3(a, b).2) ==> same_number(cross3(a, b).2, negated(cross3(b, a).2)),
{
    lemma_product_commutes(a.1, b.2);
    lemma_product_commutes(a.2, b.1);
    lemma_product_commutes(a.2, b.0);
    lemma_product_commutes(a.0, b.2);
    lemma_product_commutes(a.0, b.1);
    lemma_product_commutes(a.1, b.0);
    lemma_difference_antisymmetric(product(a.1, b.2), product(a.2, b.1));
    lemma_difference_antisymmetric(product(a.2, b.0), product(a.0, b.2));
    lemma_difference_antisymmetric(product(a.0, b.1), product(a.1, b.0));
}

/// The cross product of a vector in the plane with itself is zero; it is
/// not a number where the product of the two components is not finite.
pub proof fn cross2_self_is_zero(a: (u32, u32))
    ensures
        cross2(a, a) == if is_finite(product(a.0, a.1)) {
            0u32
        } else {
            QUIET_NAN
        },
{
    lemma_product_commutes(a.0, a.1);
    lemma_difference_self(product(a.0, a.1));
}

/// The cross product of a vector in space with itself is the zero vector; a
/// component is not a number where the product of the two components it is
/// made of is not finite.
pub proof fn cross3_self_is_zero(a: (u32, u32, u32))
    ensures
        cross3(a, a).0 == if is_finite(product(a.1, a.2)) {
            0u32
        } else {
            QUIET_NAN
        },
        cross3(a, a).1 == if is_finite(product(a.2, a.0)) {
            0u32
        } else {
            QUIET_NAN
        },
        cross3(a, a).2 == if is_finite(product(a.0, a.1)) {
            0u32
        } else {
            QUIET_NAN
        },
{
    lemma_product_commutes(a.1, a.2);
    lemma_product_commutes(a.2, a.0);
    lemma_product_commutes(a.0, a.1);
    lemma_difference_self(product(a.1, a.2));
    lemma_difference_self(product(a.2, a.0));
    lemma_difference_self(product(a.0, a.1));
}

/// The product of two integers is bounded by the product of their bounds.
proof fn lemma_product_bound(u: int, v: int, bu: int, bv: int)
    by (nonlinear_arith)
    requires
        -bu <= u <= bu,
        -bv <= v <= bv,
    ensures
        -(bu * bv) <= u * v <= bu * bv,
{
}

/// One component of the cross product of vectors with small components on
/// the units `2^s` and `2^t` is computed exactly.
proof fn lemma_cross_component_exact(
    a1: u32,
    a2: u32,
    b1: u32,
    b2: u32,
    x1: int,
    x2: int,
    y1: int,
    y2: int,
    s: int,
    t: int,
)
    requires
        encodes(a1, x1, s),
        encodes(a2, x2, s),
        encodes(b1, y1, t),
        encodes(b2, y2, t),
        -128 <= x1 <= 128,
        -128 <= x2 <= 128,
        -128 <= y1 <= 128,
        -128 <= y2 <= 128,
        -149 <= s + t <= 104,
    ensures
        encodes(difference(product(a1, b2), product(a2, b1)), x1 * y2 - x2 * y1, s + t),
        -32768 <= x1 * y2 - x2 * y1 <= 32768,
{
    lemma_product_bound(x1, y2, 128, 128);
    lemma_product_bound(x2, y1, 128, 128);
    lemma_product_exact(a1, b2, x1, y2, s, t);
    lemma_product_exact(a2, b1, x2, y1, s, t);
    lemma_difference_exact(product(a1, b2), product(a2, b1), x1 * y2, x2 * y1, s + t);
}

/// The dot product of a vector with components up to `2^15` on the unit
/// `2^u` and one with components up to `2^7` on the unit `2^s` is computed
/// exactly.
proof fn lemma_dot3_exact(
    c: (u32, u32, u32),
    a: (u32, u32, u32),
    z: (int, int, int),
    x: (int, int, int),
    u: int,
    s: int,
)
    requires
        encodes(c.0, z.0, u),
        encodes(c.1, z.1, u),
        encodes(c.2, z.2, u),
        encodes(a.0, x.0, s),
        encodes(a.1, x.1, s),
        encodes(a.2, x.2, s),
        -32768 <= z.0 <= 32768,
        -32768 <= z.1 <= 32768,
        -32768 <= z.2 <= 32768,
        -128 <= x.0 <= 128,
        -128 <= x.1 <= 128,
        -128 <= x.2 <= 128,
        -149 <= u + s <= 104,
    ensures
        encodes(dot3(c, a), z.0 * x.0 + z.1 * x.1 + z.2 * x.2, u + s),
{
    lemma_product_bound(z.0, x.0, 32768, 128);
    lemma_product_bound(z.1, x.1, 32768, 128);
    lemma_product_bound(z.2, x.2, 32768, 128);
    lemma_product_exact(c.0, a.0, z.0, x.0, u, s);
    lemma_product_exact(c.1, a.1, z.1, x.1, u, s);
    lemma_product_exact(c.2, a.2, z.2, x.2, u, s);
    lemma_sum_exact(product(c.0, a.0), product(c.1, a.1), z.0 * x.0, z.1 * x.1, u + s);
    lemma_sum_exact(
        sum(product(c.0, a.0), product(c.1, a.1)),
        product(c.2, a.2),
        z.0 * x.0 + z.1 * x.1,
        z.2 * x.2,
        u + s,
    );
}

/// The cross product is orthogonal to both operands, exactly, where no step
/// needs rounding: for `a` with components `x * 2^s` and `b` with components
/// `y * 2^t`, the `x` and `y` integers of at most eight bits.
pub proof fn cross3_orthogonal_when_exact(
    a: (u32, u32, u32),
    b: (u32, u32, u32),
    x: (int, int, int),
    y: (int, int, int),
    s: int,
    t: int,
)
    requires
        encodes(a.0, x.0, s),
        encodes(a.1, x.1, s),
        encodes(a.2, x.2, s),
        encodes(b.0, y.0, t),
        encodes(b.1, y.1, t),
        encodes(b.2, y.2, t),
        -128 <= x.0 <= 128,
        -128 <= x.1 <= 128,
        -128 <= x.2 <= 128,
        -128 <= y.0 <= 128,
        -128 <= y.1 <= 128,
        -128 <= y.2 <= 128,
        -40 <= s <= 30,
        -40 <= t <= 30,
    ensures
        is_zero(dot3(cross3(a, b), a)),
        is_zero(dot3(cross3(a, b), b)),
{
    let c = cross3(a, b);
    let z = (x.1 * y.2 - x.2 * y.1, x.2 * y.0 - x.0 * y.2, x.0 * y.1 - x.1 * y.0);
    lemma_cross_component_exact(a.1, a.2, b.1, b.2, x.1, x.2, y.1, y.2, s, t);
    lemma_cross_component_exact(a.2, a.0, b.2, b.0, x.2, x.0, y.2, y.0, s, t);
    lemma_cross_component_exact(a.0, a.1, b.0, b.1, x.0, x.1, y.0, y.1, s, t);
    lemma_dot3_exact(c, a, z, x, s + t, s);
    lemma_dot3_exact(c, b, z, y, s + t, t);
    assert(z.0 * x.0 + z.1 * x.1 + z.2 * x.2 == 0) by (nonlinear_arith)
        requires
            z.0 == x.1 * y.2 - x.2 * y.1,
            z.1 == x.2 * y.0 - x.0 * y.2,
            z.2 == x.0 * y.1 - x.1 * y.0,
    ;
    assert(z.0 * y.0 + z.1 * y.1 + z.2 * y.2 == 0) by (nonlinear_arith)
        requires
            z.0 == x.1 * y.2 - x.2 * y.1,
            z.1 == x.2 * y.0 - x.0 * y.2,
            z.2 == x.0 * y.1 - x.1 * y.0,
    ;
    lemma_encodes_magnitude(dot3(c, a), 0, s + t + s);
    lemma_encodes_magnitude(dot3(c, b), 0, s + t + t);
}

/// A product with a zero is a zero, or not a number.
pub proof fn lemma_product_with_zero(z: u32, x: u32)
    requires
        is_zero(z),
    ensures
        is_nan(product(z, x)) || is_zero(product(z, x)),
        is_nan(product(x, z)) || is_zero(product(x, z)),
{
    lemma_product_commutes(z, x);
    assert(significand(z) * significand(x) == 0) by (nonlinear_arith)
        requires
            significand(z) == 0,
    ;
}

/// A sum of two operands that are each a zero or not a number is such again.
pub proof fn lemma_sum_of_zeros(p: u32, q: u32)
    requires
        is_nan(p) || is_zero(p),
        is_nan(q) || is_zero(q),
    ensures
        is_nan(sum(p, q)) || is_zero(sum(p, q)),
{
    if is_zero(p) && is_zero(q) {
        let w = pow2(0);
        assert(0 * w == 0);
    }
}

/// The cosine of the angle to or from a vector whose components are all
/// zero is not a number, whatever the other vector.
pub proof fn cosine_of_zero_vector_is_nan(a: (u32, u32, u32), b: (u32, u32, u32))
    requires
        is_zero(a.0),
        is_zero(a.1),
        is_zero(a.2),
    ensures
        is_nan(cosine3(a, b)),
        is_nan(cosine3(b, a)),
{
    lemma_product_with_zero(a.0, b.0);
    lemma_product_with_zero(a.1, b.1);
    lemma_product_with_zero(a.2, b.2);
    lemma_sum_of_zeros(product(a.0, b.0), product(a.1, b.1));
    lemma_sum_of_zeros(sum(product(a.0, b.0), product(a.1, b.1)), product(a.2, b.2));
    lemma_sum_of_zeros(product(b.0, a.0), product(b.1, a.1));
    lemma_sum_of_zeros(sum(product(b.0, a.0), product(b.1, a.1)), product(b.2, a.2));
    lemma_product_with_zero(a.0, a.0);
    lemma_product_with_zero(a.1, a.1);
    lemma_product_with_zero(a.2, a.2);
    lemma_sum_of_zeros(product(a.0, a.0), product(a.1, a.1));
    lemma_sum_of_zeros(sum(product(a.0, a.0), product(a.1, a.1)), product(a.2, a.2));
    dot3_self_not_negative(a);
    assert(dot3(a, a) == 0);
    assert(length3(a) == 0);
    lemma_product_with_zero(length3(a), length3(b));
}

} // verus!
