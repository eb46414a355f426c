//! Vectors of two and three binary32 components.
//!
//! A vector is modelled by the tuple of its components' encodings. Every
//! operation evaluates its formula from left to right and rounds after each
//! step; no NaN or infinity is caught on the way.
use vstd::prelude::*;
use crate::format::Single;
use crate::arith::{product, sum, difference, quotient, root};

verus! {

/// `a.x * b.x + a.y * b.y`.
pub open spec fn dot2(a: (u32, u32), b: (u32, u32)) -> u32 {
    sum(product(a.0, b.0), product(a.1, b.1))
}

/// `a.x * b.y - a.y * b.x`: the third component of the cross product of the
/// two vectors laid in the plane `z == 0`.
pub open spec fn cross2(a: (u32, u32), b: (u32, u32)) -> u32 {
    difference(product(a.0, b.1), product(a.1, b.0))
}

/// `a.x * b.x + a.y * b.y + a.z * b.z`.
pub open spec fn dot3(a: (u32, u32, u32), b: (u32, u32, u32)) -> u32 {
    sum(sum(product(a.0, b.0), product(a.1, b.1)), product(a.2, b.2))
}

/// The cross product of two vectors in space.
pub open spec fn cross3(a: (u32, u32, u32), b: (u32, u32, u32)) -> (u32, u32, u32) {
    (
        difference(product(a.1, b.2), product(a.2, b.1)),
        difference(product(a.2, b.0), product(a.0, b.2)),
        difference(product(a.0, b.1), product(a.1, b.0)),
    )
}

/// The Euclidean length, the square root of `dot3(a, a)`.
pub open spec fn length3(a: (u32, u32, u32)) -> u32 {
    root(dot3(a, a))
}

/// The cosine of the angle between two vectors:
/// `dot3(a, b) / (length3(a) * length3(b))`, neither guarded nor clamped.
pub open spec fn cosine3(a: (u32, u32, u32), b: (u32, u32, u32)) -> u32 {
    quotient(dot3(a, b), product(length3(a), length3(b)))
}

/// A vector in the plane.
#[derive(Clone, Copy, Debug)]
pub struct Vec2 {
    x: Single,
    y: Single,
}

/// A vector in space.
#[derive(Clone, Copy, Debug)]
pub struct Vec3 {
    x: Single,
    y: Single,
    z: Single,
}

impl View for Vec2 {
    type V = (u32, u32);

    closed spec fn view(&self) -> (u32, u32) {
        (self.x.bits, self.y.bits)
    }
}

impl View for Vec3 {
    type V = (u32, u32, u32);

    closed spec fn view(&self) -> (u32, u32, u32) {
        (self.x.bits, self.y.bits, self.z.bits)
    }
}

impl Vec2 {
    /// The vector with the given components, whatever they are.
    pub fn new(x: Single, y: Single) -> (v: Vec2)
        ensures
            v@ == (x.bits, y.bits),
    {
        Vec2 { x, y }
    }

    /// The first component.
    pub fn x(self) -> (c: Single)
        ensures
            c.bits == self@.0,
    {
        self.x
    }

    /// The second component.
    pub fn y(self) -> (c: Single)
        ensures
            c.bits == self@.1,
    {
        self.y
    }

    /// The dot product.
    pub fn dot(self, rhs: Vec2) -> (r: Single)
        ensures
            r.bits == dot2(self@, rhs@),
    {
        self.x.fmul(rhs.x).fadd(self.y.fmul(rhs.y))
    }

    /// The cross product of two vectors in the plane, a scalar.
    pub fn cross(self, rhs: Vec2) -> (r: Single)
        ensures
            r.bits == cross2(self@, rhs@),
    {
        self.x.fmul(rhs.y).fsub(self.y.fmul(rhs.x))
    }
}

impl Vec3 {
    /// The vector with the given components, whatever they are.
    pub fn new(x: Single, y: Single, z: Single) -> (v: Vec3)
        ensures
            v@ == (x.bits, y.bits, z.bits),
    {
        Vec3 { x, y, z }
    }

    /// The first component.
    pub fn x(self) -> (c: Single)
        ensures
            c.bits == self@.0,
    {
        self.x
    }

    /// The second component.
    pub fn y(self) -> (c: Single)
        ensures
            c.bits == self@.1,
    {
        self.y
    }

    /// The third component.
    pub fn z(self) -> (c: Single)
        ensures
            c.bits == self@.2,
    {
        self.z
    }

    /// The dot product.
    pub fn dot(self, rhs: Vec3) -> (r: Single)
        ensures
            r.bits == dot3(self@, rhs@),
    {
        self.x.fmul(rhs.x).fadd(self.y.fmul(rhs.y)).fadd(self.z.fmul(rhs.z))
    }

    /// The cross product.
    pub fn cross(self, rhs: Vec3) -> (v: Vec3)
        ensures
            v@ == cross3(self@, rhs@),
    {
        Vec3 {
            x: self.y.fmul(rhs.z).fsub(self.z.fmul(rhs.y)),
            y: self.z.fmul(rhs.x).fsub(self.x.fmul(rhs.z)),
            z: self.x.fmul(rhs.y).fsub(self.y.fmul(rhs.x)),
        }
    }

    /// The Euclidean length.
    pub fn mag(self) -> (r: Single)
        ensures
            r.bits == length3(self@),
            r.bits == root(dot3(self@, self@)),
    {
        self.dot(self).fsqrt()
    }

    /// The cosine of the angle to `rhs`, whose arc cosine is the angle.
    ///
    /// For a vector of length zero this is not a number, and rounding may
    /// carry it just beyond one for vectors that are all but parallel.
    pub fn cos_angle(self, rhs: Vec3) -> (r: Single)
        ensures
            r.bits == cosine3(self@, rhs@),
    {
        let dot = self.dot(rhs);
        let mag = self.mag().fmul(rhs.mag());
        dot.fdiv(mag)
    }
}

} // verus!
