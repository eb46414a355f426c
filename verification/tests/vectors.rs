use vecmath::format::Single;
use vecmath::vectors::{Vec2, Vec3};

fn s(x: f32) -> Single {
    Single::from_bits(x.to_bits())
}

fn f(x: Single) -> f32 {
    f32::from_bits(x.to_bits())
}

fn v2(x: f32, y: f32) -> Vec2 {
    Vec2::new(s(x), s(y))
}

fn v3(x: f32, y: f32, z: f32) -> Vec3 {
    Vec3::new(s(x), s(y), s(z))
}

fn angle(u: Vec3, v: Vec3) -> f32 {
    f(u.cos_angle(v)).acos()
}

fn next(state: &mut u64) -> u32 {
    let mut x = *state;
    x ^= x << 13;
    x ^= x >> 7;
    x ^= x << 17;
    *state = x;
    (x >> 16) as u32
}

/// A number between -1024 and 1024.
fn moderate(state: &mut u64) -> f32 {
    (next(state) as i32 >> 8) as f32 / 8192.0
}

#[test]
fn test_vec3_angle() {
    let u = v3(1.0, 2.0, 3.0);
    let v = v3(4.0, 5.0, 6.0);
    let angle = angle(u, v);
    let expected_angle = 0.225726; // Precomputed expected angle in radians
    let tolerance = 1e-6;
    assert!(
        (angle - expected_angle).abs() < tolerance,
        "Angle computation is incorrect"
    );
}

#[test]
fn dot_magnitude_and_angle_of_two_vectors() {
    let u = v3(1.0, 2.0, 3.0);
    let v = v3(4.0, 5.0, 6.0);
    assert_eq!(f(u.dot(v)), 32.0);
    assert_eq!(u.dot(v).to_bits(), 0x4200_0000);
    assert_eq!(f(u.mag()), 14.0f32.sqrt());
    assert!((f(u.mag()) - 3.741657).abs() < 1e-6);
    assert_eq!(f(v.mag()), 77.0f32.sqrt());
    assert!((angle(u, v) - 0.225726).abs() < 1e-6);
    let cosine = 32.0f32 / (14.0f32.sqrt() * 77.0f32.sqrt());
    assert_eq!(f(u.cos_angle(v)), cosine);
}

#[test]
fn unit_vectors_along_two_axes() {
    let u = v3(1.0, 0.0, 0.0);
    let v = v3(0.0, 1.0, 0.0);
    let c = u.cross(v);
    assert_eq!(f(c.x()), 0.0);
    assert_eq!(f(c.y()), 0.0);
    assert_eq!(f(c.z()), 1.0);
    assert_eq!(c.z().to_bits(), 0x3f80_0000);
    assert_eq!(f(u.dot(v)), 0.0);
    assert_eq!(f(u.cos_angle(v)), 0.0);
    assert!((angle(u, v) - std::f32::consts::FRAC_PI_2).abs() < 1e-6);
}

#[test]
fn unit_vectors_in_the_plane() {
    let a = v2(1.0, 0.0);
    let b = v2(0.0, 1.0);
    assert_eq!(f(a.cross(b)), 1.0);
    assert_eq!(f(b.cross(a)), -1.0);
    assert_eq!(f(a.dot(b)), 0.0);
}

#[test]
fn angle_with_a_zero_vector_is_nan() {
    let zero = v3(0.0, 0.0, 0.0);
    let v = v3(1.0, 2.0, 3.0);
    assert!(zero.cos_angle(v).is_nan());
    assert!(v.cos_angle(zero).is_nan());
    assert!(zero.cos_angle(zero).is_nan());
    assert!(angle(zero, v).is_nan());
    assert!(angle(v, zero).is_nan());
    assert!(!angle(zero, v).is_finite());
    let nzero = v3(-0.0, 0.0, -0.0);
    assert!(angle(nzero, v).is_nan());
    assert!(angle(v3(f32::INFINITY, 1.0, 0.0), zero).is_nan());
}

#[test]
fn angle_is_not_clamped() {
    // rounding carries the cosine of these parallel vectors just beyond one
    let mut state: u64 = 0x0f1e_2d3c_4b5a_6978;
    let mut beyond = 0;
    for _ in 0..20_000 {
        let u = v3(moderate(&mut state), moderate(&mut state), moderate(&mut state));
        let c = f(u.cos_angle(u));
        if c > 1.0 {
            beyond += 1;
            assert!(c.acos().is_nan());
        }
    }
    assert!(beyond > 0);
}

#[test]
fn constructors_keep_the_components() {
    let a = v2(1.5, -2.5);
    assert_eq!(a.x().to_bits(), 1.5f32.to_bits());
    assert_eq!(a.y().to_bits(), (-2.5f32).to_bits());
    let b = Vec3::new(Single::from_bits(0x7fc0_1234), s(f32::INFINITY), s(-0.0));
    assert_eq!(b.x().to_bits(), 0x7fc0_1234);
    assert_eq!(b.y().to_bits(), 0x7f80_0000);
    assert_eq!(b.z().to_bits(), 0x8000_0000);
}

#[test]
fn formulas_give_exact_values() {
    let a = v2(3.0, 4.0);
    let b = v2(-2.0, 5.0);
    assert_eq!(f(a.dot(b)), 14.0);
    assert_eq!(f(a.cross(b)), 23.0);
    assert_eq!(f(b.cross(a)), -23.0);
    let u = v3(1.0, 2.0, 3.0);
    let v = v3(4.0, 5.0, 6.0);
    let c = u.cross(v);
    assert_eq!(f(c.x()), -3.0);
    assert_eq!(f(c.y()), 6.0);
    assert_eq!(f(c.z()), -3.0);
    assert_eq!(f(v3(3.0, 4.0, 12.0).mag()), 13.0);
    assert_eq!(f(v3(0.0, 0.0, 0.0).mag()), 0.0);
    assert_eq!(f(v3(2.0, 0.0, 0.0).cos_angle(v3(-3.0, 0.0, 0.0))), -1.0);
}

#[test]
fn operations_agree_with_hardware_arithmetic() {
    let mut state: u64 = 0x6a09_e667_f3bc_c908;
    for i in 0..20_000u32 {
        let raw = i % 2 == 0;
        let mut c = [0f32; 6];
        for x in c.iter_mut() {
            *x = if raw { f32::from_bits(next(&mut state)) } else { moderate(&mut state) };
        }
        let (ax, ay, az, bx, by, bz) = (c[0], c[1], c[2], c[3], c[4], c[5]);
        let a = v3(ax, ay, az);
        let b = v3(bx, by, bz);
        let same = |got: Single, want: f32| {
            if want.is_nan() { got.is_nan() } else { got.to_bits() == want.to_bits() }
        };
        assert!(same(a.dot(b), ax * bx + ay * by + az * bz));
        let cr = a.cross(b);
        assert!(same(cr.x(), ay * bz - az * by));
        assert!(same(cr.y(), az * bx - ax * bz));
        assert!(same(cr.z(), ax * by - ay * bx));
        let mag_a = (ax * ax + ay * ay + az * az).sqrt();
        let mag_b = (bx * bx + by * by + bz * bz).sqrt();
        assert!(same(a.mag(), mag_a));
        let dot = ax * bx + ay * by + az * bz;
        assert!(same(a.cos_angle(b), dot / (mag_a * mag_b)));
        let p = v2(ax, ay);
        let q = v2(bx, by);
        assert!(same(p.dot(q), ax * bx + ay * by));
        assert!(same(p.cross(q), ax * by - ay * bx));
    }
}

#[test]
fn dot_does_not_depend_on_the_order() {
    let mut state: u64 = 0xbb67_ae85_84ca_a73b;
    for _ in 0..20_000 {
        let a = Vec3::new(
            Single::from_bits(next(&mut state)),
            Single::from_bits(next(&mut state)),
            Single::from_bits(next(&mut state)),
        );
        let b = Vec3::new(
            Single::from_bits(next(&mut state)),
            Single::from_bits(next(&mut state)),
            Single::from_bits(next(&mut state)),
        );
        assert_eq!(a.dot(b).to_bits(), b.dot(a).to_bits());
        let p = Vec2::new(a.x(), a.y());
        let q = Vec2::new(b.x(), b.y());
        assert_eq!(p.dot(q).to_bits(), q.dot(p).to_bits());
    }
    assert_eq!(f(v3(1.0, 2.0, 3.0).dot(v3(4.0, 5.0, 6.0))), f(v3(4.0, 5.0, 6.0).dot(v3(1.0, 2.0, 3.0))));
}

#[test]
fn dot_with_itself_is_not_negative() {
    let mut state: u64 = 0x3c6e_f372_fe94_f82b;
    for _ in 0..20_000 {
        let a = v3(
            f32::from_bits(next(&mut state)),
            f32::from_bits(next(&mut state)),
            f32::from_bits(next(&mut state)),
        );
        if a.x().is_nan() || a.y().is_nan() || a.z().is_nan() {
            assert!(a.dot(a).is_nan());
            continue;
        }
        let d = a.dot(a);
        assert!(!d.is_nan());
        assert!(!d.is_sign_negative());
        assert!(f(d) >= 0.0);
        assert_eq!(a.mag().to_bits(), d.fsqrt().to_bits());
        assert!(f(a.mag()) >= 0.0);
    }
    assert_eq!(f(v3(-1.0, -2.0, -2.0).dot(v3(-1.0, -2.0, -2.0))), 9.0);
    assert_eq!(f(v3(-1.0, -2.0, -2.0).mag()), 3.0);
}

#[test]
fn cross_changes_sign_when_swapped() {
    let mut state: u64 = 0xa54f_f53a_5f1d_36f1;
    for i in 0..20_000u32 {
        let mut c = [0f32; 6];
        for x in c.iter_mut() {
            *x = if i % 2 == 0 { f32::from_bits(next(&mut state)) } else { moderate(&mut state) };
        }
        let a = v3(c[0], c[1], c[2]);
        let b = v3(c[3], c[4], c[5]);
        let ab = a.cross(b);
        let ba = b.cross(a);
        for (l, r) in [(ab.x(), ba.x()), (ab.y(), ba.y()), (ab.z(), ba.z())] {
            assert_eq!(l.is_nan(), r.is_nan());
            if !l.is_nan() {
                assert!(l.equals(r.neg()));
                assert_eq!(f(l), -f(r));
            }
        }
        let p = v2(c[0], c[1]);
        let q = v2(c[3], c[4]);
        let pq = p.cross(q);
        let qp = q.cross(p);
        assert_eq!(pq.is_nan(), qp.is_nan());
        if !pq.is_nan() {
            assert!(pq.equals(qp.neg()));
        }
    }
}

#[test]
fn cross_with_itself_is_zero() {
    let a = v3(1.5, -2.25, 1.0e10);
    let c = a.cross(a);
    assert_eq!(c.x().to_bits(), 0);
    assert_eq!(c.y().to_bits(), 0);
    assert_eq!(c.z().to_bits(), 0);
    assert_eq!(v2(3.0, -7.0).cross(v2(3.0, -7.0)).to_bits(), 0);
    let mut state: u64 = 0x510e_527f_ade6_82d1;
    for _ in 0..20_000 {
        let a = v3(moderate(&mut state), moderate(&mut state), moderate(&mut state));
        let c = a.cross(a);
        assert_eq!(c.x().to_bits(), 0);
        assert_eq!(c.y().to_bits(), 0);
        assert_eq!(c.z().to_bits(), 0);
    }
    // products that overflow leave infinity minus infinity
    let big = v2(3.0e38, 2.0e38);
    assert!(big.cross(big).is_nan());
    let huge = v3(3.0e38, 2.0e38, 1.0);
    assert!(huge.cross(huge).z().is_nan());
    assert_eq!(huge.cross(huge).x().to_bits(), 0);
}

#[test]
fn cross_is_orthogonal_to_its_operands() {
    let u = v3(1.0, 2.0, 3.0);
    let v = v3(4.0, 5.0, 6.0);
    let c = u.cross(v);
    assert!(f(c.dot(u)).abs() < 1e-5);
    assert!(f(c.dot(v)).abs() < 1e-5);
    let mut state: u64 = 0x9b05_688c_2b3e_6c1f;
    for _ in 0..20_000 {
        // components of at most eight bits: every step is exact
        let mut c = [0f32; 6];
        for x in c.iter_mut() {
            *x = ((next(&mut state) >> 24) as i32 - 128) as f32 / 16.0;
        }
        let a = v3(c[0], c[1], c[2]);
        let b = v3(c[3], c[4], c[5]);
        let n = a.cross(b);
        assert_eq!(f(n.dot(a)), 0.0);
        assert_eq!(f(n.dot(b)), 0.0);
    }
}

#[test]
fn non_finite_components_propagate() {
    let nan = v3(f32::NAN, 1.0, 2.0);
    let v = v3(1.0, 2.0, 3.0);
    assert!(nan.dot(v).is_nan());
    assert!(v.dot(nan).is_nan());
    assert!(nan.mag().is_nan());
    assert!(nan.cos_angle(v).is_nan());
    assert!(nan.cross(v).y().is_nan());
    assert!(nan.cross(v).z().is_nan());
    assert_eq!(f(nan.cross(v).x()), -1.0);
    let inf = v3(f32::INFINITY, 1.0, 2.0);
    assert_eq!(f(inf.dot(v)), f32::INFINITY);
    assert_eq!(f(inf.mag()), f32::INFINITY);
    assert_eq!(f(v3(f32::NEG_INFINITY, 0.0, 0.0).mag()), f32::INFINITY);
    // infinity over infinity
    assert!(inf.cos_angle(v).is_nan());
    // a product that overflows on the way
    let big = v3(3.0e38, 0.0, 0.0);
    assert_eq!(f(big.mag()), f32::INFINITY);
    assert_eq!(f(big.dot(big)), f32::INFINITY);
    assert!(v2(f32::INFINITY, 0.0).dot(v2(0.0, 1.0)).is_nan());
    assert!(v2(f32::NAN, 0.0).cross(v2(0.0, 0.0)).is_nan());
}

#[test]
fn length_is_zero_only_for_vanishing_squares() {
    assert_eq!(v3(0.0, -0.0, 0.0).mag().to_bits(), 0);
    assert!(f(v3(0.0, 1.0e-20, 0.0).mag()) > 0.0);
    // squares below half the smallest subnormal are rounded to zero
    assert_eq!(v3(1.0e-30, 1.0e-30, -1.0e-30).mag().to_bits(), 0);
    assert_eq!(f(v3(1.0e-30, 1.0e-30, -1.0e-30).mag()), (3.0e-30f32 * 0.0).sqrt());
}

#[test]
fn orthogonality_is_lost_to_rounding_on_large_components() {
    let a = v3(1000.1, 2000.2, 3000.3);
    let b = v3(4000.4, 5000.5, 6000.7);
    let c = a.cross(b);
    assert_eq!(f(c.dot(a)), 1024.0);
    assert_eq!(f(c.dot(b)), 2048.0);
    // small against the lengths involved, though far from zero
    assert!(f(c.dot(a)).abs() / (f(c.mag()) * f(a.mag())) < 1e-6);
}
