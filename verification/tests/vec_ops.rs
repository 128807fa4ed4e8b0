use whitted::fx::SCALE;
use whitted::vec3::Vec3;

fn fxv(x: i64, y: i64, z: i64) -> Vec3 {
    Vec3::new(x * SCALE, y * SCALE, z * SCALE)
}

#[test]
fn dot_exact() {
    // (1,2,3) . (4,5,6) == 32
    let a = fxv(1, 2, 3);
    let b = fxv(4, 5, 6);
    assert_eq!(a.dot(&b), 32 * SCALE);
}

#[test]
fn add_sub_negate_scale_exact() {
    let a = fxv(1, -2, 3);
    let b = fxv(4, 5, -6);
    assert_eq!(a.add(&b), fxv(5, 3, -3));
    assert_eq!(a.sub(&b), fxv(-3, -7, 9));
    assert_eq!(a.negate(), fxv(-1, 2, -3));
    assert_eq!(a.scale(2 * SCALE), fxv(2, -4, 6));
}

#[test]
fn mag_of_pythagorean_triple() {
    assert_eq!(fxv(3, 4, 0).mag(), 5 * SCALE);
    assert_eq!(fxv(0, 0, -5).mag(), 5 * SCALE);
}

#[test]
fn normalized_axis_vector() {
    assert_eq!(fxv(0, 0, -5).normalized(), Vec3::new(0, 0, -SCALE));
    assert_eq!(fxv(7, 0, 0).normalized(), Vec3::new(SCALE, 0, 0));
}

#[test]
fn normalized_short_vector_keeps_direction() {
    // A vector of magnitude 0.25 normalizes by the same quotient as any
    // other nonzero vector: exactly the unit vector in its direction.
    assert_eq!(Vec3::new(SCALE / 4, 0, 0).normalized(), Vec3::new(SCALE, 0, 0));
    assert_eq!(Vec3::new(0, -SCALE / 4, 0).normalized(), Vec3::new(0, -SCALE, 0));
    // Down to 1/256 of a unit the quotient is still taken, and the result's
    // magnitude stays within the proved window: at least 1.0 less 16 steps,
    // at most 2.25.
    let shorts = [
        Vec3::new(256, 0, 0),
        Vec3::new(9000, 12000, 0),
        Vec3::new(-300, 200, 150),
        Vec3::new(20000, -20000, 9000),
    ];
    for v in shorts {
        let m = v.normalized().mag();
        assert!(SCALE - 16 <= m && m <= 147456, "magnitude {m} out of window");
    }
}

#[test]
fn normalized_magnitude_near_one() {
    // Magnitude of a normalized vector is 1.0 up to rounding.
    let cases = [
        fxv(1, 2, 2),
        fxv(-3, 4, 12),
        fxv(10, -7, 3),
        Vec3::new(99, 120, -77000),
    ];
    for v in cases {
        let m = v.normalized().mag();
        assert!((m - SCALE).abs() <= 16, "magnitude {m} too far from 1.0");
    }
}

#[test]
fn normalized_degenerate_is_zero() {
    // Only when the squared length rounds to zero — every component under
    // 1/256 of a unit — does normalization return the zero-vector sentinel.
    assert_eq!(Vec3::new(3, 3, 3).normalized(), Vec3::new(0, 0, 0));
    assert_eq!(Vec3::new(255, -255, 255).normalized(), Vec3::new(0, 0, 0));
    assert_eq!(Vec3::new(0, 0, 0).normalized(), Vec3::new(0, 0, 0));
}

#[test]
fn reflect_exact() {
    // Reflecting (1,-1,0) about the unit normal (0,1,0) gives (-1,-1,0),
    // and the bounced direction (its negation) flips the normal component.
    let v = fxv(1, -1, 0);
    let n = fxv(0, 1, 0);
    let r = v.reflect_on(&n);
    assert_eq!(r, fxv(-1, -1, 0));
    assert_eq!(r.dot(&n), v.dot(&n));
    assert_eq!(r.negate().dot(&n), -v.dot(&n));
}

#[test]
fn reflection_flips_normal_component_with_rounding() {
    // An oblique incoming direction against an axis normal: the bounced
    // direction's normal component is the flipped incoming one, within the
    // documented rounding tolerance.
    let v = Vec3::new(40000, -50000, 10000);
    let n = fxv(0, 1, 0);
    let bounced = v.reflect_on(&n).negate();
    let lhs = bounced.dot(&n) + v.dot(&n);
    assert!(lhs.abs() <= 350, "normal component off by {lhs}");
}
