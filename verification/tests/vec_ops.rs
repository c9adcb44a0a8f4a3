//! Vector and scalar arithmetic, straight from the contracts: exact values
//! for the exact operations, tolerances only where rounding is specified.

use raysphere::fixed::{fx_div, fx_mul, fx_sqrt, quantize, ONE};
use raysphere::vec3::{dot, unit_vector, Vec3};

fn v3(x: i64, y: i64, z: i64) -> Vec3 {
    Vec3 { x, y, z }
}

#[test]
fn fx_mul_exact() {
    assert_eq!(fx_mul(3 * ONE, 2 * ONE), 6 * ONE);
    assert_eq!(fx_mul(-3 * ONE, 2 * ONE), -6 * ONE);
    assert_eq!(fx_mul(ONE / 2, ONE / 2), ONE / 4);
    // Truncation is toward zero on both sides.
    assert_eq!(fx_mul(3, 3), 0);
    assert_eq!(fx_mul(-3, 3), 0);
}

#[test]
fn fx_div_exact() {
    assert_eq!(fx_div(6 * ONE, 2 * ONE), 3 * ONE);
    assert_eq!(fx_div(-6 * ONE, 2 * ONE), -3 * ONE);
    assert_eq!(fx_div(ONE, 3 * ONE), 21845);
    // Division by zero is total and yields zero.
    assert_eq!(fx_div(5 * ONE, 0), 0);
}

#[test]
fn fx_sqrt_exact() {
    assert_eq!(fx_sqrt(4 * ONE), 2 * ONE);
    assert_eq!(fx_sqrt(0), 0);
    assert_eq!(fx_sqrt(ONE), ONE);
    // sqrt(2) in Q16.16, rounded down: floor(sqrt(2) * 65536) = 92681.
    assert_eq!(fx_sqrt(2 * ONE), 92681);
}

#[test]
fn quantize_matches_byte_scale() {
    // floor(c * 255.99) for channels in [0, 1], pinned at the byte range.
    assert_eq!(quantize(ONE), 255);
    assert_eq!(quantize(ONE / 2), 127);
    assert_eq!(quantize(0), 0);
    assert_eq!(quantize(-5), 0);
    assert_eq!(quantize(2 * ONE), 255);
}

#[test]
fn vector_componentwise_ops() {
    let a = v3(ONE, 2 * ONE, 3 * ONE);
    let b = v3(4 * ONE, 5 * ONE, 6 * ONE);
    let s = a.vadd(&b);
    assert_eq!((s.x, s.y, s.z), (5 * ONE, 7 * ONE, 9 * ONE));
    let d = b.vsub(&a);
    assert_eq!((d.x, d.y, d.z), (3 * ONE, 3 * ONE, 3 * ONE));
    let m = a.fmul(2 * ONE);
    assert_eq!((m.x, m.y, m.z), (2 * ONE, 4 * ONE, 6 * ONE));
    let q = b.fdiv(2 * ONE);
    assert_eq!((q.x, q.y, q.z), (2 * ONE, 5 * ONE / 2, 3 * ONE));
}

#[test]
fn dot_exact_value() {
    let a = v3(ONE, 2 * ONE, 3 * ONE);
    let b = v3(4 * ONE, 5 * ONE, 6 * ONE);
    // 1*4 + 2*5 + 3*6 = 32.
    assert_eq!(dot(&a, &b), 32 * ONE);
}

#[test]
fn dot_commutes() {
    let pairs = [
        (v3(ONE, 2 * ONE, 3 * ONE), v3(4 * ONE, 5 * ONE, 6 * ONE)),
        (v3(-ONE, 7, 12345), v3(98765, -4321, ONE / 3)),
        (v3(0, 0, 0), v3(-5 * ONE, ONE, 2)),
    ];
    for (a, b) in pairs {
        assert_eq!(dot(&a, &b), dot(&b, &a));
    }
}

#[test]
fn unit_vector_length_near_one() {
    let samples = [
        v3(ONE, 0, 0),
        v3(ONE, ONE, ONE),
        v3(3 * ONE / 2, -2 * ONE, ONE / 4),
        v3(12345, 98765, -55555),
    ];
    for v in samples {
        let u = unit_vector(&v);
        let len = u.length();
        // Within rounding tolerance of one unit.
        assert!(
            (len - ONE).abs() <= 8,
            "length of normalized vector was {len}"
        );
    }
}

#[test]
fn unit_vector_of_zero_is_zero_not_a_crash() {
    // The zero vector has no direction; the scalar type has no NaN, so
    // normalization hands back the zero vector.
    let u = unit_vector(&v3(0, 0, 0));
    assert_eq!((u.x, u.y, u.z), (0, 0, 0));
    assert_eq!(u.length(), 0);
}

#[test]
fn unit_vector_keeps_direction() {
    let u = unit_vector(&v3(ONE, 0, 0));
    assert_eq!((u.x, u.y, u.z), (ONE, 0, 0));
    let w = unit_vector(&v3(0, -5 * ONE, 0));
    assert_eq!((w.x, w.y, w.z), (0, -ONE, 0));
}
