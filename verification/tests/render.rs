//! The renderer end to end: intersection, shading, and whole paint passes.

use raysphere::fixed::ONE;
use raysphere::vec3::Vec3;
use raysphere::{alloc_canvas, color, hit_sphere, paint, point_at_parameter, Ray, CANVAS_SIZE};

fn v3(x: i64, y: i64, z: i64) -> Vec3 {
    Vec3 { x, y, z }
}

const SPHERE_CENTER_Z: i64 = -ONE;
const SPHERE_RADIUS: i64 = ONE / 2;

#[test]
fn head_on_ray_hits_sphere_surface() {
    let center = v3(0, 0, SPHERE_CENTER_Z);
    let ray = Ray { origin: v3(0, 0, 0), direction: v3(0, 0, -ONE) };
    let t = hit_sphere(&center, SPHERE_RADIUS, &ray);
    assert!(t > 0);
    // The near intersection of a unit ray down the axis is at t = 0.5.
    assert_eq!(t, ONE / 2);
    // The hit point sits on the sphere: its distance from the center is the
    // radius, exactly in this axis-aligned case.
    let p = point_at_parameter(&ray, t);
    assert_eq!((p.x, p.y, p.z), (0, 0, -ONE / 2));
    let from_center = p.vsub(&center);
    assert_eq!(from_center.length(), SPHERE_RADIUS);
}

#[test]
fn ray_aimed_away_reports_no_hit() {
    let center = v3(0, 0, SPHERE_CENTER_Z);
    let ray = Ray { origin: v3(0, 0, 0), direction: v3(0, ONE, 0) };
    // The sentinel for a miss is -1.0.
    assert_eq!(hit_sphere(&center, SPHERE_RADIUS, &ray), -ONE);
}

#[test]
fn ray_aimed_away_shades_as_background_gradient() {
    let up = Ray { origin: v3(0, 0, 0), direction: v3(0, ONE, 0) };
    let c = color(&up);
    // Straight up the gradient is pure sky blue: (0.5, 0.7, 1.0).
    assert_eq!((c.x, c.y, c.z), (ONE / 2, 45875, ONE));

    // A hit shades by the surface normal instead and looks nothing like it.
    let ahead = Ray { origin: v3(0, 0, 0), direction: v3(0, 0, -ONE) };
    let n = color(&ahead);
    assert_eq!((n.x, n.y, n.z), (ONE / 2, ONE / 2, ONE));
    assert_ne!((c.x, c.y), (n.x, n.y));
}

#[test]
fn alloc_canvas_is_fixed_size_and_zeroed() {
    let buf = alloc_canvas();
    assert_eq!(buf.len(), 1280 * 720 * 4);
    assert_eq!(buf.len(), CANVAS_SIZE);
    assert!(buf.iter().all(|&b| b == 0));
}

#[test]
fn tiny_paint_writes_exactly_eight_bytes() {
    // Two pixels in one row: eight meaningful bytes, and the row flip is
    // degenerate (height - j - 1 = 0 for j = 0).
    let mut buf = vec![7u8; 12];
    paint(&mut buf, 2, 1);
    // Left pixel, then right pixel, each R, G, B, 255.
    assert_eq!(&buf[0..4], &[218, 233, 255, 255]);
    assert_eq!(&buf[4..8], &[237, 244, 255, 255]);
    // Alpha is always opaque.
    assert_eq!(buf[3], 255);
    assert_eq!(buf[7], 255);
    // Bytes past the painted region keep their old values.
    assert_eq!(&buf[8..12], &[7, 7, 7, 7]);
}

#[test]
fn full_resolution_center_hits_sphere_and_corner_does_not() {
    let mut buf = alloc_canvas();
    paint(&mut buf, 1280, 720);

    // Scan row 360, column 640: the screen center. Rows are flipped, so it
    // lands at buffer row 720 - 360 - 1.
    let center = ((720 - 360 - 1) * 1280 + 640) * 4;
    // The ray points straight at the sphere; the normal faces the viewer,
    // so the color is (0.5, 0.5, 1.0).
    assert_eq!(&buf[center..center + 4], &[127, 127, 255, 255]);

    // Scan row 0, column 0 aims away from the sphere and shows the
    // background gradient.
    let corner = ((720 - 0 - 1) * 1280 + 0) * 4;
    assert_eq!(&buf[corner..corner + 4], &[218, 233, 255, 255]);

    assert_ne!(&buf[center..center + 4], &buf[corner..corner + 4]);
}

#[test]
fn paint_is_deterministic_across_runs() {
    let mut a = alloc_canvas();
    let mut b = alloc_canvas();
    paint(&mut a, 64, 36);
    paint(&mut b, 64, 36);
    assert_eq!(a, b);

    // The painted bytes do not depend on what the buffer held before.
    let mut c = vec![0xAAu8; CANVAS_SIZE];
    paint(&mut c, 64, 36);
    assert_eq!(&a[..64 * 36 * 4], &c[..64 * 36 * 4]);
    // Beyond the painted region the old contents survive.
    assert_eq!(c[64 * 36 * 4], 0xAA);
}
