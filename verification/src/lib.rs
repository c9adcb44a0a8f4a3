//! A tiny ray tracer: one sphere under a sky gradient, rendered into an
//! RGBA byte buffer.
//!
//! All geometry is carried in Q16.16 fixed-point scalars (see `fixed`), so
//! every arithmetic step has an exact mathematical statement and the painted
//! bytes are a proved function of the canvas dimensions alone.
//!
//! The scene and the camera are fixed: a sphere of radius one half sits one
//! unit in front of a viewport two units tall and four units wide, and a
//! pixel's color is the sphere's surface normal where a ray through the
//! pixel hits it, or a white-to-blue vertical gradient where it does not.

pub mod fixed;
pub mod vec3;

use vstd::prelude::*;
use vstd::arithmetic::div_mod::{lemma_fundamental_div_mod, lemma_fundamental_div_mod_converse};
use crate::fixed::{
    fx_div, fx_div_spec, fx_mul, fx_mul_spec, fx_sqrt, fx_sqrt_spec, lemma_fx_div_bound,
    lemma_fx_mul_bound, mag, quantize, quantize_spec,
};
use crate::vec3::{
    bounded, dot, dot_spec, lemma_dot_bound, scale_spec, unit_spec, unit_vector, vadd_spec,
    vsub_spec, Vec3,
};

verus! {

/// Bytes in the fixed canvas: 1280 by 720 pixels, four bytes each.
pub const CANVAS_SIZE: usize = 1280 * 720 * 4;

/// A ray: an origin point and a direction (not necessarily unit length).
pub struct Ray {
    pub origin: Vec3,
    pub direction: Vec3,
}

/// The component range the intersection arithmetic accepts: 128 units on
/// either side of zero, far beyond the fixed scene.
pub open spec fn in_range(v: (int, int, int)) -> bool {
    bounded(v, 0x80_0000)
}

/// Center of the one sphere in the scene, half a unit below the viewport's
/// far plane: (0, 0, -1).
pub open spec fn sphere_center() -> (int, int, int) {
    (0, 0, -65536)
}

/// Discriminant of the ray-sphere intersection quadratic.
pub open spec fn hit_disc_spec(
    center: (int, int, int),
    radius: int,
    origin: (int, int, int),
    dir: (int, int, int),
) -> int {
    let oc = vsub_spec(origin, center);
    let a = dot_spec(dir, dir);
    let b = 2 * dot_spec(oc, dir);
    let c = dot_spec(oc, oc) - fx_mul_spec(radius, radius);
    fx_mul_spec(b, b) - 4 * fx_mul_spec(a, c)
}

/// Ray parameter of the nearest intersection of a ray with a sphere, or the
/// sentinel minus one when the discriminant is negative and the ray misses.
/// The parameter is not clamped: a hit behind the origin comes back
/// negative, and callers treat any value at or below zero as a miss.
pub open spec fn hit_sphere_spec(
    center: (int, int, int),
    radius: int,
    origin: (int, int, int),
    dir: (int, int, int),
) -> int {
    let oc = vsub_spec(origin, center);
    let a = dot_spec(dir, dir);
    let b = 2 * dot_spec(oc, dir);
    let disc = hit_disc_spec(center, radius, origin, dir);
    if disc < 0 {
        -65536
    } else {
        fx_div_spec(-b - fx_sqrt_spec(disc), 2 * a)
    }
}

/// The point a ray reaches at parameter `t`.
pub open spec fn point_at_spec(origin: (int, int, int), dir: (int, int, int), t: int) -> (
    int,
    int,
    int,
) {
    vadd_spec(origin, scale_spec(dir, t))
}

/// Color of a ray: the sphere's surface normal mapped from [-1, 1] to
/// [0, 1] per component where the ray hits the sphere in front of its
/// origin, else a vertical blend from white to sky blue.
pub open spec fn color_spec(origin: (int, int, int), dir: (int, int, int)) -> (int, int, int) {
    let t = hit_sphere_spec(sphere_center(), 32768, origin, dir);
    if t > 0 {
        let p = point_at_spec(origin, dir, t);
        let n = unit_spec(vsub_spec(p, sphere_center()));
        (
            fx_mul_spec(n.0 + 65536, 32768),
            fx_mul_spec(n.1 + 65536, 32768),
            fx_mul_spec(n.2 + 65536, 32768),
        )
    } else {
        let u = unit_spec(dir);
        let s = fx_mul_spec(32768, u.1 + 65536);
        vadd_spec(
            scale_spec((65536, 65536, 65536), 65536 - s),
            scale_spec((32768, 45875, 65536), s),
        )
    }
}

/// Ray parameter of the nearest intersection, or minus one on a miss.
pub fn hit_sphere(center: &Vec3, radius: i64, ray: &Ray) -> (r: i64)
    requires
        in_range(center@),
        in_range(ray.origin@),
        in_range(ray.direction@),
        mag(radius as int) <= 0x80_0000,
    ensures
        r as int == hit_sphere_spec(center@, radius as int, ray.origin@, ray.direction@),
        mag(r as int) <= 0x10_0000_0000_0000,
        hit_disc_spec(center@, radius as int, ray.origin@, ray.direction@) < 0 ==> r == -65536,
{
    let oc = ray.origin.vsub(center);
    proof {
        lemma_dot_bound(ray.direction@, ray.direction@, 0x80_0000, 0x80_0000);
        lemma_dot_bound(oc@, ray.direction@, 0x100_0000, 0x80_0000);
        lemma_dot_bound(oc@, oc@, 0x100_0000, 0x100_0000);
        lemma_fx_mul_bound(radius as int, radius as int, 0x80_0000, 0x80_0000);
    }
    let a = dot(&ray.direction, &ray.direction);
    let b = 2 * dot(&oc, &ray.direction);
    let c = dot(&oc, &oc) - fx_mul(radius, radius);
    proof {
        lemma_fx_mul_bound(b as int, b as int, 0x3_0000_0000, 0x3_0000_0000);
        lemma_fx_mul_bound(a as int, c as int, 0xc000_0000, 0x3_4000_0000);
    }
    let discriminant = fx_mul(b, b) - 4 * fx_mul(a, c);

    if discriminant < 0 {
        return -65536;
    }

    let root = fx_sqrt(discriminant);
    proof {
        crate::fixed::lemma_sqrt_floor_le(discriminant as int * 65536, 0x5_0000_0000);
        lemma_fx_div_bound(-(b as int) - root as int, 2 * a as int);
    }
    fx_div(-b - root, 2 * a)
}

/// The point a ray reaches at parameter `t`.
pub fn point_at_parameter(ray: &Ray, t: i64) -> (r: Vec3)
    requires
        in_range(ray.origin@),
        in_range(ray.direction@),
        mag(t as int) <= 0x10_0000_0000_0000,
    ensures
        r@ == point_at_spec(ray.origin@, ray.direction@, t as int),
        bounded(r@, 0x1000_0000_0000_0000),
{
    proof {
        lemma_fx_mul_bound(ray.direction@.0, t as int, 0x80_0000, 0x10_0000_0000_0000);
        lemma_fx_mul_bound(ray.direction@.1, t as int, 0x80_0000, 0x10_0000_0000_0000);
        lemma_fx_mul_bound(ray.direction@.2, t as int, 0x80_0000, 0x10_0000_0000_0000);
    }
    ray.origin.vadd(&ray.direction.fmul(t))
}

/// Color of a ray against the fixed scene.
pub fn color(ray: &Ray) -> (r: Vec3)
    requires
        in_range(ray.origin@),
        in_range(ray.direction@),
    ensures
        r@ == color_spec(ray.origin@, ray.direction@),
{
    let center = Vec3 { x: 0, y: 0, z: -65536 };
    let t = hit_sphere(&center, 32768, ray);

    if t > 0 {
        let p = point_at_parameter(ray, t);
        let oc = p.vsub(&center);
        let normal = unit_vector(&oc);
        proof {
            lemma_fx_mul_bound(normal@.0 + 65536, 32768, 0x8001_0000, 32768);
            lemma_fx_mul_bound(normal@.1 + 65536, 32768, 0x8001_0000, 32768);
            lemma_fx_mul_bound(normal@.2 + 65536, 32768, 0x8001_0000, 32768);
        }
        return Vec3 { x: normal.x + 65536, y: normal.y + 65536, z: normal.z + 65536 }.fmul(
            32768,
        );
    }

    let unit_direction = unit_vector(&ray.direction);
    proof {
        lemma_fx_mul_bound(32768, unit_direction@.1 + 65536, 32768, 0x8001_0000);
    }
    let u = fx_mul(32768, unit_direction.y + 65536);

    let one = Vec3 { x: 65536, y: 65536, z: 65536 };
    let two = Vec3 { x: 32768, y: 45875, z: 65536 };

    proof {
        lemma_fx_mul_bound(65536, 65536 - u as int, 65536, 0x4001_8000);
        lemma_fx_mul_bound(32768, u as int, 65536, 0x4001_8000);
        lemma_fx_mul_bound(45875, u as int, 65536, 0x4001_8000);
        lemma_fx_mul_bound(65536, u as int, 65536, 0x4001_8000);
    }
    one.fmul(65536 - u).vadd(&two.fmul(u))
}

/// Direction of the ray through pixel column `i` of `w` and row `j` of `h`:
/// the lower-left corner of the viewport plus the pixel's fractions of its
/// horizontal and vertical extents.
pub open spec fn pixel_dir_spec(i: int, j: int, w: int, h: int) -> (int, int, int) {
    let u: int = (i * 65536) / w;
    let v: int = (j * 65536) / h;
    vadd_spec(
        vadd_spec((-131072, -65536, -65536), scale_spec((262144, 0, 0), u)),
        scale_spec((0, 131072, 0), v),
    )
}

/// Color of the pixel at column `i`, row `j`.
pub open spec fn pixel_color_spec(i: int, j: int, w: int, h: int) -> (int, int, int) {
    color_spec((0, 0, 0), pixel_dir_spec(i, j, w, h))
}

/// Byte `ch` of the pixel at column `i`, row `j`: the quantized red, green
/// and blue channels, and a fully opaque alpha byte.
pub open spec fn pixel_byte_spec(i: int, j: int, w: int, h: int, ch: int) -> int {
    if ch == 3 {
        255
    } else {
        let c = pixel_color_spec(i, j, w, h);
        quantize_spec(
            if ch == 0 {
                c.0
            } else if ch == 1 {
                c.1
            } else {
                c.2
            },
        )
    }
}

/// The buffer after a paint pass: the first `4 * w * h` bytes hold the
/// pixels, rows flipped so that row zero of the scan lands at the bottom of
/// the image, and every byte beyond them keeps its old value.
pub open spec fn painted_spec(s: Seq<u8>, w: int, h: int) -> Seq<u8> {
    Seq::new(
        s.len(),
        |k: int|
            if 0 <= k < 4 * w * h {
                pixel_byte_spec((k / 4) % w, h - 1 - (k / 4) / w, w, h, k % 4) as u8
            } else {
                s[k]
            },
    )
}

/// Value the paint pass leaves at byte `k` once every row below `j`, and on
/// row `j` every column below `i`, has been painted.
spec fn scanned_byte(s: Seq<u8>, w: int, h: int, j: int, i: int, k: int) -> u8 {
    if 0 <= k < 4 * w * h && (h - 1 - (k / 4) / w < j || (h - 1 - (k / 4) / w == j && (k / 4) % w
        < i)) {
        pixel_byte_spec((k / 4) % w, h - 1 - (k / 4) / w, w, h, k % 4) as u8
    } else {
        s[k]
    }
}

/// How byte `4 * ((h - 1 - j) * w + i) + ch` decodes back into its pixel.
proof fn lemma_index_decode(i: int, j: int, w: int, h: int, ch: int)
    requires
        0 <= i < w,
        0 <= j < h,
        0 <= ch < 4,
    ensures
        ({
            let k = 4 * ((h - 1 - j) * w + i) + ch;
            0 <= k && k < 4 * w * h && k / 4 == (h - 1 - j) * w + i && k % 4 == ch && (k / 4) % w
                == i && (k / 4) / w == h - 1 - j
        }),
{
    let p = (h - 1 - j) * w + i;
    assert(0 <= p && p + 1 <= w * h) by (nonlinear_arith)
        requires
            p == (h - 1 - j) * w + i,
            0 <= i < w,
            0 <= j < h,
    ;
    let k = 4 * p + ch;
    assert(k < 4 * w * h) by (nonlinear_arith)
        requires
            k == 4 * p + ch,
            p + 1 <= w * h,
            0 <= ch < 4,
    ;
    lemma_fundamental_div_mod_converse(k, 4, p, ch);
    lemma_fundamental_div_mod_converse(p, w, h - 1 - j, i);
}

/// Any byte position inside the painted region decodes into a channel, a
/// column and a buffer row, each within its range.
proof fn lemma_cell_decode(w: int, h: int, k: int)
    requires
        0 <= w,
        0 <= h,
        0 <= k < 4 * w * h,
    ensures
        0 <= k % 4 < 4,
        0 <= (k / 4) % w < w,
        0 <= (k / 4) / w < h,
        k == 4 * (k / 4) + k % 4,
        k / 4 == ((k / 4) / w) * w + (k / 4) % w,
{
    assert(1 <= w && 1 <= h && 0 < w * h) by (nonlinear_arith)
        requires
            0 <= w,
            0 <= h,
            0 < 4 * w * h,
    ;
    lemma_fundamental_div_mod(k, 4);
    assert(0 <= k % 4 < 4);
    let p = k / 4;
    assert(0 <= p && p < w * h) by (nonlinear_arith)
        requires
            k == 4 * p + k % 4,
            0 <= k % 4 < 4,
            0 <= k < 4 * w * h,
    ;
    lemma_fundamental_div_mod(p, w);
    vstd::arithmetic::div_mod::lemma_mod_bound(p, w);
    vstd::arithmetic::div_mod::lemma_div_pos_is_pos(p, w);
    let jj = p / w;
    assert(jj < h) by (nonlinear_arith)
        requires
            p == w * jj + p % w,
            0 <= p % w < w,
            p < w * h,
            0 <= jj,
    ;
    assert(p == jj * w + p % w) by (nonlinear_arith)
        requires
            p == w * jj + p % w,
    ;
}

/// The fraction `i` of `w` in fixed point stays below one unit.
proof fn lemma_fraction_bound(i: int, w: int)
    requires
        0 <= i < w,
    ensures
        0 <= (i * 65536) / w < 65536,
{
    lemma_fundamental_div_mod(i * 65536, w);
    assert(0 <= (i * 65536) / w < 65536) by (nonlinear_arith)
        requires
            i * 65536 == w * ((i * 65536) / w) + (i * 65536) % w,
            0 <= (i * 65536) % w < w,
            0 <= i < w,
    ;
}

/// A freshly allocated canvas: as many zero bytes as the fixed 1280 by 720
/// image needs. The caller owns the buffer from here on.
pub fn alloc_canvas() -> (r: Vec<u8>)
    ensures
        r@.len() == CANVAS_SIZE,
        forall|k: int| 0 <= k < r@.len() ==> r@[k] == 0u8,
{
    let mut v: Vec<u8> = Vec::new();
    while v.len() < CANVAS_SIZE
        invariant
            v@.len() <= CANVAS_SIZE,
            forall|k: int| 0 <= k < v@.len() ==> v@[k] == 0u8,
        decreases CANVAS_SIZE - v@.len(),
    {
        v.push(0);
    }
    v
}

/// Paint one frame into `canvas`: one ray per pixel, four bytes per pixel,
/// rows flipped vertically. Only the leading `4 * width * height` bytes are
/// written; the dimensions only set the sampling density, the viewport does
/// not rescale with them.
pub fn paint(canvas: &mut Vec<u8>, width: usize, height: usize)
    requires
        4 * (width as int) * (height as int) <= old(canvas)@.len(),
        width <= 65536,
        height <= 65536,
    ensures
        final (canvas)@ == painted_spec(old(canvas)@, width as int, height as int),
{
    let ghost s0 = old(canvas)@;
    let ghost w = width as int;
    let ghost h = height as int;
    let buffer_len = canvas.len();
    proof {
        assert forall|k: int| 0 <= k < s0.len() implies canvas@[k] == scanned_byte(
            s0,
            w,
            h,
            0,
            0,
            k,
        ) by {
            if 0 <= k < 4 * w * h {
                lemma_cell_decode(w, h, k);
            }
        }
    }

    let mut j: usize = 0;
    while j < height
        invariant
            w == width as int,
            h == height as int,
            4 * w * h <= s0.len(),
            s0.len() == buffer_len,
            width <= 65536,
            height <= 65536,
            0 <= j <= height,
            canvas@.len() == s0.len(),
            forall|k: int| 0 <= k < s0.len() ==> canvas@[k] == scanned_byte(s0, w, h, j as int, 0, k),
        decreases height - j,
    {
        let mut i: usize = 0;
        while i < width
            invariant
                w == width as int,
                h == height as int,
                4 * w * h <= s0.len(),
                s0.len() == buffer_len,
                width <= 65536,
                height <= 65536,
                0 <= j < height,
                0 <= i <= width,
                canvas@.len() == s0.len(),
                forall|k: int|
                    0 <= k < s0.len() ==> canvas@[k] == scanned_byte(
                        s0,
                        w,
                        h,
                        j as int,
                        i as int,
                        k,
                    ),
            decreases width - i,
        {
            proof {
                lemma_fraction_bound(i as int, w);
                lemma_fraction_bound(j as int, h);
            }
            let u = ((i * 65536) / width) as i64;
            let v = ((j * 65536) / height) as i64;

            let lower_left_corner = Vec3 { x: -131072, y: -65536, z: -65536 };
            let horizontal = Vec3 { x: 262144, y: 0, z: 0 };
            let vertical = Vec3 { x: 0, y: 131072, z: 0 };
            let origin = Vec3 { x: 0, y: 0, z: 0 };

            proof {
                lemma_fx_mul_bound(262144, u as int, 262144, 65536);
                lemma_fx_mul_bound(0, u as int, 0, 65536);
                lemma_fx_mul_bound(131072, v as int, 131072, 65536);
                lemma_fx_mul_bound(0, v as int, 0, 65536);
            }
            let direction = lower_left_corner.vadd(&horizontal.fmul(u)).vadd(&vertical.fmul(v));

            let col = color(&Ray { origin, direction });

            proof {
                lemma_index_decode(i as int, j as int, w, h, 0);
                lemma_index_decode(i as int, j as int, w, h, 1);
                lemma_index_decode(i as int, j as int, w, h, 2);
                lemma_index_decode(i as int, j as int, w, h, 3);
                assert((h - 1 - j as int) * w * 4 + i as int * 4 + 3 < 4 * w * h)
                    by (nonlinear_arith)
                    requires
                        0 <= (i as int) && (i as int) < w,
                        0 <= (j as int) && (j as int) < h,
                ;
            }
            let index = ((height - j - 1) * width * 4) + (i * 4);

            let ghost before = canvas@;
            canvas[index] = quantize(col.x);
            canvas[index + 1] = quantize(col.y);
            canvas[index + 2] = quantize(col.z);
            canvas[index + 3] = 255;

            proof {
                let ghost kbase = 4 * ((h - 1 - j as int) * w + i as int);
                assert(index as int == kbase);
                assert forall|k: int| 0 <= k < s0.len() implies canvas@[k] == scanned_byte(
                    s0,
                    w,
                    h,
                    j as int,
                    i as int + 1,
                    k,
                ) by {
                    if kbase <= k < kbase + 4 {
                        lemma_fundamental_div_mod_converse(k, 4, kbase / 4, k - kbase);
                    } else {
                        assert(canvas@[k] == before[k]);
                        if 0 <= k < 4 * w * h {
                            lemma_cell_decode(w, h, k);
                        }
                    }
                }
            }
            i = i + 1;
        }
        proof {
            assert forall|k: int| 0 <= k < s0.len() implies scanned_byte(
                s0,
                w,
                h,
                j as int,
                width as int,
                k,
            ) == scanned_byte(s0, w, h, j as int + 1, 0, k) by {
                if 0 <= k < 4 * w * h {
                    lemma_cell_decode(w, h, k);
                }
            }
        }
        j = j + 1;
    }
    proof {
        assert forall|k: int| 0 <= k < s0.len() implies canvas@[k] == painted_spec(s0, w, h)[k] by {
            if 0 <= k < 4 * w * h {
                lemma_cell_decode(w, h, k);
            }
        }
        assert(canvas@ =~= painted_spec(s0, w, h));
    }
}

/// Every pixel painted is fully opaque: each fourth byte of the painted
/// region is 255.
pub proof fn lemma_painted_alpha_opaque(s: Seq<u8>, w: int, h: int, k: int)
    requires
        0 <= k < 4 * w * h,
        k < s.len(),
        k % 4 == 3,
    ensures
        painted_spec(s, w, h)[k] == 255,
{
}

/// What a paint pass writes depends on the dimensions alone: over buffers
/// of one length, every painted byte comes out the same whatever the
/// buffers held, and identical buffers repaint to identical buffers.
pub proof fn lemma_paint_deterministic(s1: Seq<u8>, s2: Seq<u8>, w: int, h: int)
    requires
        s1.len() == s2.len(),
    ensures
        forall|k: int|
            0 <= k < 4 * w * h && k < s1.len() ==> painted_spec(s1, w, h)[k] == painted_spec(
                s2,
                w,
                h,
            )[k],
        s1 == s2 ==> painted_spec(s1, w, h) == painted_spec(s2, w, h),
{
}

} // verus!
