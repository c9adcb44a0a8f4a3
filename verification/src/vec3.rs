//! Three-component vectors over Q16.16 fixed-point scalars.
//!
//! A vector is viewed as the triple of the mathematical values of its raw
//! components; every operation's contract states the result exactly over
//! that view.

use vstd::prelude::*;
use vstd::arithmetic::div_mod::lemma_fundamental_div_mod;
use crate::fixed::{
    fx_div, fx_div_spec, fx_mul, fx_mul_spec, fx_sqrt_spec, is_sqrt_floor, lemma_fx_mul_bound,
    lemma_sqrt_floor_exists, mag,
};

verus! {

/// A point or direction in space, one Q16.16 scalar per axis.
#[derive(Clone, Copy, Debug, PartialEq, Eq, Structural)]
pub struct Vec3 {
    pub x: i64,
    pub y: i64,
    pub z: i64,
}

impl View for Vec3 {
    type V = (int, int, int);

    open spec fn view(&self) -> (int, int, int) {
        (self.x as int, self.y as int, self.z as int)
    }
}

/// Every component is at most `m` in magnitude.
pub open spec fn bounded(v: (int, int, int), m: int) -> bool {
    mag(v.0) <= m && mag(v.1) <= m && mag(v.2) <= m
}

/// The widest component range the length computation accepts.
pub open spec fn wide(v: (int, int, int)) -> bool {
    bounded(v, 0x4000_0000_0000_0000)
}

/// Component-wise sum.
pub open spec fn vadd_spec(a: (int, int, int), b: (int, int, int)) -> (int, int, int) {
    (a.0 + b.0, a.1 + b.1, a.2 + b.2)
}

/// Component-wise difference.
pub open spec fn vsub_spec(a: (int, int, int), b: (int, int, int)) -> (int, int, int) {
    (a.0 - b.0, a.1 - b.1, a.2 - b.2)
}

/// Every component scaled by `s`.
pub open spec fn scale_spec(v: (int, int, int), s: int) -> (int, int, int) {
    (fx_mul_spec(v.0, s), fx_mul_spec(v.1, s), fx_mul_spec(v.2, s))
}

/// Every component divided by `s`.
pub open spec fn vdiv_spec(v: (int, int, int), s: int) -> (int, int, int) {
    (fx_div_spec(v.0, s), fx_div_spec(v.1, s), fx_div_spec(v.2, s))
}

/// Inner product: the sum of the component products.
pub open spec fn dot_spec(a: (int, int, int), b: (int, int, int)) -> int {
    fx_mul_spec(a.0, b.0) + fx_mul_spec(a.1, b.1) + fx_mul_spec(a.2, b.2)
}

/// Squared length of a vector.
pub open spec fn norm2_spec(v: (int, int, int)) -> int {
    dot_spec(v, v)
}

/// Length of a vector: the rounded-down square root of its squared length.
pub open spec fn length_spec(v: (int, int, int)) -> int {
    fx_sqrt_spec(norm2_spec(v))
}

/// The vector scaled to unit length. A vector whose length rounds down to
/// zero normalizes to the zero vector, the scalar type's stand-in for the
/// undefined quotient.
pub open spec fn unit_spec(v: (int, int, int)) -> (int, int, int) {
    vdiv_spec(v, length_spec(v))
}

/// The square of a scalar is nonnegative.
pub proof fn lemma_fx_square_nonneg(c: int)
    ensures
        0 <= fx_mul_spec(c, c),
{
    let p = mag(c) * mag(c);
    assert(0 <= p) by (nonlinear_arith)
        requires
            p == mag(c) * mag(c),
    ;
    assert(0 <= p / 65536) by (nonlinear_arith)
        requires
            0 <= p,
    ;
}

/// The product of two scalars does not depend on their order.
pub proof fn lemma_fx_mul_commutative(a: int, b: int)
    ensures
        fx_mul_spec(a, b) == fx_mul_spec(b, a),
{
    assert(mag(a) * mag(b) == mag(b) * mag(a)) by (nonlinear_arith);
}

/// The dot product does not depend on the order of its arguments.
pub proof fn lemma_dot_commutative(a: Vec3, b: Vec3)
    ensures
        dot_spec(a@, b@) == dot_spec(b@, a@),
{
    lemma_fx_mul_commutative(a@.0, b@.0);
    lemma_fx_mul_commutative(a@.1, b@.1);
    lemma_fx_mul_commutative(a@.2, b@.2);
}

/// Bound on a dot product from bounds on its arguments.
pub proof fn lemma_dot_bound(a: (int, int, int), b: (int, int, int), m: int, n: int)
    requires
        bounded(a, m),
        bounded(b, n),
    ensures
        mag(fx_mul_spec(a.0, b.0)) <= (m * n) / 65536,
        mag(fx_mul_spec(a.1, b.1)) <= (m * n) / 65536,
        mag(fx_mul_spec(a.2, b.2)) <= (m * n) / 65536,
        mag(dot_spec(a, b)) <= 3 * ((m * n) / 65536),
{
    lemma_fx_mul_bound(a.0, b.0, m, n);
    lemma_fx_mul_bound(a.1, b.1, m, n);
    lemma_fx_mul_bound(a.2, b.2, m, n);
}

/// A component divided by the vector's length stays within two units of the
/// scalar one: the rounded-down length never falls more than two below the
/// largest component's magnitude.
proof fn lemma_unit_component_bound(c: int, n2: int, l: int)
    requires
        0 <= n2,
        fx_mul_spec(c, c) <= n2,
        is_sqrt_floor(n2 * 65536, l),
    ensures
        mag(fx_div_spec(c, l)) <= 0x8000_0000,
{
    let m = mag(c);
    if l != 0 {
        let q = (m * 65536) / l;
        assert(0 <= q && q * l <= m * 65536) by {
            lemma_fundamental_div_mod(m * 65536, l);
            assert(0 <= q && l * q <= m * 65536) by (nonlinear_arith)
                requires
                    m * 65536 == l * ((m * 65536) / l) + (m * 65536) % l,
                    q == (m * 65536) / l,
                    0 <= (m * 65536) % l,
                    0 <= m,
                    1 <= l,
            ;
        };
        if m <= 32768 {
            assert(q <= m * 65536) by (nonlinear_arith)
                requires
                    0 <= q,
                    q * l <= m * 65536,
                    1 <= l,
            ;
        } else {
            assert(fx_mul_spec(c, c) == (m * m) / 65536);
            assert((m * m) / 65536 * 65536 > m * m - 65536) by {
                lemma_fundamental_div_mod(m * m, 65536);
            };
            assert(n2 * 65536 >= fx_mul_spec(c, c) * 65536) by (nonlinear_arith)
                requires
                    fx_mul_spec(c, c) <= n2,
            ;
            assert((l + 1) * (l + 1) > m * m - 65536);
            assert(l >= m - 2) by (nonlinear_arith)
                requires
                    (l + 1) * (l + 1) > m * m - 65536,
                    m >= 32769,
                    l >= 0,
            ;
            assert(q <= 65542) by (nonlinear_arith)
                requires
                    0 <= q,
                    q * l <= m * 65536,
                    l >= m - 2,
                    m >= 32769,
            ;
        }
    }
}

/// For `q` the scaled quotient of `m` by `l`, the squares of `q` and
/// `q + 1` bracket the square of the exact quotient.
proof fn lemma_scaled_sq_bounds(m: int, l: int)
    requires
        0 <= m,
        1 <= l,
    ensures
        ({
            let q = (m * 65536) / l;
            0 <= q && q * q * (l * l) <= (m * m) * 4294967296 && (m * m) * 4294967296 < (q + 1) * (
            q + 1) * (l * l)
        }),
{
    let q = (m * 65536) / l;
    lemma_fundamental_div_mod(m * 65536, l);
    vstd::arithmetic::div_mod::lemma_mod_bound(m * 65536, l);
    assert(0 <= q && q * l <= m * 65536 && m * 65536 < (q + 1) * l) by (nonlinear_arith)
        requires
            m * 65536 == l * q + (m * 65536) % l,
            0 <= (m * 65536) % l < l,
            0 <= m,
            1 <= l,
    ;
    assert(q * q * (l * l) <= (m * m) * 4294967296) by (nonlinear_arith)
        requires
            0 <= q,
            0 <= l,
            0 <= m,
            q * l <= m * 65536,
    ;
    assert((m * m) * 4294967296 < (q + 1) * (q + 1) * (l * l)) by (nonlinear_arith)
        requires
            0 <= m,
            1 <= l,
            0 <= q,
            m * 65536 < (q + 1) * l,
    ;
}

/// Normalization law: a normalized vector has length one, within the
/// scalar's rounding slack. For every vector at least one unit long, the
/// length of its normalization is within 16 raw steps (1/4096 of a unit)
/// of one unit. Vectors shorter than one unit lose too much to rounding
/// for such a bound — the zero vector above all, which normalizes to the
/// zero vector of length zero.
pub proof fn lemma_unit_length_near_one(v: Vec3)
    requires
        65536 <= length_spec(v@),
    ensures
        mag(length_spec(unit_spec(v@)) - 65536) <= 16,
{
    let t = v@;
    let m0 = mag(t.0);
    let m1 = mag(t.1);
    let m2 = mag(t.2);
    let s = m0 * m0 + m1 * m1 + m2 * m2;
    let n2 = norm2_spec(t);
    let l = length_spec(t);

    // The squared length in scalar form sits within three rounding steps
    // of the exact sum of squares.
    lemma_fundamental_div_mod(m0 * m0, 65536);
    lemma_fundamental_div_mod(m1 * m1, 65536);
    lemma_fundamental_div_mod(m2 * m2, 65536);
    assert(fx_mul_spec(t.0, t.0) == (m0 * m0) / 65536);
    assert(fx_mul_spec(t.1, t.1) == (m1 * m1) / 65536);
    assert(fx_mul_spec(t.2, t.2) == (m2 * m2) / 65536);
    assert(s - 196608 < n2 * 65536 <= s);

    lemma_fx_square_nonneg(t.0);
    lemma_fx_square_nonneg(t.1);
    lemma_fx_square_nonneg(t.2);
    lemma_sqrt_floor_exists(n2 * 65536);
    assert(l * l <= n2 * 65536 < (l + 1) * (l + 1));
    assert(l * l <= s);
    assert(s < (l + 1) * (l + 1) + 196608);

    // The normalized components are the scaled quotients by the length.
    let q0 = (m0 * 65536) / l;
    let q1 = (m1 * 65536) / l;
    let q2 = (m2 * 65536) / l;
    lemma_scaled_sq_bounds(m0, l);
    lemma_scaled_sq_bounds(m1, l);
    lemma_scaled_sq_bounds(m2, l);
    let u = unit_spec(t);
    assert(mag(u.0) == q0);
    assert(mag(u.1) == q1);
    assert(mag(u.2) == q2);

    let sq = q0 * q0 + q1 * q1 + q2 * q2;

    // Upper bound: the squared quotients cannot overshoot the exact ratio
    // by more than the division slack.
    assert(sq * (l * l) <= s * 4294967296) by (nonlinear_arith)
        requires
            sq == q0 * q0 + q1 * q1 + q2 * q2,
            s == m0 * m0 + m1 * m1 + m2 * m2,
            q0 * q0 * (l * l) <= (m0 * m0) * 4294967296,
            q1 * q1 * (l * l) <= (m1 * m1) * 4294967296,
            q2 * q2 * (l * l) <= (m2 * m2) * 4294967296,
    ;
    assert(sq <= 4296015872) by (nonlinear_arith)
        requires
            sq * (l * l) <= s * 4294967296,
            s < (l + 1) * (l + 1) + 196608,
            65536 <= l,
            0 <= sq,
    ;

    // Lower bound: rounding each quotient down costs less than one step
    // per component.
    assert((q0 + 1) * (q0 + 1) * (l * l) + (q1 + 1) * (q1 + 1) * (l * l) + (q2 + 1) * (q2 + 1) * (l
        * l) > s * 4294967296) by (nonlinear_arith)
        requires
            s == m0 * m0 + m1 * m1 + m2 * m2,
            (m0 * m0) * 4294967296 < (q0 + 1) * (q0 + 1) * (l * l),
            (m1 * m1) * 4294967296 < (q1 + 1) * (q1 + 1) * (l * l),
            (m2 * m2) * 4294967296 < (q2 + 1) * (q2 + 1) * (l * l),
    ;
    assert((q0 + 1) * (q0 + 1) + (q1 + 1) * (q1 + 1) + (q2 + 1) * (q2 + 1) > 4294967296)
        by (nonlinear_arith)
        requires
            (q0 + 1) * (q0 + 1) * (l * l) + (q1 + 1) * (q1 + 1) * (l * l) + (q2 + 1) * (q2 + 1) * (
            l * l) > s * 4294967296,
            l * l <= s,
            1 <= l,
    ;
    assert(q0 <= 65543 && q1 <= 65543 && q2 <= 65543) by (nonlinear_arith)
        requires
            0 <= q0 && 0 <= q1 && 0 <= q2,
            q0 * q0 + q1 * q1 + q2 * q2 <= 4296015872,
    ;
    assert((q0 + 1) * (q0 + 1) + (q1 + 1) * (q1 + 1) + (q2 + 1) * (q2 + 1) == sq + 2 * (q0 + q1
        + q2) + 3) by (nonlinear_arith)
        requires
            sq == q0 * q0 + q1 * q1 + q2 * q2,
    ;
    assert(sq > 4294574035);

    // Back through the scalar square root: the squared length of the
    // normalized vector brackets one unit tightly.
    let n2u = norm2_spec(u);
    lemma_fundamental_div_mod(q0 * q0, 65536);
    lemma_fundamental_div_mod(q1 * q1, 65536);
    lemma_fundamental_div_mod(q2 * q2, 65536);
    assert(fx_mul_spec(u.0, u.0) == (q0 * q0) / 65536);
    assert(fx_mul_spec(u.1, u.1) == (q1 * q1) / 65536);
    assert(fx_mul_spec(u.2, u.2) == (q2 * q2) / 65536);
    assert(sq - 196608 < n2u * 65536 <= sq);
    assert(65527 <= n2u && n2u <= 65552);

    assert(65544 * 65544 == 4296015936) by (nonlinear_arith);
    assert(65531 * 65531 == 4294311961) by (nonlinear_arith);
    crate::fixed::lemma_sqrt_floor_le(n2u * 65536, 65544);
    crate::fixed::lemma_sqrt_floor_ge(n2u * 65536, 65531);
}

impl Vec3 {
    /// Length of the vector.
    pub fn length(self) -> (r: i64)
        requires
            wide(self@),
        ensures
            r as int == length_spec(self@),
            0 <= r,
    {
        let xm: u128 = if self.x >= 0 {
            self.x as u128
        } else {
            (-(self.x as i128)) as u128
        };
        let ym: u128 = if self.y >= 0 {
            self.y as u128
        } else {
            (-(self.y as i128)) as u128
        };
        let zm: u128 = if self.z >= 0 {
            self.z as u128
        } else {
            (-(self.z as i128)) as u128
        };
        proof {
            assert(xm * xm <= 0x1000_0000_0000_0000_0000_0000_0000_0000) by (nonlinear_arith)
                requires
                    xm <= 0x4000_0000_0000_0000u128,
            ;
            assert(ym * ym <= 0x1000_0000_0000_0000_0000_0000_0000_0000) by (nonlinear_arith)
                requires
                    ym <= 0x4000_0000_0000_0000u128,
            ;
            assert(zm * zm <= 0x1000_0000_0000_0000_0000_0000_0000_0000) by (nonlinear_arith)
                requires
                    zm <= 0x4000_0000_0000_0000u128,
            ;
        }
        let tx: u128 = (xm * xm) / 65536;
        let ty: u128 = (ym * ym) / 65536;
        let tz: u128 = (zm * zm) / 65536;
        let s: u128 = tx + ty + tz;
        let n: u128 = s * 65536;
        assert(n as int == norm2_spec(self@) * 65536);
        let r = crate::fixed::isqrt(n);
        proof {
            assert(r as int * (r as int) <= n as int);
            assert(r < 0x8000_0000_0000_0000u128) by (nonlinear_arith)
                requires
                    (r as int) * (r as int) <= n as int,
                    n < 0x4000_0000_0000_0000_0000_0000_0000_0000u128,
                    0 <= r as int,
            ;
        }
        r as i64
    }

    /// Component-wise product with a scalar.
    pub fn fmul(self, rhs: i64) -> (r: Self)
        requires
            -0x7fff_ffff_ffff_ffff <= fx_mul_spec(self@.0, rhs as int) <= 0x7fff_ffff_ffff_ffff,
            -0x7fff_ffff_ffff_ffff <= fx_mul_spec(self@.1, rhs as int) <= 0x7fff_ffff_ffff_ffff,
            -0x7fff_ffff_ffff_ffff <= fx_mul_spec(self@.2, rhs as int) <= 0x7fff_ffff_ffff_ffff,
        ensures
            r@ == scale_spec(self@, rhs as int),
    {
        Self { x: fx_mul(self.x, rhs), y: fx_mul(self.y, rhs), z: fx_mul(self.z, rhs) }
    }

    /// Component-wise quotient by a scalar; a zero divisor yields the zero
    /// vector.
    pub fn fdiv(self, rhs: i64) -> (r: Self)
        requires
            -0x7fff_ffff_ffff_ffff <= fx_div_spec(self@.0, rhs as int) <= 0x7fff_ffff_ffff_ffff,
            -0x7fff_ffff_ffff_ffff <= fx_div_spec(self@.1, rhs as int) <= 0x7fff_ffff_ffff_ffff,
            -0x7fff_ffff_ffff_ffff <= fx_div_spec(self@.2, rhs as int) <= 0x7fff_ffff_ffff_ffff,
        ensures
            r@ == vdiv_spec(self@, rhs as int),
    {
        Self { x: fx_div(self.x, rhs), y: fx_div(self.y, rhs), z: fx_div(self.z, rhs) }
    }

    /// Component-wise sum.
    pub fn vadd(self, rhs: &Vec3) -> (r: Self)
        requires
            -0x8000_0000_0000_0000 <= self@.0 + rhs@.0 <= 0x7fff_ffff_ffff_ffff,
            -0x8000_0000_0000_0000 <= self@.1 + rhs@.1 <= 0x7fff_ffff_ffff_ffff,
            -0x8000_0000_0000_0000 <= self@.2 + rhs@.2 <= 0x7fff_ffff_ffff_ffff,
        ensures
            r@ == vadd_spec(self@, rhs@),
    {
        Self { x: self.x + rhs.x, y: self.y + rhs.y, z: self.z + rhs.z }
    }

    /// Component-wise difference.
    pub fn vsub(self, rhs: &Vec3) -> (r: Self)
        requires
            -0x8000_0000_0000_0000 <= self@.0 - rhs@.0 <= 0x7fff_ffff_ffff_ffff,
            -0x8000_0000_0000_0000 <= self@.1 - rhs@.1 <= 0x7fff_ffff_ffff_ffff,
            -0x8000_0000_0000_0000 <= self@.2 - rhs@.2 <= 0x7fff_ffff_ffff_ffff,
        ensures
            r@ == vsub_spec(self@, rhs@),
    {
        Self { x: self.x - rhs.x, y: self.y - rhs.y, z: self.z - rhs.z }
    }
}

/// Inner product of two vectors.
pub fn dot(v1: &Vec3, v2: &Vec3) -> (r: i64)
    requires
        mag(fx_mul_spec(v1@.0, v2@.0)) + mag(fx_mul_spec(v1@.1, v2@.1)) + mag(
            fx_mul_spec(v1@.2, v2@.2),
        ) <= 0x7fff_ffff_ffff_ffff,
    ensures
        r as int == dot_spec(v1@, v2@),
{
    fx_mul(v1.x, v2.x) + fx_mul(v1.y, v2.y) + fx_mul(v1.z, v2.z)
}

/// The vector scaled to unit length; the zero vector (and any vector whose
/// length rounds down to zero) comes back unchanged as zero.
pub fn unit_vector(v: &Vec3) -> (r: Vec3)
    requires
        wide(v@),
    ensures
        r@ == unit_spec(v@),
        bounded(r@, 0x8000_0000),
{
    let len = v.length();
    proof {
        lemma_fx_square_nonneg(v@.0);
        lemma_fx_square_nonneg(v@.1);
        lemma_fx_square_nonneg(v@.2);
        lemma_sqrt_floor_exists(norm2_spec(v@) * 65536);
        lemma_unit_component_bound(v@.0, norm2_spec(v@), len as int);
        lemma_unit_component_bound(v@.1, norm2_spec(v@), len as int);
        lemma_unit_component_bound(v@.2, norm2_spec(v@), len as int);
    }
    v.fdiv(len)
}

} // verus!
