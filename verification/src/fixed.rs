//! Q16.16 fixed-point scalars.
//!
//! A scalar is a signed 64-bit raw value counting 1/65536ths of a unit, so
//! the raw value 65536 stands for one unit. Products and quotients are
//! truncated toward zero, as the hardware would truncate them; the square
//! root rounds down. Division by zero is total and yields zero, the closest
//! a fixed-point scalar comes to the undefined quotient.

use vstd::prelude::*;
use vstd::arithmetic::div_mod::lemma_div_is_ordered;

verus! {

/// The raw value that stands for one unit.
pub const ONE: i64 = 65536;

/// Magnitude of a mathematical integer.
pub open spec fn mag(a: int) -> int {
    if a >= 0 {
        a
    } else {
        -a
    }
}

/// Raw value of the product of two scalars: the exact product scaled back
/// down, truncated toward zero.
pub open spec fn fx_mul_spec(a: int, b: int) -> int {
    let q: int = (mag(a) * mag(b)) / 65536;
    if (a < 0) != (b < 0) {
        -q
    } else {
        q
    }
}

/// Raw value of the quotient of two scalars, truncated toward zero; a zero
/// divisor yields zero.
pub open spec fn fx_div_spec(a: int, b: int) -> int {
    if b == 0 {
        0
    } else {
        let q: int = (mag(a) * 65536) / mag(b);
        if (a < 0) != (b < 0) {
            -q
        } else {
            q
        }
    }
}

/// `r` is the square root of `n` rounded down.
pub open spec fn is_sqrt_floor(n: int, r: int) -> bool {
    0 <= r && r * r <= n && n < (r + 1) * (r + 1)
}

/// The square root of `n` rounded down (meaningful for `n >= 0`, see
/// `lemma_sqrt_floor_exists`).
pub open spec fn sqrt_floor(n: int) -> int {
    choose|r: int| is_sqrt_floor(n, r)
}

/// Every nonnegative integer has a rounded-down square root.
pub proof fn lemma_sqrt_floor_exists(n: int)
    requires
        0 <= n,
    ensures
        is_sqrt_floor(n, sqrt_floor(n)),
    decreases n,
{
    if n == 0 {
        assert(is_sqrt_floor(0, 0)) by (nonlinear_arith);
        assert(sqrt_floor(0) == choose|r: int| is_sqrt_floor(0, r));
    } else {
        lemma_sqrt_floor_exists(n - 1);
        let r = sqrt_floor(n - 1);
        if n < (r + 1) * (r + 1) {
            assert(is_sqrt_floor(n, r));
        } else {
            assert(n == (r + 1) * (r + 1));
            assert(is_sqrt_floor(n, r + 1)) by (nonlinear_arith)
                requires
                    0 <= r,
                    n == (r + 1) * (r + 1),
            ;
        }
    }
}

/// The rounded-down square root is unique.
pub proof fn lemma_sqrt_floor_unique(n: int, r: int)
    requires
        is_sqrt_floor(n, r),
    ensures
        r == sqrt_floor(n),
{
    assert(0 <= n) by (nonlinear_arith)
        requires
            0 <= r && r * r <= n,
    ;
    lemma_sqrt_floor_exists(n);
    let s = sqrt_floor(n);
    assert(r == s) by (nonlinear_arith)
        requires
            0 <= r && r * r <= n && n < (r + 1) * (r + 1),
            0 <= s && s * s <= n && n < (s + 1) * (s + 1),
    ;
}

/// The rounded-down square root never exceeds a root of an upper bound.
pub proof fn lemma_sqrt_floor_le(n: int, b: int)
    requires
        0 <= n,
        0 <= b,
        n <= b * b,
    ensures
        sqrt_floor(n) <= b,
{
    lemma_sqrt_floor_exists(n);
    let r = sqrt_floor(n);
    assert(r <= b) by (nonlinear_arith)
        requires
            0 <= r && r * r <= n && n < (r + 1) * (r + 1),
            0 <= b,
            n <= b * b,
    ;
}

/// The rounded-down square root never falls below a root of a lower bound.
pub proof fn lemma_sqrt_floor_ge(n: int, b: int)
    requires
        0 <= b,
        b * b <= n,
    ensures
        b <= sqrt_floor(n),
{
    assert(0 <= n) by (nonlinear_arith)
        requires
            0 <= b && b * b <= n,
    ;
    lemma_sqrt_floor_exists(n);
    let r = sqrt_floor(n);
    assert(b <= r) by (nonlinear_arith)
        requires
            0 <= r && r * r <= n && n < (r + 1) * (r + 1),
            0 <= b,
            b * b <= n,
    ;
}

/// Raw value of the square root of a nonnegative scalar, rounded down.
pub open spec fn fx_sqrt_spec(a: int) -> int {
    sqrt_floor(a * 65536)
}

/// The signed product written through the magnitudes of its factors.
proof fn lemma_mul_sign_mag(a: int, b: int) by (nonlinear_arith)
    ensures
        a * b == if (a < 0) == (b < 0) {
            mag(a) * mag(b)
        } else {
            -(mag(a) * mag(b))
        },
{
}

/// A product of scalars no larger in magnitude than `m` and `n` is no larger
/// in magnitude than their scaled-down product.
pub proof fn lemma_fx_mul_bound(a: int, b: int, m: int, n: int)
    requires
        mag(a) <= m,
        mag(b) <= n,
    ensures
        mag(fx_mul_spec(a, b)) <= (m * n) / 65536,
{
    let p = mag(a) * mag(b);
    assert(0 <= p && p <= m * n) by (nonlinear_arith)
        requires
            p == mag(a) * mag(b),
            0 <= mag(a) <= m,
            0 <= mag(b) <= n,
    ;
    lemma_div_is_ordered(p, m * n, 65536);
    assert(0 <= p / 65536) by (nonlinear_arith)
        requires
            0 <= p,
    ;
}

/// A quotient of scalars is no larger in magnitude than the dividend scaled
/// up by one unit.
pub proof fn lemma_fx_div_bound(a: int, b: int)
    ensures
        mag(fx_div_spec(a, b)) <= mag(a) * 65536,
{
    if b != 0 {
        let p = mag(a) * 65536;
        assert(0 <= p / mag(b) <= p) by (nonlinear_arith)
            requires
                0 <= p,
                1 <= mag(b),
        ;
    }
}

/// Product of two scalars.
pub fn fx_mul(a: i64, b: i64) -> (r: i64)
    requires
        -0x7fff_ffff_ffff_ffff <= fx_mul_spec(a as int, b as int) <= 0x7fff_ffff_ffff_ffff,
    ensures
        r as int == fx_mul_spec(a as int, b as int),
{
    proof {
        lemma_mul_sign_mag(a as int, b as int);
    }
    let am: u128 = if a >= 0 {
        a as u128
    } else {
        (-(a as i128)) as u128
    };
    let bm: u128 = if b >= 0 {
        b as u128
    } else {
        (-(b as i128)) as u128
    };
    proof {
        assert(am * bm <= 0x4000_0000_0000_0000_0000_0000_0000_0000) by (nonlinear_arith)
            requires
                am <= 0x8000_0000_0000_0000,
                bm <= 0x8000_0000_0000_0000,
        ;
    }
    let q: u128 = (am * bm) / 65536;
    if (a < 0) != (b < 0) {
        -(q as i64)
    } else {
        q as i64
    }
}

/// Quotient of two scalars; a zero divisor yields zero.
pub fn fx_div(a: i64, b: i64) -> (r: i64)
    requires
        -0x7fff_ffff_ffff_ffff <= fx_div_spec(a as int, b as int) <= 0x7fff_ffff_ffff_ffff,
    ensures
        r as int == fx_div_spec(a as int, b as int),
{
    if b == 0 {
        return 0;
    }
    let am: u128 = if a >= 0 {
        a as u128
    } else {
        (-(a as i128)) as u128
    };
    let bm: u128 = if b >= 0 {
        b as u128
    } else {
        (-(b as i128)) as u128
    };
    proof {
        assert(am * 65536 < 0x4000_0000_0000_0000_0000_0000_0000_0000) by (nonlinear_arith)
            requires
                am <= 0x8000_0000_0000_0000,
        ;
    }
    let q: u128 = (am * 65536) / bm;
    if (a < 0) != (b < 0) {
        -(q as i64)
    } else {
        q as i64
    }
}

/// Square root of a nonnegative number, rounded down.
///
/// Binary search over the root: the square of the midpoint never leaves
/// 128 bits because the upper end starts at two to the 63rd.
pub(crate) fn isqrt(n: u128) -> (r: u128)
    requires
        n < 0x4000_0000_0000_0000_0000_0000_0000_0000,
    ensures
        is_sqrt_floor(n as int, r as int),
        r as int == sqrt_floor(n as int),
{
    let mut lo: u128 = 0;
    let mut hi: u128 = 0x8000_0000_0000_0000;
    proof {
        assert((hi as int) * (hi as int) == 0x4000_0000_0000_0000_0000_0000_0000_0000int)
            by (nonlinear_arith)
            requires
                hi == 0x8000_0000_0000_0000u128,
        ;
    }
    while lo + 1 < hi
        invariant
            lo < hi,
            hi <= 0x8000_0000_0000_0000,
            (lo as int) * (lo as int) <= n as int,
            (n as int) < (hi as int) * (hi as int),
        decreases hi - lo,
    {
        let mid: u128 = lo + (hi - lo) / 2;
        proof {
            assert(mid * mid < 0xffff_ffff_ffff_ffff_ffff_ffff_ffff_ffff) by (nonlinear_arith)
                requires
                    mid < 0x1_0000_0000_0000_0000u128,
            ;
        }
        if mid * mid <= n {
            lo = mid;
        } else {
            hi = mid;
        }
    }
    proof {
        lemma_sqrt_floor_unique(n as int, lo as int);
    }
    lo
}

/// Square root of a nonnegative scalar, rounded down.
pub fn fx_sqrt(a: i64) -> (r: i64)
    requires
        0 <= a,
    ensures
        r as int == fx_sqrt_spec(a as int),
        0 <= r,
{
    let n: u128 = (a as u128) * 65536;
    let r = isqrt(n);
    proof {
        assert(r <= 0x200_0000_0000) by (nonlinear_arith)
            requires
                (r as int) * (r as int) <= n as int,
                n <= 0x8000_0000_0000_0000_0000u128,
                0 <= r as int,
        ;
    }
    r as i64
}

/// Byte value of a color channel: the channel scaled by just under 256 and
/// truncated. Channels below zero or above one unit are pinned to the byte
/// range, as a hardware conversion would pin them.
pub open spec fn quantize_spec(c: int) -> int {
    if c <= 0 {
        0
    } else {
        let q: int = (c * 16776560) / 4294967296;
        if q > 255 {
            255
        } else {
            q
        }
    }
}

/// Byte value of a color channel.
pub fn quantize(c: i64) -> (r: u8)
    ensures
        r as int == quantize_spec(c as int),
{
    if c <= 0 {
        0
    } else {
        let q: u128 = ((c as u128) * 16776560) / 4294967296;
        if q > 255 {
            255
        } else {
            q as u8
        }
    }
}

} // verus!
