//! Fixed-point arithmetic shared by the whole simulation.
//!
//! Lengths, speeds, sizes and hit points are `i32` values counted in
//! thousandths of a unit. Intermediate results are computed in `i128`, where
//! no product of the simulation can overflow, and brought back into `i32` by
//! saturation.

use vstd::prelude::*;

verus! {

/// One whole unit, in thousandths.
pub const SCALE: i32 = 1000;

/// One second, in microseconds.
pub const SECOND: u32 = 1_000_000;

/// `v` brought into the range of `i32`.
pub open spec fn sat32(v: int) -> int {
    if v < i32::MIN {
        i32::MIN as int
    } else if v > i32::MAX {
        i32::MAX as int
    } else {
        v
    }
}

/// `v` brought into the range of `i64`.
pub open spec fn sat64(v: int) -> int {
    if v < i64::MIN {
        i64::MIN as int
    } else if v > i64::MAX {
        i64::MAX as int
    } else {
        v
    }
}

/// `a / b` rounded toward zero, for a positive `b`.
pub open spec fn quot(a: int, b: int) -> int {
    if a >= 0 {
        a / b
    } else {
        -((-a) / b)
    }
}

/// The smaller of two integers.
pub open spec fn min_int(a: int, b: int) -> int {
    if a <= b {
        a
    } else {
        b
    }
}

/// The larger of two integers.
pub open spec fn max_int(a: int, b: int) -> int {
    if a >= b {
        a
    } else {
        b
    }
}

/// The size of a number, whatever its sign.
pub open spec fn abs_int(v: int) -> int {
    if v < 0 {
        -v
    } else {
        v
    }
}

/// `r` is the integer square root of `n`, rounded down.
pub open spec fn is_sqrt_floor(n: int, r: int) -> bool {
    0 <= r && r * r <= n && n < (r + 1) * (r + 1)
}

/// The integer square root of `n`, rounded down (for `n >= 0`).
pub open spec fn sqrt_floor(n: int) -> int {
    choose|r: int| is_sqrt_floor(n, r)
}

/// A number has at most one rounded-down square root.
pub proof fn lemma_sqrt_floor_unique(n: int, a: int, b: int)
    requires
        is_sqrt_floor(n, a),
        is_sqrt_floor(n, b),
    ensures
        a == b,
{
    if a < b {
        assert((a + 1) * (a + 1) <= b * b) by (nonlinear_arith)
            requires
                0 <= a,
                a + 1 <= b,
        ;
    } else if b < a {
        assert((b + 1) * (b + 1) <= a * a) by (nonlinear_arith)
            requires
                0 <= b,
                b + 1 <= a,
        ;
    }
}

/// A quotient rounded toward zero lies between zero and the dividend.
pub proof fn lemma_quot_bounds(a: int, b: int)
    requires
        b > 0,
    ensures
        a >= 0 ==> 0 <= quot(a, b) <= a,
        a <= 0 ==> a <= quot(a, b) <= 0,
{
    if a >= 0 {
        assert(0 <= a / b <= a) by (nonlinear_arith)
            requires
                a >= 0,
                b >= 1,
        ;
    } else {
        assert(0 <= (-a) / b <= -a) by (nonlinear_arith)
            requires
                -a >= 0,
                b >= 1,
        ;
    }
}

/// Every number that is not negative has a rounded-down square root, and
/// `sqrt_floor` is it.
pub proof fn lemma_sqrt_floor_exists(n: int)
    requires
        n >= 0,
    ensures
        is_sqrt_floor(n, sqrt_floor(n)),
    decreases n,
{
    if n == 0 {
        assert(is_sqrt_floor(0, 0));
    } else {
        lemma_sqrt_floor_exists(n - 1);
        let r = sqrt_floor(n - 1);
        if (r + 1) * (r + 1) <= n {
            assert(n < (r + 2) * (r + 2)) by (nonlinear_arith)
                requires
                    n - 1 < (r + 1) * (r + 1),
                    r >= 0,
            ;
            assert(is_sqrt_floor(n, r + 1));
        } else {
            assert(is_sqrt_floor(n, r));
        }
    }
}

/// The rounded-down square root of a number is at least as large as any
/// number whose square is no larger.
pub proof fn lemma_sqrt_floor_at_least(m: int, a: int)
    requires
        a >= 0,
        a * a <= m,
    ensures
        sqrt_floor(m) >= a,
{
    assert(a * a >= 0) by (nonlinear_arith);
    lemma_sqrt_floor_exists(m);
    let r = sqrt_floor(m);
    assert(r >= a) by (nonlinear_arith)
        requires
            r >= 0,
            a >= 0,
            a * a <= m,
            m < (r + 1) * (r + 1),
    ;
}

/// The rounded-down square root of a sum of two squares is at least as
/// large as either number, whatever its sign.
pub proof fn lemma_sqrt_floor_spans(dx: int, dy: int)
    ensures
        sqrt_floor(dx * dx + dy * dy) >= dx,
        sqrt_floor(dx * dx + dy * dy) >= -dx,
        sqrt_floor(dx * dx + dy * dy) >= dy,
        sqrt_floor(dx * dx + dy * dy) >= -dy,
        sqrt_floor(dx * dx + dy * dy) >= 0,
        sqrt_floor(dx * dx + dy * dy) == 0 <==> dx == 0 && dy == 0,
{
    let n = dx * dx + dy * dy;
    assert(dx * dx >= 0 && dy * dy >= 0) by (nonlinear_arith);
    lemma_sqrt_floor_exists(n);
    let r = sqrt_floor(n);
    assert(r >= dx && r >= -dx) by (nonlinear_arith)
        requires
            r >= 0,
            dx * dx <= n,
            n < (r + 1) * (r + 1),
    ;
    assert(r >= dy && r >= -dy) by (nonlinear_arith)
        requires
            r >= 0,
            dy * dy <= n,
            n < (r + 1) * (r + 1),
    ;
    if dx == 0 && dy == 0 {
        assert(is_sqrt_floor(0, 0));
        lemma_sqrt_floor_unique(n, r, 0);
    }
}

/// Saturating conversion into `i32`.
pub fn saturate(v: i128) -> (r: i32)
    ensures
        r == sat32(v as int),
{
    if v < i32::MIN as i128 {
        i32::MIN
    } else if v > i32::MAX as i128 {
        i32::MAX
    } else {
        v as i32
    }
}

/// Saturating conversion into `i64`.
pub fn saturate64(v: i128) -> (r: i64)
    ensures
        r == sat64(v as int),
{
    if v < i64::MIN as i128 {
        i64::MIN
    } else if v > i64::MAX as i128 {
        i64::MAX
    } else {
        v as i64
    }
}

/// The product of two numbers, which always fits.
pub fn wide(a: i64, b: i64) -> (r: i128)
    ensures
        r == a * b,
{
    assert(-0x4000_0000_0000_0000_0000_0000_0000_0000 <= a * b
        <= 0x4000_0000_0000_0000_0000_0000_0000_0000) by (nonlinear_arith)
        requires
            -0x8000_0000_0000_0000 <= a <= 0x7fff_ffff_ffff_ffff,
            -0x8000_0000_0000_0000 <= b <= 0x7fff_ffff_ffff_ffff,
    ;
    (a as i128) * (b as i128)
}

/// The product of a number and a time, which always fits.
pub fn times(a: i32, dt: u32) -> (r: i64)
    ensures
        r == a * dt,
{
    assert(-0x8000_0000_0000_0000 <= a * dt <= 0x7fff_ffff_ffff_ffff) by (nonlinear_arith)
        requires
            -0x8000_0000 <= a <= 0x7fff_ffff,
            0 <= dt <= 0xffff_ffff,
    ;
    (a as i64) * (dt as i64)
}

/// The sum of two squares, which always fits.
pub fn norm_squared(dx: i64, dy: i64) -> (r: u128)
    ensures
        r == dx * dx + dy * dy,
{
    assert(0 <= dx * dx <= 0x4000_0000_0000_0000_0000_0000_0000_0000) by (nonlinear_arith)
        requires
            -0x8000_0000_0000_0000 <= dx <= 0x7fff_ffff_ffff_ffff,
    ;
    assert(0 <= dy * dy <= 0x4000_0000_0000_0000_0000_0000_0000_0000) by (nonlinear_arith)
        requires
            -0x8000_0000_0000_0000 <= dy <= 0x7fff_ffff_ffff_ffff,
    ;
    let x: i128 = dx as i128;
    let y: i128 = dy as i128;
    let xx: u128 = (x * x) as u128;
    let yy: u128 = (y * y) as u128;
    xx + yy
}

/// Division rounded toward zero.
pub fn quotient(a: i128, b: i128) -> (q: i128)
    requires
        b > 0,
    ensures
        q == quot(a as int, b as int),
        a >= 0 ==> 0 <= q <= a,
        a <= 0 ==> a <= q <= 0,
{
    proof {
        lemma_quot_bounds(a as int, b as int);
    }
    a / b
}

/// `v / d` rounded up, for positive `v` and `d`: the least number of
/// which `d` times is at least `v`.
pub fn div_up(v: i32, d: i32) -> (q: i32)
    requires
        v > 0,
        d > 0,
    ensures
        d * (q - 1) < v <= d * q,
        0 < q <= v,
{
    let whole: i32 = v / d;
    let rest: i32 = v % d;
    proof {
        vstd::arithmetic::div_mod::lemma_fundamental_div_mod(v as int, d as int);
        assert(0 <= whole <= v) by (nonlinear_arith)
            requires
                v == d * whole + rest,
                0 <= rest < d,
                v > 0,
                d > 0,
        ;
        assert(d * (whole + 1) == d * whole + d) by (nonlinear_arith);
        assert(d * (whole - 1) == d * whole - d) by (nonlinear_arith);
        if rest != 0 {
            assert(whole + 1 <= v) by (nonlinear_arith)
                requires
                    v == d * whole + rest,
                    0 < rest < d,
                    whole >= 0,
            ;
        } else {
            assert(whole >= 1) by (nonlinear_arith)
                requires
                    v == d * whole,
                    v > 0,
                    d > 0,
            ;
        }
    }
    if rest == 0 {
        whole
    } else {
        whole + 1
    }
}

/// Integer square root, rounded down.
pub fn isqrt(n: u128) -> (r: u64)
    ensures
        is_sqrt_floor(n as int, r as int),
        r == sqrt_floor(n as int),
{
    let mut lo: u128 = 0;
    let mut hi: u128 = 0x1_0000_0000_0000_0000;
    assert(n < hi * hi) by (nonlinear_arith)
        requires
            n <= u128::MAX,
            hi == 0x1_0000_0000_0000_0000,
    ;
    while hi - lo > 1
        invariant
            lo < hi <= 0x1_0000_0000_0000_0000,
            lo * lo <= n,
            n < hi * hi,
        decreases hi - lo,
    {
        let mid: u128 = lo + (hi - lo) / 2;
        assert(mid * mid <= u128::MAX) by (nonlinear_arith)
            requires
                mid < 0x1_0000_0000_0000_0000,
        ;
        if mid * mid <= n {
            lo = mid;
        } else {
            hi = mid;
        }
    }
    proof {
        let w: int = sqrt_floor(n as int);
        assert(is_sqrt_floor(n as int, lo as int));
        lemma_sqrt_floor_unique(n as int, w, lo as int);
    }
    lo as u64
}

} // verus!
