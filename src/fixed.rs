//! Fixed-point arithmetic shared by the simulation: truncating division,
//! integer square roots, saturation and speed limiting.

use vstd::prelude::*;

verus! {

/// Micro-units in one unit of length (lengths and speeds are held in micro-units).
pub const UNIT: i64 = 1_000_000;

/// Parts per million: the scale of every probability and fraction.
pub const PPM: i64 = 1_000_000;

/// Microseconds in one second.
pub const MICROS: i64 = 1_000_000;

/// The largest magnitude a vector component is saturated to before its length is taken.
pub const COMPONENT_LIMIT: i128 = 0x4000_0000_0000_0000;

/// Division that rounds toward zero, as Rust's integer division does.
pub open spec fn tdiv(a: int, b: int) -> int {
    if a >= 0 {
        a / b
    } else {
        -((-a) / b)
    }
}

/// `x` held to `[-COMPONENT_LIMIT, COMPONENT_LIMIT]`.
pub open spec fn sat(x: int) -> int {
    if x > COMPONENT_LIMIT {
        COMPONENT_LIMIT as int
    } else if x < -COMPONENT_LIMIT {
        -COMPONENT_LIMIT
    } else {
        x
    }
}

/// `r` is the integer square root of `n`, rounded down.
pub open spec fn is_sqrt_floor(n: int, r: int) -> bool {
    0 <= r && r * r <= n < (r + 1) * (r + 1)
}

/// The integer square root of a non-negative `n`, rounded down.
pub open spec fn sqrt_floor(n: int) -> int {
    choose|r: int| is_sqrt_floor(n, r)
}

pub open spec fn norm_sq(x: int, y: int, z: int) -> int {
    x * x + y * y + z * z
}

/// A three-component integer vector.
#[derive(Clone, Copy, Debug, PartialEq, Eq, Structural)]
pub struct Vec3 {
    pub x: i64,
    pub y: i64,
    pub z: i64,
}

/// The integer square root of a non-negative `n`, rounded up.
pub open spec fn sqrt_ceil(n: int) -> int {
    let f = sqrt_floor(n);
    if f * f == n {
        f
    } else {
        f + 1
    }
}

/// The vector `(x, y, z)` after saturation, scaled down to length `max` when
/// longer. The length is divided by its square root rounded up, so the
/// result is never longer than `max`.
pub open spec fn capped(x: int, y: int, z: int, max: int) -> (int, int, int) {
    let (a, b, c) = (sat(x), sat(y), sat(z));
    let s = norm_sq(a, b, c);
    if s <= max * max {
        (a, b, c)
    } else {
        let n = sqrt_ceil(s);
        (tdiv(a * max, n), tdiv(b * max, n), tdiv(c * max, n))
    }
}

pub proof fn lemma_sqrt_floor_unique(n: int, r: int)
    requires
        is_sqrt_floor(n, r),
    ensures
        sqrt_floor(n) == r,
{
    let s = sqrt_floor(n);
    assert(is_sqrt_floor(n, s));
    if s < r {
        assert((s + 1) * (s + 1) <= r * r) by (nonlinear_arith)
            requires
                0 <= s < r,
        ;
    } else if s > r {
        assert((r + 1) * (r + 1) <= s * s) by (nonlinear_arith)
            requires
                0 <= r < s,
        ;
    }
}

/// Every component of a vector is at most its length: `|a| <= sqrt_floor(a² + ...)`.
pub proof fn lemma_component_within_root(a: int, s: int, r: int)
    requires
        a * a <= s,
        is_sqrt_floor(s, r),
    ensures
        -r <= a <= r,
{
    if a > r {
        assert((r + 1) * (r + 1) <= a * a) by (nonlinear_arith)
            requires
                0 <= r < a,
        ;
    } else if a < -r {
        assert((r + 1) * (r + 1) <= a * a) by (nonlinear_arith)
            requires
                0 <= r,
                a < -r,
        ;
    }
}

/// Integer division of `a` by a positive `b`, rounding toward zero.
pub fn div_trunc(a: i128, b: i128) -> (r: i128)
    requires
        b > 0,
        a > i128::MIN,
    ensures
        r == tdiv(a as int, b as int),
{
    if a >= 0 {
        a / b
    } else {
        let q = (-a) / b;
        -q
    }
}

/// `x` saturated to `[-COMPONENT_LIMIT, COMPONENT_LIMIT]`.
pub fn saturate(x: i128) -> (r: i128)
    ensures
        r == sat(x as int),
{
    if x > COMPONENT_LIMIT {
        COMPONENT_LIMIT
    } else if x < -COMPONENT_LIMIT {
        -COMPONENT_LIMIT
    } else {
        x
    }
}

/// Integer square root, rounded down, found by bisection.
pub fn isqrt(n: u128) -> (r: u64)
    ensures
        is_sqrt_floor(n as int, r as int),
        r as int == sqrt_floor(n as int),
{
    let mut lo: u128 = 0;
    let mut hi: u128 = 0x1_0000_0000_0000_0000;
    assert(hi * hi > u128::MAX) by (nonlinear_arith)
        requires
            hi == 0x1_0000_0000_0000_0000u128,
    ;
    while hi - lo > 1
        invariant
            lo < hi <= 0x1_0000_0000_0000_0000,
            lo * lo <= n,
            n < hi * hi,
        decreases hi - lo,
    {
        let mid = lo + (hi - lo) / 2;
        assert(lo < mid < hi);
        assert(mid * mid < 0x1_0000_0000_0000_0000u128 * 0x1_0000_0000_0000_0000u128) by (
        nonlinear_arith)
            requires
                mid < 0x1_0000_0000_0000_0000u128,
        ;
        if mid * mid <= n {
            lo = mid;
        } else {
            hi = mid;
        }
    }
    assert(hi == lo + 1);
    proof {
        lemma_sqrt_floor_unique(n as int, lo as int);
    }
    lo as u64
}

/// `(x, y, z)` saturated per component and then scaled down to length `max`
/// when it is longer: the result keeps its direction, truncated toward zero,
/// and is never longer than `max`.
pub fn limit_speed(x: i128, y: i128, z: i128, max: i64) -> (r: Vec3)
    requires
        0 <= max,
    ensures
        (r.x as int, r.y as int, r.z as int) == capped(x as int, y as int, z as int, max as int),
        norm_sq(r.x as int, r.y as int, r.z as int) <= max * max,
{
    let a = saturate(x);
    let b = saturate(y);
    let c = saturate(z);
    assert(0 <= a * a <= 0x1000_0000_0000_0000_0000_0000_0000_0000) by (nonlinear_arith)
        requires
            -0x4000_0000_0000_0000 <= a <= 0x4000_0000_0000_0000,
    ;
    assert(0 <= b * b <= 0x1000_0000_0000_0000_0000_0000_0000_0000) by (nonlinear_arith)
        requires
            -0x4000_0000_0000_0000 <= b <= 0x4000_0000_0000_0000,
    ;
    assert(0 <= c * c <= 0x1000_0000_0000_0000_0000_0000_0000_0000) by (nonlinear_arith)
        requires
            -0x4000_0000_0000_0000 <= c <= 0x4000_0000_0000_0000,
    ;
    let s: u128 = (a * a) as u128 + (b * b) as u128 + (c * c) as u128;
    assert(0 <= max * max <= 0x4000_0000_0000_0000_0000_0000_0000_0000) by (nonlinear_arith)
        requires
            0 <= max <= i64::MAX,
    ;
    let m: u128 = (max as u128) * (max as u128);
    if s <= m {
        assert(a * a <= max * max && b * b <= max * max && c * c <= max * max);
        assert(is_sqrt_floor(max * max, max as int)) by (nonlinear_arith)
            requires
                max >= 0,
        ;
        proof {
            lemma_component_within_root(a as int, (max * max) as int, max as int);
            lemma_component_within_root(b as int, (max * max) as int, max as int);
            lemma_component_within_root(c as int, (max * max) as int, max as int);
        }
        Vec3 { x: a as i64, y: b as i64, z: c as i64 }
    } else {
        let f = isqrt(s);
        proof {
            lemma_component_within_root(a as int, s as int, f as int);
            lemma_component_within_root(b as int, s as int, f as int);
            lemma_component_within_root(c as int, s as int, f as int);
        }
        assert(f >= 1) by (nonlinear_arith)
            requires
                is_sqrt_floor(s as int, f as int),
                s > max * max,
                max >= 0,
        ;
        assert(f < 0x8000_0000_0000_0000) by (nonlinear_arith)
            requires
                is_sqrt_floor(s as int, f as int),
                s < 0x4000_0000_0000_0000_0000_0000_0000_0000,
        ;
        let n: u64 = if (f as u128) * (f as u128) == s {
            f
        } else {
            f + 1
        };
        assert(n * n >= s && n >= 1) by (nonlinear_arith)
            requires
                is_sqrt_floor(s as int, f as int),
                n == f || (n == f + 1 && f * f != s),
                f * f == s || n == f + 1,
                f >= 1,
        ;
        let rx = scale_component(a, max, n);
        let ry = scale_component(b, max, n);
        let rz = scale_component(c, max, n);
        let ghost big_r = norm_sq(rx as int, ry as int, rz as int);
        let ghost nn = n * n;
        let ghost mm = max * max;
        assert(big_r * nn <= s * mm) by (nonlinear_arith)
            requires
                rx * rx * nn <= a * a * mm,
                ry * ry * nn <= b * b * mm,
                rz * rz * nn <= c * c * mm,
                a * a + b * b + c * c == s,
                big_r == rx * rx + ry * ry + rz * rz,
        ;
        assert(s * mm <= nn * mm) by (nonlinear_arith)
            requires
                s <= nn,
                mm >= 0,
        ;
        assert(big_r <= mm) by (nonlinear_arith)
            requires
                big_r * nn <= nn * mm,
                nn >= 1,
        ;
        Vec3 { x: rx, y: ry, z: rz }
    }
}

/// `a * max / n` truncated, where `|a| <= n`, so that the result lies within `[-max, max]`
/// and is no larger than `|a| * max / n`.
fn scale_component(a: i128, max: i64, n: u64) -> (r: i64)
    requires
        0 <= max,
        n >= 1,
        -(n as int) <= a <= n,
    ensures
        r == tdiv(a * max, n as int),
        -max <= r <= max,
        r * r * (n * n) <= a * a * (max * max),
{
    assert(-(n * max) <= a * max <= n * max) by (nonlinear_arith)
        requires
            -(n as int) <= a <= n,
            max >= 0,
    ;
    assert(0 <= n * max < 0x8000_0000_0000_0000_0000_0000_0000_0000) by (nonlinear_arith)
        requires
            n <= u64::MAX,
            0 <= max <= i64::MAX,
    ;
    let q = div_trunc(a * (max as i128), n as i128);
    assert(-(max as int) <= q <= max) by (nonlinear_arith)
        requires
            q == tdiv(a * max, n as int),
            -(n * max) <= a * max <= n * max,
            n >= 1,
    ;
    proof {
        let t = a * max;
        let u = if t >= 0 {
            t
        } else {
            -t
        };
        vstd::arithmetic::div_mod::lemma_fundamental_div_mod(u, n as int);
        let v = u / (n as int);
        assert(0 <= v * n <= u) by (nonlinear_arith)
            requires
                u == n * v + u % (n as int),
                0 <= u % (n as int) < n,
                u >= 0,
                n >= 1,
        ;
        assert(q == v || q == -v);
        assert(q * q == v * v) by (nonlinear_arith)
            requires
                q == v || q == -v,
        ;
        assert(v * v * (n * n) <= u * u) by (nonlinear_arith)
            requires
                0 <= v * n <= u,
        ;
        assert(u * u == a * a * (max * max)) by (nonlinear_arith)
            requires
                u == t || u == -t,
                t == a * max,
        ;
    }
    q as i64
}

} // verus!
