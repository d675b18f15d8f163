//! Fixed-point scalars.
//!
//! A scalar is an `i64` counting millionths: the real number `v` is stored as
//! `v * SCALE`, rounded toward zero. Products and quotients are formed in `i128`
//! and rounded toward zero, which is what `tdiv` states.

use vstd::prelude::*;

verus! {

/// Raw units per whole unit.
pub const SCALE: i64 = 1_000_000;

/// Largest magnitude of a stored coordinate, speed or parameter at rest:
/// one hundred thousand whole units.
pub const LIMIT: i64 = 100_000_000_000;

/// Largest magnitude a stored value may reach in the middle of a step.
pub const REACH: i64 = 1_000_000_000_000_000;

/// Largest magnitude of a spring or skeleton force: one thousand whole units.
pub const FORCE_MAX: i64 = 1_000_000_000;

/// Magnitude of `x`.
pub open spec fn abs(x: int) -> int {
    if x < 0 {
        -x
    } else {
        x
    }
}

/// `x` lies in `[-b, b]`.
pub open spec fn within(x: int, b: int) -> bool {
    -b <= x <= b
}

/// Quotient of `a` by a positive `d`, rounded toward zero.
pub open spec fn tdiv(a: int, d: int) -> int {
    if a >= 0 {
        a / d
    } else {
        -((-a) / d)
    }
}

/// Product of two fixed-point scalars.
pub open spec fn fx_mul(a: int, b: int) -> int {
    tdiv(a * b, SCALE as int)
}

/// `x` brought into `[lo, hi]`.
pub open spec fn clamp(x: int, lo: int, hi: int) -> int {
    if x < lo {
        lo
    } else if x > hi {
        hi
    } else {
        x
    }
}

/// The lesser of two integers.
pub open spec fn min(a: int, b: int) -> int {
    if a <= b {
        a
    } else {
        b
    }
}

/// The greater of two integers.
pub open spec fn max(a: int, b: int) -> int {
    if a >= b {
        a
    } else {
        b
    }
}

/// The square root of a non-negative `n`, rounded up: the least integer whose
/// square is no less than `n`.
pub open spec fn ceil_sqrt(n: int) -> int {
    let r = floor_sqrt(n);
    if r * r == n {
        r
    } else {
        r + 1
    }
}

/// `r` is the integer part of the square root of `n`.
pub open spec fn is_floor_sqrt(n: int, r: int) -> bool {
    0 <= r && r * r <= n && n < (r + 1) * (r + 1)
}

/// The integer part of the square root of a non-negative `n`.
pub open spec fn floor_sqrt(n: int) -> int {
    choose|r: int| is_floor_sqrt(n, r)
}

/// A product of factors within `ba` and `bb` lies within `ba * bb`.
pub proof fn lemma_mul_within(a: int, b: int, ba: int, bb: int)
    requires
        within(a, ba),
        within(b, bb),
    ensures
        within(a * b, ba * bb),
{
    assert(within(a * b, ba * bb)) by (nonlinear_arith)
        requires
            -ba <= a <= ba,
            -bb <= b <= bb,
    ;
}

/// A dividend within `b * d` gives a quotient within `b`.
pub proof fn lemma_tdiv_within(a: int, d: int, b: int)
    requires
        d > 0,
        b >= 0,
        within(a, b * d),
    ensures
        within(tdiv(a, d), b),
{
    if a >= 0 {
        assert(a / d <= b) by (nonlinear_arith)
            requires
                0 <= a <= b * d,
                d > 0,
        ;
        assert(a / d >= 0) by (nonlinear_arith)
            requires
                0 <= a,
                d > 0,
        ;
    } else {
        assert((-a) / d <= b) by (nonlinear_arith)
            requires
                0 <= -a <= b * d,
                d > 0,
        ;
        assert((-a) / d >= 0) by (nonlinear_arith)
            requires
                0 <= -a,
                d > 0,
        ;
    }
}

/// Rounding toward zero never increases the magnitude.
pub proof fn lemma_tdiv_shrinks(a: int, d: int)
    requires
        d > 0,
    ensures
        within(tdiv(a, d), abs(a)),
        a >= 0 ==> tdiv(a, d) >= 0,
        a <= 0 ==> tdiv(a, d) <= 0,
{
    if a >= 0 {
        assert(0 <= a / d <= a) by (nonlinear_arith)
            requires
                0 <= a,
                d > 0,
        ;
    } else {
        assert(0 <= (-a) / d <= -a) by (nonlinear_arith)
            requires
                0 <= -a,
                d > 0,
        ;
    }
}

/// An exact multiple divides without rounding.
pub proof fn lemma_tdiv_exact(q: int, d: int)
    requires
        d > 0,
    ensures
        tdiv(q * d, d) == q,
{
    if q >= 0 {
        assert((q * d) / d == q) by (nonlinear_arith)
            requires
                d > 0,
        ;
        assert(q * d >= 0) by (nonlinear_arith)
            requires
                q >= 0,
                d > 0,
        ;
    } else {
        assert(-(q * d) == (-q) * d) by (nonlinear_arith);
        assert(((-q) * d) / d == -q) by (nonlinear_arith)
            requires
                d > 0,
        ;
        assert(q * d < 0) by (nonlinear_arith)
            requires
                q < 0,
                d > 0,
        ;
    }
}

/// A number has only one integer square root.
pub proof fn lemma_floor_sqrt_unique(n: int, r: int, s: int)
    requires
        is_floor_sqrt(n, r),
        is_floor_sqrt(n, s),
    ensures
        r == s,
{
    if r < s {
        assert((r + 1) * (r + 1) <= s * s) by (nonlinear_arith)
            requires
                0 <= r,
                r + 1 <= s,
        ;
    } else if s < r {
        assert((s + 1) * (s + 1) <= r * r) by (nonlinear_arith)
            requires
                0 <= s,
                s + 1 <= r,
        ;
    }
}

/// Whatever satisfies `is_floor_sqrt` is the value of `floor_sqrt`.
pub proof fn lemma_floor_sqrt_is(n: int, r: int)
    requires
        is_floor_sqrt(n, r),
    ensures
        floor_sqrt(n) == r,
{
    lemma_floor_sqrt_unique(n, r, floor_sqrt(n));
}

/// Every non-negative integer has an integer square root.
pub proof fn lemma_floor_sqrt_exists(n: int)
    requires
        n >= 0,
    ensures
        is_floor_sqrt(n, floor_sqrt(n)),
    decreases n,
{
    if n == 0 {
        assert(is_floor_sqrt(0, 0));
    } else {
        lemma_floor_sqrt_exists(n - 1);
        let r = floor_sqrt(n - 1);
        if n < (r + 1) * (r + 1) {
            assert(is_floor_sqrt(n, r));
        } else {
            assert((r + 1) * (r + 1) == n);
            assert(n < (r + 2) * (r + 2)) by (nonlinear_arith)
                requires
                    (r + 1) * (r + 1) == n,
                    r >= 0,
            ;
            assert(is_floor_sqrt(n, r + 1));
        }
    }
}

/// The product of two stored scalars, formed without overflow.
pub fn wide_mul(a: i64, b: i64) -> (r: i128)
    ensures
        r == a * b,
        within(r as int, 0x4000_0000_0000_0000_0000_0000_0000_0000),
{
    proof {
        lemma_mul_within(a as int, b as int, 0x8000_0000_0000_0000, 0x8000_0000_0000_0000);
    }
    let x: i128 = a as i128;
    let y: i128 = b as i128;
    x * y
}

/// Quotient rounded toward zero.
pub fn trunc_div(a: i128, d: i128) -> (r: i128)
    requires
        d > 0,
    ensures
        r == tdiv(a as int, d as int),
{
    a / d
}

/// `a * b / d`, rounded toward zero, with the product formed exactly.
pub fn mul_div(a: i64, b: i64, d: i64) -> (r: i128)
    requires
        d > 0,
    ensures
        r == tdiv(a * b, d as int),
{
    let p: i128 = wide_mul(a, b);
    trunc_div(p, d as i128)
}

/// Brings a wide value into `[lo, hi]`.
pub fn clamp_wide(x: i128, lo: i64, hi: i64) -> (r: i64)
    requires
        lo <= hi,
    ensures
        r == clamp(x as int, lo as int, hi as int),
{
    if x < lo as i128 {
        lo
    } else if x > hi as i128 {
        hi
    } else {
        x as i64
    }
}

/// Integer part of the square root, by bisection.
pub fn isqrt(n: i128) -> (r: i128)
    requires
        0 <= n < 0x1000_0000_0000_0000_0000_0000_0000_0000,
    ensures
        r == floor_sqrt(n as int),
        is_floor_sqrt(n as int, r as int),
        0 <= r < 0x4000_0000_0000_0000,
{
    let mut lo: i128 = 0;
    let mut hi: i128 = 0x4000_0000_0000_0000;
    assert(hi * hi == 0x1000_0000_0000_0000_0000_0000_0000_0000) by (nonlinear_arith)
        requires
            hi == 0x4000_0000_0000_0000,
    ;
    while hi - lo > 1
        invariant
            0 <= lo < hi <= 0x4000_0000_0000_0000,
            lo * lo <= n,
            n < hi * hi,
        decreases hi - lo,
    {
        let mid: i128 = lo + (hi - lo) / 2;
        assert(0 <= mid * mid <= 0x1000_0000_0000_0000_0000_0000_0000_0000) by (nonlinear_arith)
            requires
                0 <= mid <= 0x4000_0000_0000_0000,
        ;
        if mid * mid <= n {
            lo = mid;
        } else {
            hi = mid;
        }
    }
    proof {
        lemma_floor_sqrt_is(n as int, lo as int);
    }
    lo
}

/// The rounded-up root is the least integer whose square reaches `n`.
pub proof fn lemma_ceil_sqrt(n: int)
    requires
        n >= 0,
    ensures
        ceil_sqrt(n) >= 0,
        n <= ceil_sqrt(n) * ceil_sqrt(n),
        n >= 1 ==> ceil_sqrt(n) >= 1 && (ceil_sqrt(n) - 1) * (ceil_sqrt(n) - 1) < n,
{
    lemma_floor_sqrt_exists(n);
    let r = floor_sqrt(n);
    if r * r != n {
        assert(n <= (r + 1) * (r + 1));
        assert((r + 1 - 1) * (r + 1 - 1) == r * r);
    } else if n >= 1 {
        assert(r >= 1) by (nonlinear_arith)
            requires
                r * r == n,
                n >= 1,
                r >= 0,
        ;
        assert((r - 1) * (r - 1) < r * r) by (nonlinear_arith)
            requires
                r >= 1,
        ;
    }
}

/// Square root rounded up.
pub fn isqrt_up(n: i128) -> (r: i128)
    requires
        0 <= n < 0x1000_0000_0000_0000_0000_0000_0000_0000,
    ensures
        r == ceil_sqrt(n as int),
        0 <= r <= 0x4000_0000_0000_0000,
{
    let root: i128 = isqrt(n);
    proof {
        assert(0 <= root * root <= 0x1000_0000_0000_0000_0000_0000_0000_0000) by (nonlinear_arith)
            requires
                0 <= root <= 0x4000_0000_0000_0000,
        ;
    }
    if root * root == n {
        root
    } else {
        root + 1
    }
}

} // verus!
