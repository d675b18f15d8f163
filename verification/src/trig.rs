//! Sine, cosine and arc cosine on fixed-point scalars.
//!
//! Angles are fixed-point radians. Each function is a short polynomial evaluated
//! in fixed-point arithmetic; the spec functions are those polynomials, so the
//! values are the same on every machine. The results stay in the range of the
//! true function: `[-1, 1]` for sine and cosine, `[0, PI]` for the arc cosine.

use crate::fixed::{
    abs, clamp, clamp_wide, fx_mul, isqrt, lemma_mul_within, lemma_tdiv_shrinks, lemma_tdiv_within,
    mul_div, tdiv, trunc_div, wide_mul, within, floor_sqrt, SCALE,
};
use vstd::prelude::*;

verus! {

/// A quarter turn.
pub const HALF_PI: i64 = 1_570_796;

/// A half turn.
pub const PI: i64 = 3_141_592;

/// A full turn.
pub const TAU: i64 = 6_283_184;

/// Largest magnitude of an angle that `sin` and `cos` accept.
pub const ANGLE_MAX: i64 = 1_000_000_000_000;

/// One Horner step of the sine series: `1 - x2 * t / k`, kept in `[0, 1]`.
pub open spec fn series_step(x2: int, t: int, k: int) -> int {
    clamp(SCALE - tdiv(fx_mul(x2, t), k), 0, SCALE as int)
}

/// Sine of an angle in the first quarter turn:
/// `x (1 - x^2/6 (1 - x^2/20 (1 - x^2/42 (1 - x^2/72))))`.
pub open spec fn sine_quarter(x: int) -> int {
    let x2 = fx_mul(x, x);
    let t4 = series_step(x2, SCALE as int, 72);
    let t3 = series_step(x2, t4, 42);
    let t2 = series_step(x2, t3, 20);
    let t1 = series_step(x2, t2, 6);
    clamp(fx_mul(x, t1), 0, SCALE as int)
}

/// Sine of an angle in `[0, TAU)`, folded onto the first quarter turn.
pub open spec fn sine_turn(m: int) -> int {
    if m <= HALF_PI {
        sine_quarter(m)
    } else if m <= PI {
        sine_quarter(PI - m)
    } else if m <= PI + HALF_PI {
        -sine_quarter(m - PI)
    } else {
        -sine_quarter(TAU - m)
    }
}

/// Sine of any angle.
pub open spec fn sine(a: int) -> int {
    if a >= 0 {
        sine_turn(a % (TAU as int))
    } else {
        -sine_turn((-a) % (TAU as int))
    }
}

/// Cosine of any angle: the sine a quarter turn later.
pub open spec fn cosine(a: int) -> int {
    sine(a + HALF_PI)
}

/// Arc cosine of `x` in `[0, 1]`:
/// `sqrt(1 - x) (1.5707288 - 0.2121144 x + 0.0742610 x^2 - 0.0187293 x^3)`.
pub open spec fn arc_cosine_upper(x: int) -> int {
    let root = floor_sqrt((SCALE - x) * SCALE);
    let k3 = -18_729int;
    let k2 = 74_261 + fx_mul(k3, x);
    let k1 = -212_114 + fx_mul(k2, x);
    let k0 = 1_570_729 + fx_mul(k1, x);
    clamp(fx_mul(root, k0), 0, HALF_PI as int)
}

/// Arc cosine of `x`, which is first brought into `[-1, 1]`.
pub open spec fn arc_cosine(x: int) -> int {
    let c = clamp(x, -SCALE, SCALE as int);
    if c >= 0 {
        arc_cosine_upper(c)
    } else {
        PI - arc_cosine_upper(-c)
    }
}

/// The sine of no angle is zero and its cosine is one, exactly: to turn by no
/// angle is to leave in place.
pub proof fn lemma_no_turn()
    ensures
        sine(0) == 0,
        cosine(0) == SCALE,
{
    assert(0int % (TAU as int) == 0);
    assert(fx_mul(0, 0) == 0);
    assert(sine_quarter(0) == 0) by {
        assert(fx_mul(0, series_step(0, series_step(0, series_step(0, series_step(0, SCALE as int, 72), 42), 20), 6)) == 0) by (nonlinear_arith)
            requires
                SCALE == 1_000_000,
        ;
    }
    let x = HALF_PI as int;
    assert(x % (TAU as int) == x);
    assert(x * x == 2_467_400_073_616) by (nonlinear_arith)
        requires
            x == 1_570_796,
    ;
    let x2 = fx_mul(x, x);
    assert(x2 == 2_467_400);
    let t4 = series_step(x2, SCALE as int, 72);
    assert(x2 * SCALE == 2_467_400_000_000) by (nonlinear_arith)
        requires
            x2 == 2_467_400,
            SCALE == 1_000_000,
    ;
    assert(t4 == 965_731);
    let t3 = series_step(x2, t4, 42);
    assert(x2 * t4 == 2_382_844_669_400) by (nonlinear_arith)
        requires
            x2 == 2_467_400,
            t4 == 965_731,
    ;
    assert(t3 == 943_266);
    let t2 = series_step(x2, t3, 20);
    assert(x2 * t3 == 2_327_414_528_400) by (nonlinear_arith)
        requires
            x2 == 2_467_400,
            t3 == 943_266,
    ;
    assert(t2 == 883_630);
    let t1 = series_step(x2, t2, 6);
    assert(x2 * t2 == 2_180_268_662_000) by (nonlinear_arith)
        requires
            x2 == 2_467_400,
            t2 == 883_630,
    ;
    assert(t1 == 636_622);
    assert(x * t1 == 1_000_003_291_112) by (nonlinear_arith)
        requires
            x == 1_570_796,
            t1 == 636_622,
    ;
    assert(sine_quarter(x) == SCALE);
}

/// The arc cosine of one, and of anything beyond, is no angle.
pub proof fn lemma_arc_cosine_of_one(c: int)
    requires
        c >= SCALE,
    ensures
        arc_cosine(c) == 0,
{
    assert((SCALE - SCALE) * SCALE == 0);
    crate::fixed::lemma_floor_sqrt_is(0, 0);
    let k2 = 74_261 + fx_mul(-18_729int, SCALE as int);
    let k1 = -212_114 + fx_mul(k2, SCALE as int);
    let k0 = 1_570_729 + fx_mul(k1, SCALE as int);
    assert(0 * k0 == 0) by (nonlinear_arith);
    assert(fx_mul(0, k0) == 0);
}

/// The folded sine lies in `[-1, 1]`.
pub proof fn lemma_sine_turn_within(m: int)
    ensures
        within(sine_turn(m), SCALE as int),
{
}

/// Sine and cosine lie in `[-1, 1]`.
pub proof fn lemma_sine_within(a: int)
    ensures
        within(sine(a), SCALE as int),
        within(cosine(a), SCALE as int),
{
    lemma_sine_turn_within(a % (TAU as int));
    lemma_sine_turn_within((-a) % (TAU as int));
    lemma_sine_turn_within((a + HALF_PI) % (TAU as int));
    lemma_sine_turn_within((-(a + HALF_PI)) % (TAU as int));
}

/// One Horner step of the sine series.
fn series_step_exec(x2: i64, t: i64, k: i64) -> (r: i64)
    requires
        0 <= x2 <= 4 * SCALE,
        0 <= t <= SCALE,
        k > 0,
    ensures
        r == series_step(x2 as int, t as int, k as int),
        0 <= r <= SCALE,
{
    proof {
        lemma_mul_within(x2 as int, t as int, 4 * SCALE, SCALE as int);
        lemma_tdiv_within(x2 * t, SCALE as int, 4 * SCALE);
        lemma_tdiv_shrinks(fx_mul(x2 as int, t as int), k as int);
    }
    let m: i128 = mul_div(x2, t, SCALE);
    let q: i128 = trunc_div(m, k as i128);
    clamp_wide(SCALE as i128 - q, 0, SCALE)
}

/// Sine of an angle in the first quarter turn.
fn sin_quarter(x: i64) -> (r: i64)
    requires
        0 <= x <= HALF_PI,
    ensures
        r == sine_quarter(x as int),
        0 <= r <= SCALE,
{
    proof {
        lemma_mul_within(x as int, x as int, 2 * SCALE, 2 * SCALE);
        assert((2 * SCALE) * (2 * SCALE) == (4 * SCALE) * SCALE) by (nonlinear_arith);
        lemma_tdiv_within(x * x, SCALE as int, 4 * SCALE);
        lemma_tdiv_shrinks(x * x, SCALE as int);
        assert(x * x >= 0) by (nonlinear_arith)
            requires
                x >= 0,
        ;
    }
    let x2: i64 = mul_div(x, x, SCALE) as i64;
    let t4: i64 = series_step_exec(x2, SCALE, 72);
    let t3: i64 = series_step_exec(x2, t4, 42);
    let t2: i64 = series_step_exec(x2, t3, 20);
    let t1: i64 = series_step_exec(x2, t2, 6);
    clamp_wide(mul_div(x, t1, SCALE), 0, SCALE)
}

/// Sine of an angle in `[0, TAU)`.
fn sin_turn(m: i64) -> (r: i64)
    requires
        0 <= m < TAU,
    ensures
        r == sine_turn(m as int),
        within(r as int, SCALE as int),
{
    if m <= HALF_PI {
        sin_quarter(m)
    } else if m <= PI {
        sin_quarter(PI - m)
    } else if m <= PI + HALF_PI {
        -sin_quarter(m - PI)
    } else {
        -sin_quarter(TAU - m)
    }
}

/// Sine of the angle `a`.
pub fn sin(a: i64) -> (r: i64)
    requires
        within(a as int, 2 * ANGLE_MAX),
    ensures
        r == sine(a as int),
        within(r as int, SCALE as int),
{
    if a >= 0 {
        sin_turn(a % TAU)
    } else {
        -sin_turn((-a) % TAU)
    }
}

/// Cosine of the angle `a`.
pub fn cos(a: i64) -> (r: i64)
    requires
        within(a as int, ANGLE_MAX as int),
    ensures
        r == cosine(a as int),
        within(r as int, SCALE as int),
{
    sin(a + HALF_PI)
}

/// Arc cosine of `x` in `[0, 1]`.
fn acos_upper(x: i64) -> (r: i64)
    requires
        0 <= x <= SCALE,
    ensures
        r == arc_cosine_upper(x as int),
        0 <= r <= HALF_PI,
{
    proof {
        lemma_mul_within(SCALE - x, SCALE as int, SCALE as int, SCALE as int);
        assert((SCALE - x) * SCALE >= 0) by (nonlinear_arith)
            requires
                SCALE - x >= 0,
                SCALE > 0,
        ;
    }
    let root: i128 = isqrt(wide_mul(SCALE - x, SCALE));
    proof {
        assert(root <= SCALE) by (nonlinear_arith)
            requires
                root * root <= (SCALE - x) * SCALE,
                (SCALE - x) * SCALE <= SCALE * SCALE,
                root >= 0,
                SCALE > 0,
        ;
    }
    let k2: i64 = 74_261 + small_product(-18_729, x);
    let k1: i64 = -212_114 + small_product(k2, x);
    let k0: i64 = 1_570_729 + small_product(k1, x);
    clamp_wide(mul_div(root as i64, k0, SCALE), 0, HALF_PI)
}

/// Fixed-point product of a small coefficient with a value in `[0, 1]`.
fn small_product(p: i64, x: i64) -> (r: i64)
    requires
        within(p as int, 4 * SCALE),
        0 <= x <= SCALE,
    ensures
        r == fx_mul(p as int, x as int),
        within(r as int, abs(p as int)),
{
    proof {
        let b = abs(p as int);
        lemma_mul_within(p as int, x as int, b, SCALE as int);
        lemma_tdiv_within(p * x, SCALE as int, b);
    }
    mul_div(p, x, SCALE) as i64
}

/// Arc cosine of `x`, which is first brought into `[-1, 1]`; the result lies in
/// `[0, PI]`.
pub fn acos(x: i64) -> (r: i64)
    ensures
        r == arc_cosine(x as int),
        0 <= r <= PI,
{
    let c: i64 = clamp_wide(x as i128, -SCALE, SCALE);
    if c >= 0 {
        acos_upper(c)
    } else {
        PI - acos_upper(-c)
    }
}

} // verus!
