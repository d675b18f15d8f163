//! Plane vectors with fixed-point components.

use crate::fixed::{abs, ceil_sqrt, isqrt_up, lemma_ceil_sqrt, floor_sqrt, fx_mul, is_floor_sqrt, isqrt, lemma_floor_sqrt_exists, lemma_mul_within, lemma_tdiv_exact, lemma_tdiv_shrinks, lemma_tdiv_within, mul_div, tdiv, trunc_div, wide_mul, within, SCALE};
use vstd::prelude::*;

verus! {

/// A vector or a point of the plane; each component is a fixed-point scalar.
#[derive(Clone, Copy, Debug, PartialEq, Eq, Structural)]
pub struct Vec2 {
    pub x: i64,
    pub y: i64,
}

/// The mathematical value of a [`Vec2`]: two unbounded integers in raw units.
pub struct V2 {
    pub x: int,
    pub y: int,
}

impl View for Vec2 {
    type V = V2;

    open spec fn view(&self) -> V2 {
        V2 { x: self.x as int, y: self.y as int }
    }
}

impl V2 {
    pub open spec fn zero() -> V2 {
        V2 { x: 0, y: 0 }
    }

    pub open spec fn is_zero(self) -> bool {
        self.x == 0 && self.y == 0
    }

    /// Both components lie in `[-b, b]`.
    pub open spec fn within(self, b: int) -> bool {
        within(self.x, b) && within(self.y, b)
    }

    pub open spec fn plus(self, o: V2) -> V2 {
        V2 { x: self.x + o.x, y: self.y + o.y }
    }

    pub open spec fn minus(self, o: V2) -> V2 {
        V2 { x: self.x - o.x, y: self.y - o.y }
    }

    pub open spec fn negated(self) -> V2 {
        V2 { x: -self.x, y: -self.y }
    }

    /// The vector turned a quarter turn counter-clockwise.
    pub open spec fn perp(self) -> V2 {
        V2 { x: -self.y, y: self.x }
    }

    /// Componentwise product with the fixed-point scalar `k`.
    pub open spec fn times(self, k: int) -> V2 {
        V2 { x: fx_mul(self.x, k), y: fx_mul(self.y, k) }
    }

    /// Componentwise quotient by the positive integer `d`, rounded toward zero.
    pub open spec fn over(self, d: int) -> V2 {
        V2 { x: tdiv(self.x, d), y: tdiv(self.y, d) }
    }

    /// Inner product in squared raw units, with no rounding.
    pub open spec fn dot_raw(self, o: V2) -> int {
        self.x * o.x + self.y * o.y
    }

    /// Inner product as a fixed-point scalar.
    pub open spec fn dot(self, o: V2) -> int {
        tdiv(self.dot_raw(o), SCALE as int)
    }

    /// `self.x * o.y - self.y * o.x` in squared raw units, with no rounding.
    pub open spec fn cross_raw(self, o: V2) -> int {
        self.x * o.y - self.y * o.x
    }

    /// Squared length in squared raw units, with no rounding.
    pub open spec fn len_sq(self) -> int {
        self.x * self.x + self.y * self.y
    }

    /// Length in raw units: the integer part of the true length.
    pub open spec fn length(self) -> int {
        floor_sqrt(self.len_sq())
    }

    /// Factor by which the vector is magnified before it is scaled to length
    /// one: a million where both components are short, so that the length of a
    /// short vector keeps six places of its fraction.
    pub open spec fn gain(self) -> int {
        if abs(self.x) < SHORT && abs(self.y) < SHORT {
            SCALE as int
        } else {
            1
        }
    }

    /// Length of the magnified vector, rounded up.
    pub open spec fn fine_length(self) -> int {
        ceil_sqrt(self.len_sq() * (self.gain() * self.gain()))
    }

    /// The vector scaled to length one: each component over the length, rounded
    /// toward zero. The length is rounded up, so the result is never longer
    /// than one, and it is shorter by less than three raw units
    /// (`lemma_unit_length`). The zero vector stays zero.
    pub open spec fn unit(self) -> V2 {
        if self.is_zero() {
            V2::zero()
        } else {
            V2 {
                x: tdiv(self.x * (self.gain() * SCALE), self.fine_length()),
                y: tdiv(self.y * (self.gain() * SCALE), self.fine_length()),
            }
        }
    }

    /// Cosine of the angle between two vectors: their inner product over the
    /// product of their lengths. It is zero where either has no length, and may
    /// pass one by what the lengths lose in rounding.
    pub open spec fn cos_between(self, o: V2) -> int {
        if self.is_zero() || o.is_zero() {
            0
        } else {
            tdiv(self.dot_raw(o) * SCALE, self.length() * o.length())
        }
    }

    /// The vector turned by the angle whose cosine and sine are `c` and `s`.
    pub open spec fn rotated(self, c: int, s: int) -> V2 {
        V2 {
            x: tdiv(self.x * c - self.y * s, SCALE as int),
            y: tdiv(self.x * s + self.y * c, SCALE as int),
        }
    }
}

/// Largest component magnitude for which every vector operation below is exact.
pub const WIDE: i64 = 0x1000_0000_0000_0000;

/// A component of smaller magnitude than this is short: about a million whole
/// units.
pub const SHORT: i64 = 0x100_0000_0000;

/// The square of `WIDE`, which bounds every product of two components.
pub proof fn lemma_wide_square()
    ensures
        WIDE * WIDE == 0x100_0000_0000_0000_0000_0000_0000_0000,
{
    assert(WIDE * WIDE == 0x100_0000_0000_0000_0000_0000_0000_0000) by (nonlinear_arith)
        requires
            WIDE == 0x1000_0000_0000_0000,
    ;
}

/// A squared length is no less than the square of either component, and no
/// more than twice the square of their bound.
pub proof fn lemma_len_sq_bounds(v: V2, b: int)
    requires
        v.within(b),
    ensures
        0 <= v.len_sq() <= 2 * (b * b),
        v.x * v.x <= v.len_sq(),
        v.y * v.y <= v.len_sq(),
        !v.is_zero() ==> v.len_sq() >= 1,
{
    assert(0 <= v.x * v.x <= b * b) by (nonlinear_arith)
        requires
            -b <= v.x <= b,
    ;
    assert(0 <= v.y * v.y <= b * b) by (nonlinear_arith)
        requires
            -b <= v.y <= b,
    ;
    if v.x != 0 {
        assert(v.x * v.x >= 1) by (nonlinear_arith)
            requires
                v.x != 0,
        ;
    }
    if v.y != 0 {
        assert(v.y * v.y >= 1) by (nonlinear_arith)
            requires
                v.y != 0,
        ;
    }
}

/// A square root of a sum of squares dominates each term, and stays under
/// twice the larger one.
pub proof fn lemma_length_bounds(v: V2, r: int, b: int)
    requires
        is_floor_sqrt(v.len_sq(), r),
        v.within(b),
    ensures
        abs(v.x) <= r,
        abs(v.y) <= r,
        r <= 2 * b,
        !v.is_zero() ==> r >= 1,
{
    lemma_len_sq_bounds(v, b);
    let n = v.len_sq();
    assert(abs(v.x) <= r) by (nonlinear_arith)
        requires
            v.x * v.x <= n,
            n < (r + 1) * (r + 1),
            0 <= r,
    ;
    assert(abs(v.y) <= r) by (nonlinear_arith)
        requires
            v.y * v.y <= n,
            n < (r + 1) * (r + 1),
            0 <= r,
    ;
    assert(r <= 2 * b) by (nonlinear_arith)
        requires
            r * r <= n,
            n <= 2 * (b * b),
            0 <= r,
            0 <= b,
    ;
    if !v.is_zero() {
        assert(r >= 1) by (nonlinear_arith)
            requires
                n >= 1,
                n < (r + 1) * (r + 1),
                0 <= r,
        ;
    }
}

/// Quotients of two numbers by `l`, where the squares of the numbers add up to
/// between `(l - 1)^2 s^2` and `l^2 s^2`: the squares of the quotients add up to
/// between `(s - 3)^2` and `s^2`.
proof fn lemma_quotients_near_unit(a: int, b: int, l: int, s: int)
    requires
        l >= s,
        s >= 3,
        a * a + b * b <= (l * l) * (s * s),
        a * a + b * b > ((l - 1) * (l - 1)) * (s * s),
    ensures
        tdiv(a, l) * tdiv(a, l) + tdiv(b, l) * tdiv(b, l) <= s * s,
        tdiv(a, l) * tdiv(a, l) + tdiv(b, l) * tdiv(b, l) >= (s - 3) * (s - 3),
{
    let aa = abs(a);
    let ab = abs(b);
    let pa = aa / l;
    let pb = ab / l;
    assert(pa * l <= aa < (pa + 1) * l && pa >= 0) by (nonlinear_arith)
        requires
            pa == aa / l,
            aa >= 0,
            l > 0,
    ;
    assert(pb * l <= ab < (pb + 1) * l && pb >= 0) by (nonlinear_arith)
        requires
            pb == ab / l,
            ab >= 0,
            l > 0,
    ;
    assert(tdiv(a, l) * tdiv(a, l) == pa * pa) by (nonlinear_arith)
        requires
            tdiv(a, l) == pa || tdiv(a, l) == -pa,
    ;
    assert(tdiv(b, l) * tdiv(b, l) == pb * pb) by (nonlinear_arith)
        requires
            tdiv(b, l) == pb || tdiv(b, l) == -pb,
    ;
    assert(aa * aa == a * a && ab * ab == b * b) by (nonlinear_arith)
        requires
            aa == abs(a),
            ab == abs(b),
    ;
    let m = pa * pa + pb * pb;
    // no longer than one
    assert((pa * pa) * (l * l) <= aa * aa) by (nonlinear_arith)
        requires
            0 <= pa * l <= aa,
    ;
    assert((pb * pb) * (l * l) <= ab * ab) by (nonlinear_arith)
        requires
            0 <= pb * l <= ab,
    ;
    assert(m <= s * s) by (nonlinear_arith)
        requires
            m == pa * pa + pb * pb,
            (pa * pa) * (l * l) + (pb * pb) * (l * l) <= (l * l) * (s * s),
            l >= 3,
    ;
    // no shorter than one less three raw units
    let big = (pa + 1) * (pa + 1) + (pb + 1) * (pb + 1);
    assert(aa * aa < ((pa + 1) * (pa + 1)) * (l * l)) by (nonlinear_arith)
        requires
            0 <= aa < (pa + 1) * l,
    ;
    assert(ab * ab < ((pb + 1) * (pb + 1)) * (l * l)) by (nonlinear_arith)
        requires
            0 <= ab < (pb + 1) * l,
    ;
    assert(big * (l * l) > ((l - 1) * (l - 1)) * (s * s)) by (nonlinear_arith)
        requires
            big == (pa + 1) * (pa + 1) + (pb + 1) * (pb + 1),
            aa * aa < ((pa + 1) * (pa + 1)) * (l * l),
            ab * ab < ((pb + 1) * (pb + 1)) * (l * l),
            aa * aa + ab * ab > ((l - 1) * (l - 1)) * (s * s),
    ;
    assert(((s - 1) * l) * ((s - 1) * l) <= ((l - 1) * s) * ((l - 1) * s)) by (nonlinear_arith)
        requires
            l >= s,
            s >= 3,
    ;
    assert(big > (s - 1) * (s - 1)) by (nonlinear_arith)
        requires
            big * (l * l) > ((l - 1) * (l - 1)) * (s * s),
            ((s - 1) * l) * ((s - 1) * l) <= ((l - 1) * s) * ((l - 1) * s),
            l >= 3,
    ;
    let sum = pa + pb;
    assert(sum * sum <= 2 * m) by (nonlinear_arith)
        requires
            sum == pa + pb,
            m == pa * pa + pb * pb,
    ;
    assert(big == m + 2 * sum + 2) by (nonlinear_arith)
        requires
            big == (pa + 1) * (pa + 1) + (pb + 1) * (pb + 1),
            m == pa * pa + pb * pb,
            sum == pa + pb,
    ;
    if m < (s - 3) * (s - 3) {
        assert(sum < 2 * (s - 3)) by (nonlinear_arith)
            requires
                sum * sum <= 2 * m,
                m < (s - 3) * (s - 3),
                sum >= 0,
                s >= 3,
        ;
        assert((s - 3) * (s - 3) + 4 * (s - 3) + 4 == (s - 1) * (s - 1)) by (nonlinear_arith);
        assert(false);
    }
}

/// A unit vector is no longer than one, and shorter by less than three raw
/// units.
pub proof fn lemma_unit_length(v: V2)
    requires
        !v.is_zero(),
    ensures
        v.unit().len_sq() <= SCALE * SCALE,
        v.unit().len_sq() >= (SCALE - 3) * (SCALE - 3),
{
    let k = v.gain();
    let n = v.len_sq();
    let big_n = n * (k * k);
    let l = v.fine_length();
    let a = v.x * (k * SCALE);
    let b = v.y * (k * SCALE);
    lemma_len_sq_bounds(v, abs(v.x) + abs(v.y));
    assert(big_n >= n) by (nonlinear_arith)
        requires
            big_n == n * (k * k),
            k >= 1,
            n >= 0,
    ;
    lemma_ceil_sqrt(big_n);
    assert(a * a + b * b == big_n * (SCALE * SCALE)) by (nonlinear_arith)
        requires
            a == v.x * (k * SCALE),
            b == v.y * (k * SCALE),
            big_n == (v.x * v.x + v.y * v.y) * (k * k),
    ;
    assert(big_n * (SCALE * SCALE) <= (l * l) * (SCALE * SCALE)) by (nonlinear_arith)
        requires
            big_n <= l * l,
    ;
    assert(big_n * (SCALE * SCALE) > ((l - 1) * (l - 1)) * (SCALE * SCALE)) by (nonlinear_arith)
        requires
            (l - 1) * (l - 1) < big_n,
            SCALE == 1_000_000,
    ;
    // the magnified length is at least one whole unit
    if k == 1 {
        assert(n >= SHORT * SHORT) by (nonlinear_arith)
            requires
                n == v.x * v.x + v.y * v.y,
                abs(v.x) >= SHORT || abs(v.y) >= SHORT,
                SHORT > 0,
        ;
        assert(l >= SHORT) by (nonlinear_arith)
            requires
                l * l >= SHORT * SHORT,
                l >= 0,
                SHORT > 0,
        ;
    } else {
        assert(big_n >= SCALE * SCALE) by (nonlinear_arith)
            requires
                big_n == n * (SCALE * SCALE),
                n >= 1,
        ;
        assert(l >= SCALE) by (nonlinear_arith)
            requires
                l * l >= SCALE * SCALE,
                l >= 0,
                SCALE > 0,
        ;
    }
    lemma_quotients_near_unit(a, b, l, SCALE as int);
}

/// Each component of a unit vector has magnitude at most one.
pub proof fn lemma_unit_within(v: V2)
    ensures
        v.unit().within(SCALE as int),
{
    if !v.is_zero() {
        lemma_unit_length(v);
        let u = v.unit();
        assert(within(u.x, SCALE as int) && within(u.y, SCALE as int)) by (nonlinear_arith)
            requires
                u.x * u.x + u.y * u.y <= SCALE * SCALE,
                SCALE > 0,
        ;
    }
}

/// A vector with a length makes no angle with itself: the cosine is one, or what
/// passes one by the rounding of the length.
pub proof fn lemma_cos_with_itself(v: V2)
    requires
        !v.is_zero(),
    ensures
        v.cos_between(v) >= SCALE,
{
    let n = v.len_sq();
    lemma_len_sq_bounds(v, abs(v.x) + abs(v.y));
    lemma_floor_sqrt_exists(n);
    let r = v.length();
    lemma_length_bounds(v, r, abs(v.x) + abs(v.y));
    let d = r * r;
    assert(1 <= d <= n) by (nonlinear_arith)
        requires
            r >= 1,
            d == r * r,
            r * r <= n,
    ;
    assert((n * SCALE) / d >= SCALE) by (nonlinear_arith)
        requires
            1 <= d <= n,
            SCALE == 1_000_000,
    ;
    assert(n * SCALE >= 0) by (nonlinear_arith)
        requires
            n >= 0,
            SCALE == 1_000_000,
    ;
}

/// A vector scaled by `p / q` and rounded toward zero is no longer than the
/// vector times `p / q`.
pub proof fn lemma_scaled_length(w: V2, p: int, q: int)
    requires
        q > 0,
    ensures
        (V2 { x: tdiv(w.x * p, q), y: tdiv(w.y * p, q) }).len_sq() * (q * q) <= w.len_sq() * (p * p),
{
    lemma_scaled_square(w.x, p, q);
    lemma_scaled_square(w.y, p, q);
    let tx = tdiv(w.x * p, q);
    let ty = tdiv(w.y * p, q);
    assert((tx * tx + ty * ty) * (q * q) == (tx * tx) * (q * q) + (ty * ty) * (q * q))
        by (nonlinear_arith);
    assert((w.x * w.x + w.y * w.y) * (p * p) == (w.x * w.x) * (p * p) + (w.y * w.y) * (p * p))
        by (nonlinear_arith);
}

/// One component of `lemma_scaled_length`.
proof fn lemma_scaled_square(a: int, p: int, q: int)
    requires
        q > 0,
    ensures
        (tdiv(a * p, q) * tdiv(a * p, q)) * (q * q) <= (a * a) * (p * p),
{
    let n = a * p;
    let m = abs(n);
    let t = m / q;
    assert(0 <= t * q <= m) by (nonlinear_arith)
        requires
            t == m / q,
            m >= 0,
            q > 0,
    ;
    assert(tdiv(n, q) * tdiv(n, q) == t * t) by (nonlinear_arith)
        requires
            tdiv(n, q) == t || tdiv(n, q) == -t,
    ;
    assert((t * t) * (q * q) <= m * m) by (nonlinear_arith)
        requires
            0 <= t * q <= m,
    ;
    assert(m * m == (a * a) * (p * p)) by (nonlinear_arith)
        requires
            m == n || m == -n,
            n == a * p,
    ;
}

/// A vector turned by no angle stays as it is.
pub proof fn lemma_unturned(v: V2)
    ensures
        v.rotated(SCALE as int, 0) == v,
{
    assert(v.x * SCALE - v.y * 0 == v.x * SCALE) by (nonlinear_arith);
    assert(v.x * 0 + v.y * SCALE == v.y * SCALE) by (nonlinear_arith);
    lemma_tdiv_exact(v.x, SCALE as int);
    lemma_tdiv_exact(v.y, SCALE as int);
}

impl Vec2 {
    pub fn new(x: i64, y: i64) -> (r: Vec2)
        ensures
            r.x == x,
            r.y == y,
    {
        Vec2 { x, y }
    }

    pub fn zero() -> (r: Vec2)
        ensures
            r@ == V2::zero(),
    {
        Vec2 { x: 0, y: 0 }
    }

    pub fn is_zero(self) -> (r: bool)
        ensures
            r == self@.is_zero(),
    {
        self.x == 0 && self.y == 0
    }

    /// Whether both components lie in `[-b, b]`.
    pub fn fits(self, b: i64) -> (r: bool)
        requires
            b >= 0,
        ensures
            r == self@.within(b as int),
    {
        -b <= self.x && self.x <= b && -b <= self.y && self.y <= b
    }

    pub fn plus(self, o: Vec2) -> (r: Vec2)
        requires
            self@.within(WIDE as int),
            o@.within(WIDE as int),
        ensures
            r@ == self@.plus(o@),
    {
        Vec2 { x: self.x + o.x, y: self.y + o.y }
    }

    pub fn minus(self, o: Vec2) -> (r: Vec2)
        requires
            self@.within(WIDE as int),
            o@.within(WIDE as int),
        ensures
            r@ == self@.minus(o@),
    {
        Vec2 { x: self.x - o.x, y: self.y - o.y }
    }

    pub fn negated(self) -> (r: Vec2)
        requires
            self@.within(WIDE as int),
        ensures
            r@ == self@.negated(),
    {
        Vec2 { x: -self.x, y: -self.y }
    }

    pub fn perp(self) -> (r: Vec2)
        requires
            self@.within(WIDE as int),
        ensures
            r@ == self@.perp(),
    {
        Vec2 { x: -self.y, y: self.x }
    }

    pub fn dot_raw(self, o: Vec2) -> (r: i128)
        requires
            self@.within(WIDE as int),
            o@.within(WIDE as int),
        ensures
            r == self@.dot_raw(o@),
    {
        proof {
            lemma_mul_within(self.x as int, o.x as int, WIDE as int, WIDE as int);
            lemma_mul_within(self.y as int, o.y as int, WIDE as int, WIDE as int);
            lemma_wide_square();
        }
        wide_mul(self.x, o.x) + wide_mul(self.y, o.y)
    }

    pub fn cross_raw(self, o: Vec2) -> (r: i128)
        requires
            self@.within(WIDE as int),
            o@.within(WIDE as int),
        ensures
            r == self@.cross_raw(o@),
    {
        proof {
            lemma_mul_within(self.x as int, o.y as int, WIDE as int, WIDE as int);
            lemma_mul_within(self.y as int, o.x as int, WIDE as int, WIDE as int);
            lemma_wide_square();
        }
        wide_mul(self.x, o.y) - wide_mul(self.y, o.x)
    }

    pub fn dot(self, o: Vec2) -> (r: i128)
        requires
            self@.within(WIDE as int),
            o@.within(WIDE as int),
        ensures
            r == self@.dot(o@),
    {
        trunc_div(self.dot_raw(o), SCALE as i128)
    }

    pub fn length_squared(self) -> (r: i128)
        requires
            self@.within(WIDE as int),
        ensures
            r == self@.len_sq(),
            0 <= r < 0x1000_0000_0000_0000_0000_0000_0000_0000,
    {
        proof {
            lemma_len_sq_bounds(self@, WIDE as int);
            lemma_wide_square();
        }
        wide_mul(self.x, self.x) + wide_mul(self.y, self.y)
    }

    pub fn length(self) -> (r: i64)
        requires
            self@.within(WIDE as int),
        ensures
            r == self@.length(),
            is_floor_sqrt(self@.len_sq(), r as int),
            abs(self.x as int) <= r,
            abs(self.y as int) <= r,
            self@.is_zero() <==> r == 0,
    {
        let n: i128 = self.length_squared();
        let r: i128 = isqrt(n);
        proof {
            lemma_length_bounds(self@, r as int, WIDE as int);
            if self@.is_zero() {
                assert(self@.len_sq() == 0) by (nonlinear_arith)
                    requires
                        self@.x == 0,
                        self@.y == 0,
                        self@.len_sq() == self@.x * self@.x + self@.y * self@.y,
                ;
                assert(r == 0) by (nonlinear_arith)
                    requires
                        r * r <= n,
                        n == 0,
                        r >= 0,
                ;
            }
        }
        r as i64
    }

    /// The vector scaled to length one; the zero vector stays zero.
    pub fn normalize(self) -> (r: Vec2)
        requires
            self@.within(WIDE as int),
        ensures
            r@ == self@.unit(),
            r@.within(SCALE as int),
            r@.len_sq() <= SCALE * SCALE,
            !self@.is_zero() ==> r@.len_sq() >= (SCALE - 3) * (SCALE - 3),
    {
        proof {
            lemma_unit_within(self@);
            if !self@.is_zero() {
                lemma_unit_length(self@);
            } else {
                assert(V2::zero().len_sq() == 0) by (nonlinear_arith)
                    requires
                        V2::zero().len_sq() == 0int * 0int + 0int * 0int,
                ;
            }
        }
        if self.is_zero() {
            return Vec2 { x: 0, y: 0 };
        }
        let short: bool = -SHORT < self.x && self.x < SHORT && -SHORT < self.y && self.y < SHORT;
        let n: i128 = self.length_squared();
        let million: i128 = SCALE as i128;
        proof {
            lemma_len_sq_bounds(self@, WIDE as int);
            if short {
                lemma_len_sq_bounds(self@, SHORT as int);
            }
            assert(million * million == 1_000_000_000_000) by (nonlinear_arith)
                requires
                    million == 1_000_000,
            ;
            assert(SHORT * SHORT == 0x1_0000_0000_0000_0000_0000) by (nonlinear_arith)
                requires
                    SHORT == 0x100_0000_0000,
            ;
            if short {
                assert(n * 1_000_000_000_000 < 0x1000_0000_0000_0000_0000_0000_0000_0000)
                    by (nonlinear_arith)
                    requires
                        0 <= n <= 2 * 0x1_0000_0000_0000_0000_0000,
                ;
                lemma_mul_within(self.x as int, 1_000_000_000_000, SHORT as int, 1_000_000_000_000);
                lemma_mul_within(self.y as int, 1_000_000_000_000, SHORT as int, 1_000_000_000_000);
            } else {
                lemma_mul_within(self.x as int, SCALE as int, WIDE as int, SCALE as int);
                lemma_mul_within(self.y as int, SCALE as int, WIDE as int, SCALE as int);
            }
            assert(self@.gain() * self@.gain() == if short {
                1_000_000_000_000int
            } else {
                1int
            }) by (nonlinear_arith)
                requires
                    self@.gain() == if short {
                        1_000_000int
                    } else {
                        1int
                    },
            ;
            assert(self@.gain() * SCALE == if short {
                1_000_000_000_000int
            } else {
                1_000_000int
            }) by (nonlinear_arith)
                requires
                    self@.gain() == if short {
                        1_000_000int
                    } else {
                        1int
                    },
                    SCALE == 1_000_000,
            ;
            assert(n * 1 == n);
        }
        let magnified: i128 = if short {
            n * (million * million)
        } else {
            n
        };
        let factor: i128 = if short {
            million * million
        } else {
            million
        };
        let len: i128 = isqrt_up(magnified);
        proof {
            assert(magnified >= n) by (nonlinear_arith)
                requires
                    magnified == n * 1_000_000_000_000 || magnified == n,
                    n >= 1,
            ;
            lemma_ceil_sqrt(magnified as int);
            lemma_unit_within(self@);
        }
        let x: i128 = trunc_div((self.x as i128) * factor, len);
        let y: i128 = trunc_div((self.y as i128) * factor, len);
        Vec2 { x: x as i64, y: y as i64 }
    }

    /// Cosine of the angle between two vectors; zero where either has no length.
    pub fn cos_between(self, o: Vec2) -> (r: i64)
        requires
            self@.within(2_000_000_000_000_000),
            o@.within(2_000_000_000_000_000),
        ensures
            r == self@.cos_between(o@),
            within(r as int, 2 * SCALE),
    {
        if self.is_zero() || o.is_zero() {
            return 0;
        }
        let la: i64 = self.length();
        let lb: i64 = o.length();
        let dot: i128 = self.dot_raw(o);
        proof {
            let bound = 2_000_000_000_000_000int;
            lemma_length_bounds(self@, la as int, bound);
            lemma_length_bounds(o@, lb as int, bound);
            lemma_mul_within(self.x as int, o.x as int, la as int, lb as int);
            lemma_mul_within(self.y as int, o.y as int, la as int, lb as int);
            assert(1 <= la * lb <= (2 * bound) * (2 * bound)) by (nonlinear_arith)
                requires
                    1 <= la <= 2 * bound,
                    1 <= lb <= 2 * bound,
            ;
            assert((2 * bound) * (2 * bound) == 16_000_000_000_000_000_000_000_000_000_000)
                by (nonlinear_arith)
                requires
                    bound == 2_000_000_000_000_000,
            ;
            lemma_mul_within(dot as int, SCALE as int, 2 * (la * lb), SCALE as int);
            assert((2 * (la * lb)) * SCALE == (2 * SCALE) * (la * lb)) by (nonlinear_arith);
            assert((2 * (la * lb)) * SCALE <= 32_000_000_000_000_000_000_000_000_000_000_000_000)
                by (nonlinear_arith)
                requires
                    la * lb <= 16_000_000_000_000_000_000_000_000_000_000,
                    SCALE == 1_000_000,
            ;
            lemma_tdiv_within(dot * SCALE, la * lb, 2 * SCALE);
        }
        let num: i128 = dot * (SCALE as i128);
        let den: i128 = wide_mul(la, lb);
        trunc_div(num, den) as i64
    }

    /// Componentwise product with the fixed-point scalar `k`.
    pub fn times(self, k: i64) -> (r: Vec2)
        requires
            self@.times(k as int).within(WIDE as int),
        ensures
            r@ == self@.times(k as int),
    {
        let x: i128 = mul_div(self.x, k, SCALE);
        let y: i128 = mul_div(self.y, k, SCALE);
        Vec2 { x: x as i64, y: y as i64 }
    }

    /// Componentwise quotient by a positive integer, rounded toward zero.
    pub fn over(self, d: i64) -> (r: Vec2)
        requires
            d > 0,
        ensures
            r@ == self@.over(d as int),
    {
        proof {
            lemma_tdiv_shrinks(self.x as int, d as int);
            lemma_tdiv_shrinks(self.y as int, d as int);
        }
        let x: i128 = trunc_div(self.x as i128, d as i128);
        let y: i128 = trunc_div(self.y as i128, d as i128);
        Vec2 { x: x as i64, y: y as i64 }
    }
}

} // verus!
