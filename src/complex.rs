//! Complex numbers in two encodings: Cartesian `(re, im)` and polar
//! `(norm, arg)`.
//!
//! Both hold fixed-point values (see [`crate::fixed`]). The two encodings are
//! distinct types, so arithmetic across them does not type-check; convert
//! explicitly with [`PolarComplex::to_cartesian`] or
//! [`CartesianComplex::to_polar`].
use vstd::prelude::*;
use crate::fixed::{
    floor_sqrt, fx_mul_spec, in_range, is_angle, is_isqrt, isqrt, reduce_angle, add_angles, tdiv,
    tdiv_exec, HALF_TURN, LIMIT, ONE, QUARTER_TURN, TURN,
};
use crate::trig::{atan2, atan2_spec, cos_sin, cos_sin_spec};

verus! {

/// `a * a <= b * b` for `0 <= a <= b`.
pub proof fn lemma_square_le(a: int, b: int)
    requires
        0 <= a <= b,
    ensures
        a * a <= b * b,
{
    assert(a * a <= b * b) by (nonlinear_arith)
        requires 0 <= a <= b;
}

/// A point within the disk of radius `LIMIT` has both coordinates in range.
pub proof fn lemma_disk_in_range(x: int, y: int)
    requires
        x * x + y * y <= LIMIT * LIMIT,
    ensures
        in_range(x),
        in_range(y),
{
    assert(in_range(x)) by (nonlinear_arith)
        requires x * x + y * y <= LIMIT * LIMIT;
    assert(in_range(y)) by (nonlinear_arith)
        requires x * x + y * y <= LIMIT * LIMIT;
}

/// Division toward zero never grows the magnitude: `d·|tdiv(p, d)| <= |p|`.
pub proof fn lemma_tdiv_shrinks(p: int, d: int)
    requires
        d > 0,
    ensures
        p >= 0 ==> 0 <= d * tdiv(p, d) <= p,
        p < 0 ==> p <= d * tdiv(p, d) <= 0,
{
    if p >= 0 {
        assert(0 <= d * (p / d) <= p) by (nonlinear_arith)
            requires d > 0, p >= 0;
    } else {
        assert(0 <= d * ((-p) / d) <= -p) by (nonlinear_arith)
            requires d > 0, -p > 0;
        assert(d * tdiv(p, d) == -(d * ((-p) / d))) by (nonlinear_arith)
            requires tdiv(p, d) == -((-p) / d);
    }
}

/// Dividing a point by the integer square root `n >= ONE` of its squared
/// magnitude gives a squared magnitude within `[ONE² - 4·ONE, ONE² + 3·ONE]`.
pub proof fn lemma_unit_magnitude(x: int, y: int, n: int, re: int, im: int)
    requires
        n >= ONE,
        is_isqrt(n, x * x + y * y),
        -n <= x <= n,
        -n <= y <= n,
        re == tdiv(x * ONE, n),
        im == tdiv(y * ONE, n),
    ensures
        ONE * ONE - 4 * ONE <= re * re + im * im <= ONE * ONE + 3 * ONE,
{
    let m = x * x + y * y;
    lemma_tdiv_sq_lower(x * ONE, n);
    lemma_tdiv_sq_lower(y * ONE, n);
    lemma_tdiv_shrinks(x * ONE, n);
    lemma_tdiv_shrinks(y * ONE, n);
    assert(n * n * (re * re) <= (x * ONE) * (x * ONE)) by (nonlinear_arith)
        requires
            x * ONE >= 0 ==> 0 <= n * re <= x * ONE,
            x * ONE < 0 ==> x * ONE <= n * re <= 0;
    assert(n * n * (im * im) <= (y * ONE) * (y * ONE)) by (nonlinear_arith)
        requires
            y * ONE >= 0 ==> 0 <= n * im <= y * ONE,
            y * ONE < 0 ==> y * ONE <= n * im <= 0;
    assert((x * ONE) * (x * ONE) + (y * ONE) * (y * ONE) == ONE * ONE * m) by (nonlinear_arith)
        requires m == x * x + y * y;
    assert(abs(x * ONE) <= n * ONE && abs(y * ONE) <= n * ONE) by (nonlinear_arith)
        requires -n <= x <= n, -n <= y <= n, n > 0;
    let w = re * re + im * im;
    assert(n * n * w <= ONE * ONE * m) by (nonlinear_arith)
        requires
            n * n * (re * re) <= (x * ONE) * (x * ONE),
            n * n * (im * im) <= (y * ONE) * (y * ONE),
            (x * ONE) * (x * ONE) + (y * ONE) * (y * ONE) == ONE * ONE * m,
            w == re * re + im * im;
    assert(2 * n * abs(x * ONE) <= 2 * n * n * ONE && 2 * n * abs(y * ONE) <= 2 * n * n * ONE)
        by (nonlinear_arith)
        requires abs(x * ONE) <= n * ONE, abs(y * ONE) <= n * ONE, n > 0;
    assert(n * n * w == n * n * (re * re) + n * n * (im * im)) by (nonlinear_arith)
        requires w == re * re + im * im;
    assert(n * n * (re * re) >= (x * ONE) * (x * ONE) - 2 * n * abs(x * ONE));
    assert(n * n * (im * im) >= (y * ONE) * (y * ONE) - 2 * n * abs(y * ONE));
    assert(n * n * w >= ONE * ONE * m - 4 * n * n * ONE) by (nonlinear_arith)
        requires
            n * n * w == n * n * (re * re) + n * n * (im * im),
            n * n * (re * re) >= (x * ONE) * (x * ONE) - 2 * n * abs(x * ONE),
            n * n * (im * im) >= (y * ONE) * (y * ONE) - 2 * n * abs(y * ONE),
            2 * n * abs(x * ONE) <= 2 * n * n * ONE,
            2 * n * abs(y * ONE) <= 2 * n * n * ONE,
            (x * ONE) * (x * ONE) + (y * ONE) * (y * ONE) == ONE * ONE * m;
    assert(ONE * ONE * m >= ONE * ONE * (n * n)) by (nonlinear_arith)
        requires m >= n * n;
    assert(ONE * ONE * m < ONE * ONE * (n * n) + ONE * ONE * (2 * n + 1)) by (nonlinear_arith)
        requires m < (n + 1) * (n + 1);
    assert(w >= ONE * ONE - 4 * ONE) by (nonlinear_arith)
        requires n * n * w >= ONE * ONE * (n * n) - 4 * n * n * ONE, n > 0;
    assert(3 * ONE * (n * n) >= ONE * ONE * (2 * n + 1)) by (nonlinear_arith)
        requires n >= ONE;
    assert(w <= ONE * ONE + 3 * ONE) by (nonlinear_arith)
        requires
            n * n * w < ONE * ONE * (n * n) + ONE * ONE * (2 * n + 1),
            3 * ONE * (n * n) >= ONE * ONE * (2 * n + 1),
            n > 0;
}

/// Division toward zero keeps the sign.
pub proof fn lemma_tdiv_sign(p: int, d: int)
    requires
        d > 0,
    ensures
        p >= 0 ==> tdiv(p, d) >= 0,
        p <= 0 ==> tdiv(p, d) <= 0,
{
    if p >= 0 {
        assert(p / d >= 0) by (nonlinear_arith)
            requires p >= 0, d > 0;
    } else {
        assert((-p) / d >= 0) by (nonlinear_arith)
            requires -p > 0, d > 0;
    }
}

/// Scaling a point of the unit circle by `n` and rounding toward zero lands
/// within the disk of radius `n`.
pub proof fn lemma_scaled_circle(n: int, c: int, s: int)
    requires
        n >= 0,
        c * c + s * s <= ONE * ONE,
    ensures
        tdiv(n * c, ONE as int) * tdiv(n * c, ONE as int) + tdiv(n * s, ONE as int) * tdiv(
            n * s,
            ONE as int,
        ) <= n * n,
{
    let x = tdiv(n * c, ONE as int);
    let y = tdiv(n * s, ONE as int);
    lemma_tdiv_shrinks(n * c, ONE as int);
    lemma_tdiv_shrinks(n * s, ONE as int);
    assert(ONE * ONE * (x * x) <= (n * c) * (n * c)) by (nonlinear_arith)
        requires
            n * c >= 0 ==> 0 <= ONE * x <= n * c,
            n * c < 0 ==> n * c <= ONE * x <= 0;
    assert(ONE * ONE * (y * y) <= (n * s) * (n * s)) by (nonlinear_arith)
        requires
            n * s >= 0 ==> 0 <= ONE * y <= n * s,
            n * s < 0 ==> n * s <= ONE * y <= 0;
    assert((n * c) * (n * c) + (n * s) * (n * s) <= n * n * (ONE * ONE)) by (nonlinear_arith)
        requires c * c + s * s <= ONE * ONE;
    assert(x * x + y * y <= n * n) by (nonlinear_arith)
        requires
            ONE * ONE * (x * x) + ONE * ONE * (y * y) <= n * n * (ONE * ONE);
}

/// Rounding toward zero loses little of a square:
/// `d² · tdiv(p, d)² >= p² - 2·d·|p|`.
pub proof fn lemma_tdiv_sq_lower(p: int, d: int)
    requires
        d > 0,
    ensures
        d * d * (tdiv(p, d) * tdiv(p, d)) >= p * p - 2 * d * abs(p),
{
    let x = tdiv(p, d);
    let ap = abs(p);
    let ax = abs(x);
    if p >= 0 {
        assert(ap - d < d * (p / d) <= ap && p / d >= 0) by (nonlinear_arith)
            requires p >= 0, d > 0, ap == p;
    } else {
        assert(ap - d < d * ((-p) / d) <= ap && (-p) / d >= 0) by (nonlinear_arith)
            requires p < 0, d > 0, ap == -p;
    }
    assert(ap - d < d * ax && ax >= 0);
    assert(x * x == ax * ax) by (nonlinear_arith)
        requires ax == abs(x);
    assert(p * p == ap * ap) by (nonlinear_arith)
        requires ap == abs(p);
    if ap >= d {
        assert((d * ax) * (d * ax) >= (ap - d) * (ap - d)) by (nonlinear_arith)
            requires d * ax >= ap - d, ap - d >= 0;
        assert(d * d * (ax * ax) == (d * ax) * (d * ax)) by (nonlinear_arith);
        assert((ap - d) * (ap - d) == ap * ap - 2 * d * ap + d * d) by (nonlinear_arith);
        assert(d * d >= 0) by (nonlinear_arith);
    } else {
        assert(ap * ap - 2 * d * ap <= 0) by (nonlinear_arith)
            requires 0 <= ap < d;
        assert(d * d * (ax * ax) >= 0) by (nonlinear_arith);
    }
}

/// Scaling a point of the unit circle by `n` and rounding toward zero loses
/// little of the squared magnitude:
/// `ONE · |result|² >= ONE·n² - 2·n² - 4·ONE·n`.
pub proof fn lemma_scaled_circle_lower(n: int, c: int, s: int)
    requires
        n >= 0,
        ONE * ONE - 2 * ONE <= c * c + s * s,
        -ONE <= c <= ONE,
        -ONE <= s <= ONE,
    ensures
        ONE * (tdiv(n * c, ONE as int) * tdiv(n * c, ONE as int) + tdiv(n * s, ONE as int) * tdiv(
            n * s,
            ONE as int,
        )) >= ONE * (n * n) - 2 * (n * n) - 4 * ONE * n,
{
    let x = tdiv(n * c, ONE as int);
    let y = tdiv(n * s, ONE as int);
    lemma_tdiv_sq_lower(n * c, ONE as int);
    lemma_tdiv_sq_lower(n * s, ONE as int);
    assert(abs(n * c) <= n * ONE && abs(n * s) <= n * ONE) by (nonlinear_arith)
        requires n >= 0, -ONE <= c <= ONE, -ONE <= s <= ONE;
    assert((n * c) * (n * c) + (n * s) * (n * s) >= (n * n) * (ONE * ONE - 2 * ONE))
        by (nonlinear_arith)
        requires ONE * ONE - 2 * ONE <= c * c + s * s, n >= 0;
    assert(ONE * ONE * (x * x + y * y) >= ONE * ONE * (n * n) - 2 * ONE * (n * n) - 4 * ONE * ONE
        * n) by (nonlinear_arith)
        requires
            ONE * ONE * (x * x) >= (n * c) * (n * c) - 2 * ONE * abs(n * c),
            ONE * ONE * (y * y) >= (n * s) * (n * s) - 2 * ONE * abs(n * s),
            abs(n * c) <= n * ONE,
            abs(n * s) <= n * ONE,
            (n * c) * (n * c) + (n * s) * (n * s) >= (n * n) * (ONE * ONE - 2 * ONE);
    assert(ONE * (x * x + y * y) >= ONE * (n * n) - 2 * (n * n) - 4 * ONE * n) by (nonlinear_arith)
        requires
            ONE * ONE * (x * x + y * y) >= ONE * ONE * (n * n) - 2 * ONE * (n * n) - 4 * ONE
                * ONE * n;
}

/// The magnitude survives a round trip through the Cartesian encoding. Take
/// a polar magnitude `n`, a squared magnitude `m` that
/// [`PolarComplex::to_cartesian`] may give for it, and the magnitude `r` that
/// [`CartesianComplex::to_polar`] then takes, its integer square root. Then
/// `r <= n` and `ONE·(n - r) < 2·n + 5·ONE`: for magnitudes up to one, fewer
/// than 7 units are lost. The angle is not covered here.
pub proof fn lemma_round_trip_norm(n: int, m: int, r: int)
    requires
        0 <= n,
        m <= n * n,
        ONE * m >= ONE * (n * n) - 2 * (n * n) - 4 * ONE * n,
        is_isqrt(r, m),
    ensures
        r <= n,
        ONE * (n - r) < 2 * n + 5 * ONE,
{
    assert(r <= n) by (nonlinear_arith)
        requires r >= 0, r * r <= m, m <= n * n, n >= 0;
    let k = 2 * n + 4 * ONE;
    if ONE * (n - r) >= k + ONE {
        let x = ONE * n - k;
        assert(x >= ONE * (r + 1) > 0);
        assert(ONE * ONE * ((r + 1) * (r + 1)) <= x * x) by (nonlinear_arith)
            requires 0 < ONE * (r + 1) <= x;
        assert(ONE * ONE * m >= ONE * ONE * (n * n) - ONE * n * k) by (nonlinear_arith)
            requires ONE * m >= ONE * (n * n) - 2 * (n * n) - 4 * ONE * n, k == 2 * n + 4 * ONE;
        assert(ONE * ONE * m < ONE * ONE * ((r + 1) * (r + 1))) by (nonlinear_arith)
            requires m < (r + 1) * (r + 1);
        assert(x * x == ONE * ONE * (n * n) - 2 * (ONE * n * k) + k * k) by (nonlinear_arith)
            requires x == ONE * n - k;
        assert(ONE * n * k < k * k) by (nonlinear_arith)
            requires
                ONE * ONE * (n * n) - ONE * n * k < ONE * ONE * (n * n) - 2 * (ONE * n * k) + k * k;
        assert(ONE * n < k) by (nonlinear_arith)
            requires ONE * n * k < k * k, k > 0;
    }
}

/// The sum of points of the disks of radii `r1` and `r2` lies in the disk of
/// radius `r1 + r2`.
pub proof fn lemma_sum_in_disk(x1: int, y1: int, x2: int, y2: int, r1: int, r2: int)
    requires
        r1 >= 0,
        r2 >= 0,
        x1 * x1 + y1 * y1 <= r1 * r1,
        x2 * x2 + y2 * y2 <= r2 * r2,
    ensures
        (x1 + x2) * (x1 + x2) + (y1 + y2) * (y1 + y2) <= (r1 + r2) * (r1 + r2),
        (x1 - x2) * (x1 - x2) + (y1 - y2) * (y1 - y2) <= (r1 + r2) * (r1 + r2),
{
    let p = x1 * x2 + y1 * y2;
    assert(0 <= x1 * x1 + y1 * y1 && 0 <= x2 * x2 + y2 * y2) by (nonlinear_arith);
    let q = x1 * y2 - x2 * y1;
    let (a, b, c, d) = (x1 * x2, y1 * y2, x1 * y2, x2 * y1);
    assert(a * b == c * d) by (nonlinear_arith)
        requires a == x1 * x2, b == y1 * y2, c == x1 * y2, d == x2 * y1;
    assert(p * p == a * a + 2 * (a * b) + b * b) by (nonlinear_arith)
        requires p == a + b;
    assert(q * q == c * c - 2 * (c * d) + d * d) by (nonlinear_arith)
        requires q == c - d;
    let (u1, v1, u2, v2) = (x1 * x1, y1 * y1, x2 * x2, y2 * y2);
    assert((u1 + v1) * (u2 + v2) == u1 * u2 + u1 * v2 + v1 * u2 + v1 * v2) by (nonlinear_arith);
    assert(u1 * u2 == a * a) by (nonlinear_arith)
        requires u1 == x1 * x1, u2 == x2 * x2, a == x1 * x2;
    assert(u1 * v2 == c * c) by (nonlinear_arith)
        requires u1 == x1 * x1, v2 == y2 * y2, c == x1 * y2;
    assert(v1 * u2 == d * d) by (nonlinear_arith)
        requires v1 == y1 * y1, u2 == x2 * x2, d == x2 * y1;
    assert(v1 * v2 == b * b) by (nonlinear_arith)
        requires v1 == y1 * y1, v2 == y2 * y2, b == y1 * y2;
    assert(q * q >= 0) by (nonlinear_arith);
    assert((x1 * x1 + y1 * y1) * (x2 * x2 + y2 * y2) <= (r1 * r2) * (r1 * r2)) by (nonlinear_arith)
        requires
            0 <= x1 * x1 + y1 * y1 <= r1 * r1,
            0 <= x2 * x2 + y2 * y2 <= r2 * r2;
    assert(-(r1 * r2) <= p <= r1 * r2) by (nonlinear_arith)
        requires p * p <= (r1 * r2) * (r1 * r2), r1 * r2 >= 0;
    assert(r1 * r2 >= 0) by (nonlinear_arith)
        requires r1 >= 0, r2 >= 0;
    assert((x1 + x2) * (x1 + x2) + (y1 + y2) * (y1 + y2) <= (r1 + r2) * (r1 + r2))
        by (nonlinear_arith)
        requires
            p == x1 * x2 + y1 * y2,
            p <= r1 * r2,
            x1 * x1 + y1 * y1 <= r1 * r1,
            x2 * x2 + y2 * y2 <= r2 * r2;
    assert((x1 - x2) * (x1 - x2) + (y1 - y2) * (y1 - y2) <= (r1 + r2) * (r1 + r2))
        by (nonlinear_arith)
        requires
            p == x1 * x2 + y1 * y2,
            -(r1 * r2) <= p,
            x1 * x1 + y1 * y1 <= r1 * r1,
            x2 * x2 + y2 * y2 <= r2 * r2;
}

/// Fixed-point product of two values, rounded toward zero.
pub fn fx_mul(a: i64, b: i64) -> (r: i128)
    ensures
        r == fx_mul_spec(a as int, b as int),
{
    assert(-0x4000_0000_0000_0000_0000_0000_0000_0000 <= (a as int) * (b as int)
        <= 0x4000_0000_0000_0000_0000_0000_0000_0000) by (nonlinear_arith)
        requires
            -0x8000_0000_0000_0000 <= a <= 0x7fff_ffff_ffff_ffff,
            -0x8000_0000_0000_0000 <= b <= 0x7fff_ffff_ffff_ffff;
    tdiv_exec((a as i128) * (b as i128), ONE as i128)
}

/// The capabilities shared by both encodings.
pub trait Complex: Sized + Copy {
    /// The value is within the range the arithmetic accepts.
    spec fn wf(&self) -> bool;

    /// The squared magnitude, in units of `ONE * ONE`.
    spec fn norm_sq(&self) -> int;

    /// The two parts that [`Complex::new`] accepts.
    spec fn accepts(a: int, b: int) -> bool;

    /// Scaling by `k` keeps the value within range.
    spec fn can_scale(&self, k: int) -> bool;

    /// Builds a value from its two parts in this encoding.
    fn new(a: i64, b: i64) -> (r: Self)
        requires
            Self::accepts(a as int, b as int),
        ensures
            r.wf(),
    ;

    /// The magnitude: the integer square root of [`Complex::norm_sq`].
    fn norm(&self) -> (r: i64)
        requires
            self.wf(),
        ensures
            is_isqrt(r as int, self.norm_sq()),
    ;

    /// Multiplies the value in place by the real fixed-point factor `k`.
    fn scale(&mut self, k: i64)
        requires
            old(self).wf(),
            old(self).can_scale(k as int),
        ensures
            final(self).wf(),
    ;

    /// The angle of the value, canonical.
    fn arg(&self) -> (r: i64)
        requires
            self.wf(),
        ensures
            is_angle(r as int),
    ;

    /// Rescales the value to magnitude one. A zero value has no angle; it
    /// becomes the unit at angle 0.
    fn normalize(&mut self)
        requires
            old(self).wf(),
        ensures
            final(self).wf(),
            old(self).norm_sq() == 0 ==> final(self).norm_sq() == ONE * ONE,
    ;
}

/// Dividing a part by a magnitude at least as large gives at most `ONE`.
proof fn lemma_unit_part(x: int, n: int)
    requires
        n > 0,
        -n <= x <= n,
    ensures
        -ONE <= tdiv(x * ONE, n) <= ONE,
{
    if x >= 0 {
        assert(0 <= x * ONE <= n * ONE) by (nonlinear_arith)
            requires 0 <= x <= n;
        assert((x * ONE) / n <= ONE) by (nonlinear_arith)
            requires 0 <= x * ONE <= n * ONE, n > 0;
        assert((x * ONE) / n >= 0) by (nonlinear_arith)
            requires 0 <= x * ONE, n > 0;
    } else {
        assert(0 < (-x) * ONE <= n * ONE) by (nonlinear_arith)
            requires 0 < -x <= n;
        assert(x * ONE == -((-x) * ONE)) by (nonlinear_arith);
        assert(((-x) * ONE) / n <= ONE) by (nonlinear_arith)
            requires 0 <= (-x) * ONE <= n * ONE, n > 0;
        assert(((-x) * ONE) / n >= 0) by (nonlinear_arith)
            requires 0 <= (-x) * ONE, n > 0;
    }
}

/// A complex number `re + im·i`.
#[derive(Clone, Copy, Debug, PartialEq, Eq, Structural)]
pub struct CartesianComplex {
    pub re: i64,
    pub im: i64,
}

/// A complex number `norm·e^(arg·i)`, canonical when `norm >= 0` and `arg`
/// lies in `[0, TURN)`.
#[derive(Clone, Copy, Debug, PartialEq, Eq, Structural)]
pub struct PolarComplex {
    pub norm: i64,
    pub arg: i64,
}

/// The canonical angle of `a·e^(b·i)` once the sign of `a` is folded in.
pub open spec fn canonical_arg(a: int, b: int) -> int {
    if a < 0 {
        (b + HALF_TURN) % (TURN as int)
    } else {
        b % (TURN as int)
    }
}

/// The absolute value.
pub open spec fn abs(a: int) -> int {
    if a < 0 {
        -a
    } else {
        a
    }
}

/// The Cartesian encoding of a polar value: `(norm·cos arg, norm·sin arg)`
/// with the fixed-point cosine and sine, rounded toward zero.
pub open spec fn cartesian_of(p: PolarComplex) -> CartesianComplex {
    CartesianComplex {
        re: fx_mul_spec(p.norm as int, cos_sin_spec(p.arg as int).0) as i64,
        im: fx_mul_spec(p.norm as int, cos_sin_spec(p.arg as int).1) as i64,
    }
}

/// The polar encoding of a Cartesian value: the integer square root of the
/// squared magnitude and the fixed-point angle of the point.
pub open spec fn polar_of(c: CartesianComplex) -> PolarComplex {
    PolarComplex {
        norm: floor_sqrt(c.re * c.re + c.im * c.im) as i64,
        arg: atan2_spec(c.im as int, c.re as int) as i64,
    }
}

/// The componentwise sum of two Cartesian values.
pub open spec fn cartesian_add(a: CartesianComplex, b: CartesianComplex) -> CartesianComplex {
    CartesianComplex { re: (a.re + b.re) as i64, im: (a.im + b.im) as i64 }
}

/// The componentwise difference of two Cartesian values.
pub open spec fn cartesian_sub(a: CartesianComplex, b: CartesianComplex) -> CartesianComplex {
    CartesianComplex { re: (a.re - b.re) as i64, im: (a.im - b.im) as i64 }
}

/// The unit value in the direction of `(re, im)` after scaling both parts by
/// `s`: each scaled part times `ONE`, divided by the scaled magnitude.
pub open spec fn unit_toward(s: int, re: int, im: int) -> CartesianComplex {
    let n = floor_sqrt((s * re) * (s * re) + (s * im) * (s * im));
    CartesianComplex { re: tdiv(s * re * ONE, n) as i64, im: tdiv(s * im * ONE, n) as i64 }
}

impl Complex for CartesianComplex {
    open spec fn wf(&self) -> bool {
        self.re * self.re + self.im * self.im <= LIMIT * LIMIT
    }

    open spec fn norm_sq(&self) -> int {
        self.re * self.re + self.im * self.im
    }

    open spec fn accepts(a: int, b: int) -> bool {
        a * a + b * b <= LIMIT * LIMIT
    }

    open spec fn can_scale(&self, k: int) -> bool {
        fx_mul_spec(self.re as int, k) * fx_mul_spec(self.re as int, k) + fx_mul_spec(
            self.im as int,
            k,
        ) * fx_mul_spec(self.im as int, k) <= LIMIT * LIMIT
    }

    fn new(a: i64, b: i64) -> (r: Self)
        ensures
            r.re == a,
            r.im == b,
    {
        CartesianComplex { re: a, im: b }
    }

    fn norm(&self) -> (r: i64)
        ensures
            r == floor_sqrt(self.norm_sq()),
    {
        proof {
            lemma_disk_in_range(self.re as int, self.im as int);
        }
        let re: i128 = self.re as i128;
        let im: i128 = self.im as i128;
        assert(0 <= re * re && 0 <= im * im) by (nonlinear_arith);
        let n: i128 = re * re + im * im;
        let r: u64 = isqrt(n as u128);
        assert(r <= LIMIT) by (nonlinear_arith)
            requires r * r <= n, n <= LIMIT * LIMIT, r >= 0;
        r as i64
    }

    fn scale(&mut self, k: i64)
        ensures
            final(self).re == fx_mul_spec(old(self).re as int, k as int),
            final(self).im == fx_mul_spec(old(self).im as int, k as int),
    {
        let re: i128 = fx_mul(self.re, k);
        let im: i128 = fx_mul(self.im, k);
        proof {
            lemma_disk_in_range(re as int, im as int);
        }
        self.re = re as i64;
        self.im = im as i64;
    }

    /// The angle of the point `(re, im)`; exact on the axes, and in the
    /// quadrant of the point elsewhere.
    fn arg(&self) -> (r: i64)
        ensures
            r == atan2_spec(self.im as int, self.re as int),
            self.re == 0 && self.im == 0 ==> r == 0,
            self.re > 0 && self.im == 0 ==> r == 0,
            self.re == 0 && self.im > 0 ==> r == QUARTER_TURN,
            self.re < 0 && self.im == 0 ==> r == HALF_TURN,
            self.re == 0 && self.im < 0 ==> r == 3 * QUARTER_TURN,
            self.re > 0 && self.im > 0 ==> r <= QUARTER_TURN,
            self.re < 0 && self.im > 0 ==> QUARTER_TURN <= r <= HALF_TURN,
            self.re < 0 && self.im < 0 ==> HALF_TURN <= r <= 3 * QUARTER_TURN,
            self.re > 0 && self.im < 0 ==> r == 0 || 3 * QUARTER_TURN <= r,
    {
        proof {
            lemma_disk_in_range(self.re as int, self.im as int);
        }
        atan2(self.im, self.re)
    }

    /// Both parts are first doubled until the squared magnitude reaches
    /// `ONE * ONE`, then divided by the magnitude; the direction is kept and
    /// the magnitude comes out within a few units of one.
    fn normalize(&mut self)
        ensures
            old(self).norm_sq() == 0 ==> *final(self) == (CartesianComplex { re: ONE, im: 0 }),
            old(self).norm_sq() != 0 ==> exists|s: int|
                s >= 1 && *final(self) == #[trigger] unit_toward(s, old(self).re as int, old(self).im as int),
            old(self).norm_sq() != 0 ==> ONE * ONE - 4 * ONE <= final(self).norm_sq() <= ONE * ONE
                + 3 * ONE,
    {
        proof {
            lemma_disk_in_range(self.re as int, self.im as int);
        }
        if self.re == 0 && self.im == 0 {
            self.re = ONE;
            self.im = 0;
            return;
        }
        let ghost re0 = self.re as int;
        let ghost im0 = self.im as int;
        let mut x: i128 = self.re as i128;
        let mut y: i128 = self.im as i128;
        let ghost mut sc: int = 1;
        let one_sq: i128 = (ONE as i128) * (ONE as i128);
        assert(x * x + y * y >= 1) by (nonlinear_arith)
            requires x != 0 || y != 0;
        assert(0 <= x * x <= LIMIT * LIMIT && 0 <= y * y <= LIMIT * LIMIT) by (nonlinear_arith)
            requires x * x + y * y <= LIMIT * LIMIT;
        while x * x + y * y < one_sq
            invariant
                sc >= 1,
                one_sq == ONE * ONE,
                x == sc * re0,
                y == sc * im0,
                1 <= x * x + y * y <= LIMIT * LIMIT,
                -LIMIT <= x <= LIMIT,
                -LIMIT <= y <= LIMIT,
                0 <= x * x <= LIMIT * LIMIT,
                0 <= y * y <= LIMIT * LIMIT,
            decreases 4 * (ONE as int) * (ONE as int) - (x * x + y * y),
        {
            assert((2 * x) * (2 * x) + (2 * y) * (2 * y) == 4 * (x * x + y * y)) by (nonlinear_arith);
            proof {
                lemma_square_le(ONE as int, (LIMIT / 2) as int);
                lemma_disk_in_range(2 * x, 2 * y);
            }
            assert(0 <= (2 * x) * (2 * x) <= LIMIT * LIMIT && 0 <= (2 * y) * (2 * y) <= LIMIT * LIMIT)
                by (nonlinear_arith)
                requires (2 * x) * (2 * x) + (2 * y) * (2 * y) <= LIMIT * LIMIT;
            assert(2 * x == (2 * sc) * re0 && 2 * y == (2 * sc) * im0) by (nonlinear_arith)
                requires x == sc * re0, y == sc * im0;
            x = 2 * x;
            y = 2 * y;
            proof {
                sc = 2 * sc;
            }
        }
        let m: i128 = x * x + y * y;
        let n: u64 = isqrt(m as u128);
        assert(ONE <= n <= LIMIT) by (nonlinear_arith)
            requires n * n <= m < (n + 1) * (n + 1), ONE * ONE <= m <= LIMIT * LIMIT, n >= 0;
        assert(-(n as int) <= x <= n && -(n as int) <= y <= n) by (nonlinear_arith)
            requires x * x + y * y < (n + 1) * (n + 1), n > 0;
        proof {
            lemma_disk_in_range(x as int, y as int);
        }
        assert(-LIMIT * ONE <= x * (ONE as i128) <= LIMIT * ONE) by (nonlinear_arith)
            requires in_range(x as int);
        assert(-LIMIT * ONE <= y * (ONE as i128) <= LIMIT * ONE) by (nonlinear_arith)
            requires in_range(y as int);
        let re: i128 = tdiv_exec(x * (ONE as i128), n as i128);
        let im: i128 = tdiv_exec(y * (ONE as i128), n as i128);
        proof {
            lemma_unit_part(x as int, n as int);
            lemma_unit_part(y as int, n as int);
            lemma_unit_magnitude(x as int, y as int, n as int, re as int, im as int);
            assert(sc * re0 * ONE == x * ONE);
            assert(sc * im0 * ONE == y * ONE);
        }
        assert(re * re + im * im <= LIMIT * LIMIT) by (nonlinear_arith)
            requires -ONE <= re <= ONE, -ONE <= im <= ONE;
        self.re = re as i64;
        self.im = im as i64;
        assert(*self == unit_toward(sc, re0, im0));
    }
}

impl Complex for PolarComplex {
    open spec fn wf(&self) -> bool {
        0 <= self.norm <= LIMIT && is_angle(self.arg as int)
    }

    open spec fn norm_sq(&self) -> int {
        self.norm * self.norm
    }

    open spec fn accepts(a: int, b: int) -> bool {
        in_range(a)
    }

    open spec fn can_scale(&self, k: int) -> bool {
        fx_mul_spec(self.norm as int, abs(k)) <= LIMIT
    }

    /// The sign of `a` is folded into the angle, which is then reduced.
    fn new(a: i64, b: i64) -> (r: Self)
        ensures
            r.norm == abs(a as int),
            r.arg == canonical_arg(a as int, b as int),
    {
        let arg: i64 = reduce_angle(b);
        if a < 0 {
            proof {
                vstd::arithmetic::div_mod::lemma_add_mod_noop(b as int, HALF_TURN as int, TURN as int);
                vstd::arithmetic::div_mod::lemma_mod_twice(HALF_TURN as int, TURN as int);
            }
            PolarComplex { norm: -a, arg: add_angles(arg, HALF_TURN) }
        } else {
            PolarComplex { norm: a, arg }
        }
    }

    fn norm(&self) -> (r: i64) {
        assert(self.norm * self.norm < (self.norm + 1) * (self.norm + 1)) by (nonlinear_arith)
            requires self.norm >= 0;
        self.norm
    }

    /// A negative factor adds half a turn to the angle; a result of zero
    /// magnitude has angle 0.
    fn scale(&mut self, k: i64)
        ensures
            final(self).norm == fx_mul_spec(old(self).norm as int, abs(k as int)),
            final(self).arg == if final(self).norm == 0 {
                0
            } else if k < 0 {
                (old(self).arg + HALF_TURN) % (TURN as int)
            } else {
                old(self).arg as int
            },
    {
        let mag: i128 = if k < 0 { -(k as i128) } else { k as i128 };
        assert(0 <= (self.norm as int) * (mag as int) <= LIMIT * 0x8000_0000_0000_0000)
            by (nonlinear_arith)
            requires 0 <= self.norm <= LIMIT, 0 <= mag <= 0x8000_0000_0000_0000;
        let n: i128 = tdiv_exec((self.norm as i128) * mag, ONE as i128);
        proof {
            lemma_tdiv_shrinks((self.norm as int) * (mag as int), ONE as int);
        }
        self.norm = n as i64;
        if n == 0 {
            self.arg = 0;
        } else if k < 0 {
            self.arg = add_angles(self.arg, HALF_TURN);
        }
    }

    fn arg(&self) -> (r: i64)
        ensures
            r == self.arg,
    {
        self.arg
    }

    /// The magnitude becomes one; a zero value takes angle 0.
    fn normalize(&mut self)
        ensures
            final(self).norm == ONE,
            final(self).arg == if old(self).norm == 0 {
                0
            } else {
                old(self).arg as int
            },
    {
        if self.norm == 0 {
            self.arg = 0;
        }
        self.norm = ONE;
    }
}

/// `n·ONE / ONE` is `n`, whatever its sign.
pub proof fn lemma_tdiv_unit(n: int)
    ensures
        tdiv(n * ONE, ONE as int) == n,
        tdiv(-n * ONE, ONE as int) == -n,
        tdiv(n * 0, ONE as int) == 0,
{
    if n >= 0 {
        assert((n * ONE) / (ONE as int) == n) by (nonlinear_arith)
            requires n >= 0;
    } else {
        assert(((-n) * ONE) / (ONE as int) == -n) by (nonlinear_arith)
            requires n < 0;
    }
    assert(n * ONE < 0 <==> n < 0) by (nonlinear_arith);
    assert(-n * ONE == -(n * ONE)) by (nonlinear_arith);
    assert(n * 0 == 0);
}

impl CartesianComplex {
    /// The point `(x, y)` lies within the disk of radius `LIMIT`.
    pub open spec fn in_disk(x: int, y: int) -> bool {
        x * x + y * y <= LIMIT * LIMIT
    }

    /// The real part of the product `self · rhs`.
    pub open spec fn mul_re(self, rhs: Self) -> int {
        tdiv(self.re * rhs.re - self.im * rhs.im, ONE as int)
    }

    /// The imaginary part of the product `self · rhs`.
    pub open spec fn mul_im(self, rhs: Self) -> int {
        tdiv(self.re * rhs.im + self.im * rhs.re, ONE as int)
    }

    /// Componentwise sum.
    pub fn add(self, rhs: Self) -> (r: Self)
        requires
            self.wf(),
            rhs.wf(),
            Self::in_disk(self.re + rhs.re, self.im + rhs.im),
        ensures
            r.re == self.re + rhs.re,
            r.im == self.im + rhs.im,
    {
        proof {
            lemma_disk_in_range(self.re as int, self.im as int);
            lemma_disk_in_range(rhs.re as int, rhs.im as int);
        }
        CartesianComplex { re: self.re + rhs.re, im: self.im + rhs.im }
    }

    /// Componentwise difference.
    pub fn sub(self, rhs: Self) -> (r: Self)
        requires
            self.wf(),
            rhs.wf(),
            Self::in_disk(self.re - rhs.re, self.im - rhs.im),
        ensures
            r.re == self.re - rhs.re,
            r.im == self.im - rhs.im,
    {
        proof {
            lemma_disk_in_range(self.re as int, self.im as int);
            lemma_disk_in_range(rhs.re as int, rhs.im as int);
        }
        CartesianComplex { re: self.re - rhs.re, im: self.im - rhs.im }
    }

    /// The complex product `(ac - bd) + (ad + bc)·i`, in fixed point.
    pub fn mul(self, rhs: Self) -> (r: Self)
        requires
            self.wf(),
            rhs.wf(),
            Self::in_disk(self.mul_re(rhs), self.mul_im(rhs)),
        ensures
            r.re == self.mul_re(rhs),
            r.im == self.mul_im(rhs),
    {
        proof {
            lemma_disk_in_range(self.re as int, self.im as int);
            lemma_disk_in_range(rhs.re as int, rhs.im as int);
            lemma_disk_in_range(self.mul_re(rhs), self.mul_im(rhs));
        }
        let (a, b, c, d) = (self.re as i128, self.im as i128, rhs.re as i128, rhs.im as i128);
        assert(-LIMIT * LIMIT <= a * c <= LIMIT * LIMIT) by (nonlinear_arith)
            requires in_range(a as int), in_range(c as int);
        assert(-LIMIT * LIMIT <= b * d <= LIMIT * LIMIT) by (nonlinear_arith)
            requires in_range(b as int), in_range(d as int);
        assert(-LIMIT * LIMIT <= a * d <= LIMIT * LIMIT) by (nonlinear_arith)
            requires in_range(a as int), in_range(d as int);
        assert(-LIMIT * LIMIT <= b * c <= LIMIT * LIMIT) by (nonlinear_arith)
            requires in_range(b as int), in_range(c as int);
        let re: i128 = tdiv_exec(a * c - b * d, ONE as i128);
        let im: i128 = tdiv_exec(a * d + b * c, ONE as i128);
        CartesianComplex { re: re as i64, im: im as i64 }
    }

    /// The polar encoding: the magnitude is the integer square root of the
    /// squared magnitude, the angle that of the point; on the axes both are
    /// exact.
    pub fn to_polar(&self) -> (r: PolarComplex)
        requires
            self.wf(),
        ensures
            r.wf(),
            r == polar_of(*self),
            is_isqrt(r.norm as int, self.norm_sq()),
            self.im == 0 && self.re >= 0 ==> r.norm == self.re && r.arg == 0,
            self.re == 0 && self.im > 0 ==> r.norm == self.im && r.arg == QUARTER_TURN,
            self.im == 0 && self.re < 0 ==> r.norm == -self.re && r.arg == HALF_TURN,
            self.re == 0 && self.im < 0 ==> r.norm == -self.im && r.arg == 3 * QUARTER_TURN,
    {
        let norm: i64 = self.norm();
        proof {
            lemma_disk_in_range(self.re as int, self.im as int);
        }
        let arg: i64 = atan2(self.im, self.re);
        proof {
            if self.im == 0 {
                assert(self.norm_sq() == abs(self.re as int) * abs(self.re as int))
                    by (nonlinear_arith)
                    requires self.im == 0, self.norm_sq() == self.re * self.re + self.im * self.im;
                crate::trig::lemma_isqrt_of_square(norm as int, abs(self.re as int));
            }
            if self.re == 0 {
                assert(self.norm_sq() == abs(self.im as int) * abs(self.im as int))
                    by (nonlinear_arith)
                    requires self.re == 0, self.norm_sq() == self.re * self.re + self.im * self.im;
                crate::trig::lemma_isqrt_of_square(norm as int, abs(self.im as int));
            }
        }
        assert(norm <= LIMIT) by (nonlinear_arith)
            requires norm * norm <= self.norm_sq(), self.norm_sq() <= LIMIT * LIMIT, norm >= 0;
        PolarComplex { norm, arg }
    }
}

impl PolarComplex {
    /// The product: magnitudes multiply, angles add modulo a full turn.
    pub fn mul(self, rhs: Self) -> (r: Self)
        requires
            self.wf(),
            rhs.wf(),
            fx_mul_spec(self.norm as int, rhs.norm as int) <= LIMIT,
        ensures
            r.wf(),
            r.norm == fx_mul_spec(self.norm as int, rhs.norm as int),
            r.arg == (self.arg + rhs.arg) % (TURN as int),
    {
        let n: i128 = fx_mul(self.norm, rhs.norm);
        assert(self.norm * rhs.norm >= 0) by (nonlinear_arith)
            requires self.norm >= 0, rhs.norm >= 0;
        PolarComplex { norm: n as i64, arg: add_angles(self.arg, rhs.arg) }
    }

    /// The Cartesian encoding `(norm·cos arg, norm·sin arg)`; it never lies
    /// outside the circle of radius `norm`, and on the axes it is exact.
    pub fn to_cartesian(&self) -> (r: CartesianComplex)
        requires
            self.wf(),
        ensures
            r.wf(),
            r == cartesian_of(*self),
            self.arg < QUARTER_TURN ==> r.re >= 0 && r.im >= 0,
            QUARTER_TURN <= self.arg < HALF_TURN ==> r.re <= 0 && r.im >= 0,
            HALF_TURN <= self.arg < 3 * QUARTER_TURN ==> r.re <= 0 && r.im <= 0,
            3 * QUARTER_TURN <= self.arg ==> r.re >= 0 && r.im <= 0,
            r.norm_sq() <= self.norm * self.norm,
            ONE * r.norm_sq() >= ONE * (self.norm * self.norm) - 2 * (self.norm * self.norm) - 4
                * ONE * self.norm,
            self.norm == 0 ==> r.re == 0 && r.im == 0,
            self.arg == 0 ==> r.re == self.norm && r.im == 0,
            self.arg == QUARTER_TURN ==> r.re == 0 && r.im == self.norm,
            self.arg == HALF_TURN ==> r.re == -self.norm && r.im == 0,
            self.arg == 3 * QUARTER_TURN ==> r.re == 0 && r.im == -self.norm,
    {
        let (c, s) = cos_sin(self.arg);
        let re: i128 = fx_mul(self.norm, c);
        let im: i128 = fx_mul(self.norm, s);
        proof {
            lemma_scaled_circle(self.norm as int, c as int, s as int);
            lemma_scaled_circle_lower(self.norm as int, c as int, s as int);
            assert(c <= 0 ==> (self.norm as int) * (c as int) <= 0) by (nonlinear_arith)
                requires self.norm >= 0;
            assert(s <= 0 ==> (self.norm as int) * (s as int) <= 0) by (nonlinear_arith)
                requires self.norm >= 0;
            assert(c >= 0 ==> (self.norm as int) * (c as int) >= 0) by (nonlinear_arith)
                requires self.norm >= 0;
            assert(s >= 0 ==> (self.norm as int) * (s as int) >= 0) by (nonlinear_arith)
                requires self.norm >= 0;
            lemma_tdiv_sign((self.norm as int) * (c as int), ONE as int);
            lemma_tdiv_sign((self.norm as int) * (s as int), ONE as int);
            lemma_tdiv_unit(self.norm as int);
            lemma_square_le(self.norm as int, LIMIT as int);
            assert((self.norm as int) * (c as int) == 0 && (self.norm as int) * (s as int) == 0
                ==> re == 0 && im == 0);
            assert(self.norm == 0 ==> (self.norm as int) * (c as int) == 0
                && (self.norm as int) * (s as int) == 0) by (nonlinear_arith);
            assert(-(self.norm as int) * ONE == (self.norm as int) * (-ONE)) by (nonlinear_arith);
            lemma_disk_in_range(re as int, im as int);
        }
        CartesianComplex { re: re as i64, im: im as i64 }
    }

    /// Turns the value by the angle `phi`, which may be any integer.
    pub fn phase_shift_by(&mut self, phi: i64)
        requires
            old(self).wf(),
        ensures
            final(self).wf(),
            final(self).norm == old(self).norm,
            final(self).arg == (old(self).arg + phi) % (TURN as int),
    {
        let turn: i64 = reduce_angle(phi);
        proof {
            vstd::arithmetic::div_mod::lemma_add_mod_noop(self.arg as int, phi as int, TURN as int);
            vstd::arithmetic::div_mod::lemma_small_mod(self.arg as nat, TURN as nat);
        }
        self.arg = add_angles(self.arg, turn);
    }

    /// The sum, computed in the Cartesian encoding.
    pub fn add(self, rhs: Self) -> (r: Self)
        requires
            self.wf(),
            rhs.wf(),
            self.norm + rhs.norm <= LIMIT,
        ensures
            r.wf(),
            r == polar_of(cartesian_add(cartesian_of(self), cartesian_of(rhs))),
            r.norm <= self.norm + rhs.norm,
            self.arg == 0 && rhs.arg == 0 ==> r == (PolarComplex {
                norm: (self.norm + rhs.norm) as i64,
                arg: 0,
            }),
            rhs.norm == 0 && self.arg == 0 ==> r == self,
    {
        let a: CartesianComplex = self.to_cartesian();
        let b: CartesianComplex = rhs.to_cartesian();
        proof {
            lemma_sum_in_disk(a.re as int, a.im as int, b.re as int, b.im as int,
                self.norm as int, rhs.norm as int);
            lemma_square_le(self.norm + rhs.norm, LIMIT as int);
        }
        let sum: CartesianComplex = a.add(b);
        let r: PolarComplex = sum.to_polar();
        assert(r.norm <= self.norm + rhs.norm) by (nonlinear_arith)
            requires
                r.norm * r.norm <= sum.norm_sq(),
                sum.norm_sq() <= (self.norm + rhs.norm) * (self.norm + rhs.norm),
                r.norm >= 0,
                self.norm + rhs.norm >= 0;
        r
    }

    /// The difference, computed in the Cartesian encoding.
    pub fn sub(self, rhs: Self) -> (r: Self)
        requires
            self.wf(),
            rhs.wf(),
            self.norm + rhs.norm <= LIMIT,
        ensures
            r.wf(),
            r == polar_of(cartesian_sub(cartesian_of(self), cartesian_of(rhs))),
            r.norm <= self.norm + rhs.norm,
            self.arg == 0 && rhs.arg == 0 && self.norm >= rhs.norm ==> r == (PolarComplex {
                norm: (self.norm - rhs.norm) as i64,
                arg: 0,
            }),
            self.arg == 0 && rhs.arg == 0 && self.norm < rhs.norm ==> r == (PolarComplex {
                norm: (rhs.norm - self.norm) as i64,
                arg: HALF_TURN,
            }),
            rhs.norm == 0 && self.arg == 0 ==> r == self,
    {
        let a: CartesianComplex = self.to_cartesian();
        let b: CartesianComplex = rhs.to_cartesian();
        proof {
            lemma_sum_in_disk(a.re as int, a.im as int, b.re as int, b.im as int,
                self.norm as int, rhs.norm as int);
            lemma_square_le(self.norm + rhs.norm, LIMIT as int);
        }
        let diff: CartesianComplex = a.sub(b);
        let r: PolarComplex = diff.to_polar();
        assert(r.norm <= self.norm + rhs.norm) by (nonlinear_arith)
            requires
                r.norm * r.norm <= diff.norm_sq(),
                diff.norm_sq() <= (self.norm + rhs.norm) * (self.norm + rhs.norm),
                r.norm >= 0,
                self.norm + rhs.norm >= 0;
        r
    }
}

} // verus!
