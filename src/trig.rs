//! Sine, cosine and the angle of a point, on fixed-point values.
//!
//! A sine polynomial covers the first eighth of a turn; the complementary
//! value comes from an integer square root, so every (cosine, sine) pair lies
//! on the unit circle up to the rounding of that root.
use vstd::prelude::*;
use crate::fixed::{
    floor_sqrt, is_angle, is_isqrt, isqrt, in_range, HALF_TURN, LIMIT, ONE, QUARTER_TURN, TURN,
};

verus! {

/// π/2 in fixed point.
pub const PI_HALF: i64 = 1686629713;

/// An eighth of a turn (π/4) in angle units.
pub const EIGHTH_TURN: i64 = 536870912;

/// `(c, s)` lies on the unit circle, up to the rounding of one square root.
pub open spec fn near_unit(c: int, s: int) -> bool {
    ONE * ONE - 2 * ONE <= c * c + s * s <= ONE * ONE
}

/// One Horner step of the polynomials: `ONE - (u·t / ONE) / k`.
pub open spec fn horner_spec(u: int, t: int, k: int) -> int {
    ONE - (u * t / (ONE as int)) / k
}

/// The fixed-point sine of an angle in the first eighth of a turn: the
/// Taylor polynomial to the ninth power, evaluated by Horner steps.
pub open spec fn sin_octant_spec(r: int) -> int {
    let x = r * PI_HALF / (QUARTER_TURN as int);
    let u = x * x / (ONE as int);
    let t = horner_spec(
        u,
        horner_spec(u, horner_spec(u, horner_spec(u, ONE as int, 72), 42), 20),
        6,
    );
    x * t / (ONE as int)
}

/// The other leg of the unit right triangle with leg `v`.
pub open spec fn complement_spec(v: int) -> int {
    floor_sqrt(ONE * ONE - v * v)
}

/// The fixed-point cosine and sine of a canonical angle: the polynomial
/// gives the smaller of the two in its quadrant, the square root the other,
/// and the quadrant sets the signs.
pub open spec fn cos_sin_spec(a: int) -> (int, int) {
    let q = a / (QUARTER_TURN as int);
    let r = a % (QUARTER_TURN as int);
    let (c0, s0) = if r <= EIGHTH_TURN {
        (complement_spec(sin_octant_spec(r)), sin_octant_spec(r))
    } else {
        (sin_octant_spec(QUARTER_TURN - r), complement_spec(sin_octant_spec(QUARTER_TURN - r)))
    };
    if q == 0 {
        (c0, s0)
    } else if q == 1 {
        (-s0, c0)
    } else if q == 2 {
        (-c0, -s0)
    } else {
        (s0, -c0)
    }
}

/// The angle in `[lo, hi]` that bisection on [`sin_octant_spec`] finds for
/// `target`: the first angle whose sine reaches the target, where the sine
/// rises over the interval.
pub open spec fn bisect_spec(lo: int, hi: int, target: int) -> int
    decreases hi - lo,
{
    if lo < hi {
        let mid = lo + (hi - lo) / 2;
        if sin_octant_spec(mid) >= target {
            bisect_spec(lo, mid, target)
        } else {
            bisect_spec(mid + 1, hi, target)
        }
    } else {
        lo
    }
}

/// The angle of a point with nonnegative coordinates, not the origin.
pub open spec fn quadrant_angle_spec(x: int, y: int) -> int {
    let r = floor_sqrt(x * x + y * y);
    if y <= x {
        bisect_spec(0, EIGHTH_TURN as int, y * ONE / r)
    } else {
        QUARTER_TURN - bisect_spec(0, EIGHTH_TURN as int, x * ONE / r)
    }
}

/// The angle of the point `(x, y)`, canonical; 0 at the origin.
pub open spec fn atan2_spec(y: int, x: int) -> int {
    if x == 0 && y == 0 {
        0
    } else {
        let b = quadrant_angle_spec(abs_int(x), abs_int(y));
        if x >= 0 && y >= 0 {
            b
        } else if y >= 0 {
            HALF_TURN - b
        } else if x < 0 {
            HALF_TURN + b
        } else if b == 0 {
            0
        } else {
            TURN - b
        }
    }
}

/// The absolute value.
pub open spec fn abs_int(a: int) -> int {
    if a < 0 {
        -a
    } else {
        a
    }
}

/// The root of a perfect square is its base.
pub proof fn lemma_isqrt_of_square(k: int, m: int)
    requires
        m >= 0,
        is_isqrt(k, m * m),
    ensures
        k == m,
{
    if k < m {
        assert((k + 1) * (k + 1) <= m * m) by (nonlinear_arith)
            requires 0 <= k, k + 1 <= m;
    } else if k > m {
        assert(k * k > m * m) by (nonlinear_arith)
            requires 0 <= m, m < k;
    }
}

/// One Horner step, `ONE - u·t / (k·ONE)`, on values in `[0, ONE]`.
fn horner_step(u: i64, t: i64, k: i64) -> (r: i64)
    requires
        0 <= u <= ONE,
        0 <= t <= ONE,
        k >= 1,
    ensures
        0 <= r <= ONE,
        r == horner_spec(u as int, t as int, k as int),
        u == 0 ==> r == ONE,
{
    assert(0 <= u * t <= ONE * ONE) by (nonlinear_arith)
        requires 0 <= u <= ONE, 0 <= t <= ONE;
    let p: i64 = u * t / ONE;
    assert(p <= ONE) by (nonlinear_arith)
        requires p == (u * t) / (ONE as int), u * t <= ONE * ONE;
    ONE - p / k
}

/// Sine of an angle in the first eighth of a turn, by its Taylor polynomial
/// to the ninth power.
pub fn sin_octant(r: i64) -> (s: i64)
    requires
        0 <= r <= EIGHTH_TURN,
    ensures
        0 <= s <= ONE,
        s == sin_octant_spec(r as int),
        r == 0 ==> s == 0,
{
    assert(0 <= r * PI_HALF <= EIGHTH_TURN * PI_HALF) by (nonlinear_arith)
        requires 0 <= r <= EIGHTH_TURN;
    let x: i64 = r * PI_HALF / QUARTER_TURN;
    assert(x <= ONE) by (nonlinear_arith)
        requires x == (r * PI_HALF) / (QUARTER_TURN as int), r * PI_HALF <= EIGHTH_TURN * PI_HALF;
    assert(0 <= x * x <= ONE * ONE) by (nonlinear_arith)
        requires 0 <= x <= ONE;
    let u: i64 = x * x / ONE;
    assert(u <= ONE) by (nonlinear_arith)
        requires u == (x * x) / (ONE as int), x * x <= ONE * ONE;
    let mut t: i64 = horner_step(u, ONE, 72);
    t = horner_step(u, t, 42);
    t = horner_step(u, t, 20);
    t = horner_step(u, t, 6);
    assert(0 <= x * t <= ONE * ONE) by (nonlinear_arith)
        requires 0 <= x <= ONE, 0 <= t <= ONE;
    let s: i64 = x * t / ONE;
    assert(r == 0 ==> x == 0);
    assert(x == 0 ==> x * t == 0) by (nonlinear_arith);
    assert(s <= ONE) by (nonlinear_arith)
        requires s == (x * t) / (ONE as int), x * t <= ONE * ONE;
    s
}

/// The other leg of the unit right triangle: `isqrt(ONE² - v²)`.
fn complement(v: i64) -> (w: i64)
    requires
        0 <= v <= ONE,
    ensures
        0 <= w <= ONE,
        near_unit(v as int, w as int),
        w == complement_spec(v as int),
        v == 0 ==> w == ONE,
        v == ONE ==> w == 0,
{
    assert(0 <= v * v <= ONE * ONE) by (nonlinear_arith)
        requires 0 <= v <= ONE;
    let n: i64 = ONE * ONE - v * v;
    let w: u64 = isqrt(n as u128);
    assert(w <= ONE) by (nonlinear_arith)
        requires w * w <= ONE * ONE, w >= 0;
    assert(near_unit(v as int, w as int)) by (nonlinear_arith)
        requires
            w * w <= n,
            n < (w + 1) * (w + 1),
            n == ONE * ONE - v * v,
            0 <= w <= ONE;
    proof {
        if v == 0 {
            lemma_isqrt_of_square(w as int, ONE as int);
        }
        if v == ONE {
            lemma_isqrt_of_square(w as int, 0);
        }
    }
    w as i64
}

/// Cosine and sine of a canonical angle.
pub fn cos_sin(a: i64) -> (cs: (i64, i64))
    requires
        is_angle(a as int),
    ensures
        -ONE <= cs.0 <= ONE,
        -ONE <= cs.1 <= ONE,
        near_unit(cs.0 as int, cs.1 as int),
        cs.0 == cos_sin_spec(a as int).0,
        cs.1 == cos_sin_spec(a as int).1,
        a < QUARTER_TURN ==> cs.0 >= 0 && cs.1 >= 0,
        QUARTER_TURN <= a < HALF_TURN ==> cs.0 <= 0 && cs.1 >= 0,
        HALF_TURN <= a < 3 * QUARTER_TURN ==> cs.0 <= 0 && cs.1 <= 0,
        3 * QUARTER_TURN <= a ==> cs.0 >= 0 && cs.1 <= 0,
        a == 0 ==> cs.0 == ONE && cs.1 == 0,
        a == QUARTER_TURN ==> cs.0 == 0 && cs.1 == ONE,
        a == HALF_TURN ==> cs.0 == -ONE && cs.1 == 0,
        a == 3 * QUARTER_TURN ==> cs.0 == 0 && cs.1 == -ONE,
{
    let q: i64 = a / QUARTER_TURN;
    let r: i64 = a % QUARTER_TURN;
    let c0: i64;
    let s0: i64;
    if r <= EIGHTH_TURN {
        s0 = sin_octant(r);
        c0 = complement(s0);
    } else {
        c0 = sin_octant(QUARTER_TURN - r);
        s0 = complement(c0);
    }
    assert(near_unit(c0 as int, s0 as int)) by (nonlinear_arith)
        requires near_unit(s0 as int, c0 as int) || near_unit(c0 as int, s0 as int);
    if q == 0 {
        (c0, s0)
    } else if q == 1 {
        assert(near_unit(-s0, c0 as int)) by (nonlinear_arith)
            requires near_unit(c0 as int, s0 as int);
        (-s0, c0)
    } else if q == 2 {
        assert(near_unit(-c0, -s0)) by (nonlinear_arith)
            requires near_unit(c0 as int, s0 as int);
        (-c0, -s0)
    } else {
        assert(near_unit(s0 as int, -c0)) by (nonlinear_arith)
            requires near_unit(c0 as int, s0 as int);
        (s0, -c0)
    }
}

/// The smallest angle in the first eighth of a turn whose sine reaches
/// `target`, found by bisection; `EIGHTH_TURN` where none does.
fn asin_octant(target: i64) -> (a: i64)
    requires
        0 <= target <= ONE,
    ensures
        0 <= a <= EIGHTH_TURN,
        a == bisect_spec(0, EIGHTH_TURN as int, target as int),
        target == 0 ==> a == 0,
{
    let mut lo: i64 = 0;
    let mut hi: i64 = EIGHTH_TURN;
    while lo < hi
        invariant
            0 <= lo <= hi <= EIGHTH_TURN,
            target == 0 ==> lo == 0,
            bisect_spec(lo as int, hi as int, target as int) == bisect_spec(
                0,
                EIGHTH_TURN as int,
                target as int,
            ),
        decreases hi - lo,
    {
        let mid: i64 = lo + (hi - lo) / 2;
        if sin_octant(mid) >= target {
            hi = mid;
        } else {
            lo = mid + 1;
        }
    }
    lo
}

/// The angle of a nonnegative point, in `[0, QUARTER_TURN]`.
fn quadrant_angle(x: i64, y: i64) -> (a: i64)
    requires
        0 <= x <= LIMIT,
        0 <= y <= LIMIT,
        x > 0 || y > 0,
    ensures
        0 <= a <= QUARTER_TURN,
        a == quadrant_angle_spec(x as int, y as int),
        y == 0 ==> a == 0,
        x == 0 ==> a == QUARTER_TURN,
{
    assert(x * x + y * y <= 2 * LIMIT * LIMIT) by (nonlinear_arith)
        requires 0 <= x <= LIMIT, 0 <= y <= LIMIT;
    let xx: i128 = x as i128;
    let yy: i128 = y as i128;
    let n: i128 = xx * xx + yy * yy;
    let r: u64 = isqrt(n as u128);
    assert(x <= r && y <= r && r > 0) by (nonlinear_arith)
        requires
            r * r <= n < (r + 1) * (r + 1),
            n == x * x + y * y,
            0 <= x,
            0 <= y,
            x > 0 || y > 0,
            r >= 0;
    let rr: i128 = r as i128;
    if y <= x {
        assert(yy * (ONE as i128) / (rr as int) <= ONE) by (nonlinear_arith)
            requires 0 <= yy <= rr, rr > 0;
        assert(0 <= yy * (ONE as i128) <= LIMIT * ONE) by (nonlinear_arith)
            requires 0 <= yy <= LIMIT;
        assert(yy == 0 ==> yy * (ONE as i128) / (rr as int) == 0) by (nonlinear_arith)
            requires rr > 0;
        let t: i128 = yy * (ONE as i128) / rr;
        asin_octant(t as i64)
    } else {
        assert(xx * (ONE as i128) / (rr as int) <= ONE) by (nonlinear_arith)
            requires 0 <= xx <= rr, rr > 0;
        assert(0 <= xx * (ONE as i128) <= LIMIT * ONE) by (nonlinear_arith)
            requires 0 <= xx <= LIMIT;
        assert(xx == 0 ==> xx * (ONE as i128) / (rr as int) == 0) by (nonlinear_arith)
            requires rr > 0;
        let t: i128 = xx * (ONE as i128) / rr;
        QUARTER_TURN - asin_octant(t as i64)
    }
}

/// The angle of the point `(x, y)` seen from the origin, as a canonical
/// angle; the origin itself has angle 0.
pub fn atan2(y: i64, x: i64) -> (a: i64)
    requires
        in_range(x as int),
        in_range(y as int),
    ensures
        is_angle(a as int),
        a == atan2_spec(y as int, x as int),
        x == 0 && y == 0 ==> a == 0,
        x > 0 && y == 0 ==> a == 0,
        x == 0 && y > 0 ==> a == QUARTER_TURN,
        x < 0 && y == 0 ==> a == HALF_TURN,
        x == 0 && y < 0 ==> a == 3 * QUARTER_TURN,
        x > 0 && y > 0 ==> 0 <= a <= QUARTER_TURN,
        x < 0 && y > 0 ==> QUARTER_TURN <= a <= HALF_TURN,
        x < 0 && y < 0 ==> HALF_TURN <= a <= 3 * QUARTER_TURN,
        x > 0 && y < 0 ==> a == 0 || 3 * QUARTER_TURN <= a,
{
    if x == 0 && y == 0 {
        return 0;
    }
    let ax: i64 = if x < 0 { -x } else { x };
    let ay: i64 = if y < 0 { -y } else { y };
    let b: i64 = quadrant_angle(ax, ay);
    if x >= 0 && y >= 0 {
        b
    } else if y >= 0 {
        HALF_TURN - b
    } else if x < 0 {
        HALF_TURN + b
    } else if b == 0 {
        0
    } else {
        TURN - b
    }
}

} // verus!
