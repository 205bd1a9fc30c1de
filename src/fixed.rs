//! Fixed-point real numbers and angles.
use vstd::prelude::*;

verus! {

/// The fixed-point unit: the real number 1.0.
pub const ONE: i64 = 1073741824;

/// A full turn (2π) in angle units.
pub const TURN: i64 = 4294967296;

/// Half a turn (π) in angle units.
pub const HALF_TURN: i64 = 2147483648;

/// A quarter turn (π/2) in angle units.
pub const QUARTER_TURN: i64 = 1073741824;

/// The largest magnitude a fixed-point component may have (1024.0).
pub const LIMIT: i64 = 1099511627776;

/// A fixed-point value within the range the arithmetic accepts.
pub open spec fn in_range(x: int) -> bool {
    -LIMIT <= x <= LIMIT
}

/// A canonical angle: in `[0, TURN)`.
pub open spec fn is_angle(a: int) -> bool {
    0 <= a < TURN
}

/// Division rounding toward zero, for a positive divisor.
pub open spec fn tdiv(n: int, d: int) -> int {
    if n >= 0 {
        n / d
    } else {
        -((-n) / d)
    }
}

/// Fixed-point product of `a` and `b`, rounded toward zero.
pub open spec fn fx_mul_spec(a: int, b: int) -> int {
    tdiv(a * b, ONE as int)
}

/// `r` is the integer square root of `n`.
pub open spec fn is_isqrt(r: int, n: int) -> bool {
    0 <= r && r * r <= n < (r + 1) * (r + 1)
}

/// The integer square root of a nonnegative `n`.
pub open spec fn floor_sqrt(n: int) -> int {
    choose|r: int| is_isqrt(r, n)
}

/// A number has at most one integer square root.
pub proof fn lemma_isqrt_unique(r1: int, r2: int, n: int)
    requires
        is_isqrt(r1, n),
        is_isqrt(r2, n),
    ensures
        r1 == r2,
{
    if r1 < r2 {
        assert((r1 + 1) * (r1 + 1) <= r2 * r2) by (nonlinear_arith)
            requires 0 <= r1, r1 + 1 <= r2;
    } else if r2 < r1 {
        assert((r2 + 1) * (r2 + 1) <= r1 * r1) by (nonlinear_arith)
            requires 0 <= r2, r2 + 1 <= r1;
    }
}

/// The largest radicand [`isqrt`] accepts.
pub const SQRT_DOMAIN: u128 = 1267650600228229401496703205376;

/// Integer square root: the largest `r` with `r * r <= n`.
pub fn isqrt(n: u128) -> (r: u64)
    requires
        n < SQRT_DOMAIN,
    ensures
        is_isqrt(r as int, n as int),
        r == floor_sqrt(n as int),
        r <= 1125899906842624,
{
    let mut lo: u128 = 0;
    let mut hi: u128 = 1125899906842624;
    assert(1125899906842624u128 * 1125899906842624u128 == SQRT_DOMAIN);
    while hi - lo > 1
        invariant
            lo < hi <= 1125899906842624,
            lo * lo <= n,
            n < hi * hi,
        decreases hi - lo,
    {
        let mid: u128 = lo + (hi - lo) / 2;
        assert(mid * mid <= hi * hi) by (nonlinear_arith)
            requires mid < hi;
        assert(hi * hi <= 1125899906842624u128 * 1125899906842624u128) by (nonlinear_arith)
            requires hi <= 1125899906842624u128;
        if mid * mid <= n {
            lo = mid;
        } else {
            hi = mid;
        }
    }
    assert(hi == lo + 1);
    proof {
        assert(is_isqrt(lo as int, n as int));
        lemma_isqrt_unique(lo as int, floor_sqrt(n as int), n as int);
    }
    lo as u64
}

/// Reduces any angle into `[0, TURN)`.
pub fn reduce_angle(a: i64) -> (r: i64)
    ensures
        r == a % TURN,
        is_angle(r as int),
{
    if a >= 0 {
        a % TURN
    } else {
        let k: i64 = (-(a + 1)) % TURN;
        assert((a as int) % (TURN as int) == TURN - 1 - k) by (nonlinear_arith)
            requires a < 0, k == (-(a + 1)) % (TURN as int);
        TURN - 1 - k
    }
}

/// Adds two canonical angles, modulo a full turn.
pub fn add_angles(a: i64, b: i64) -> (r: i64)
    requires
        is_angle(a as int),
        is_angle(b as int),
    ensures
        r == (a + b) % (TURN as int),
        is_angle(r as int),
{
    let s: i64 = a + b;
    if s >= TURN {
        s - TURN
    } else {
        s
    }
}

/// Division of `n` by a positive `d`, rounding toward zero.
pub fn tdiv_exec(n: i128, d: i128) -> (r: i128)
    requires
        d > 0,
        n > i128::MIN,
    ensures
        r == tdiv(n as int, d as int),
{
    if n >= 0 {
        n / d
    } else {
        -((-n) / d)
    }
}

} // verus!
