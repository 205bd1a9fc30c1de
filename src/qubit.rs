//! A qubit: two amplitudes of the same encoding, with gates and measurement.
use vstd::prelude::*;
use crate::complex::{
    abs, lemma_disk_in_range, lemma_square_le, lemma_tdiv_shrinks, lemma_tdiv_sq_lower,
    lemma_tdiv_unit, cartesian_of, polar_of, CartesianComplex, Complex, PolarComplex,
};
use crate::fixed::{
    floor_sqrt, fx_mul_spec, is_angle, is_isqrt, isqrt, tdiv, HALF_TURN, LIMIT, ONE, QUARTER_TURN, TURN,
};

verus! {

/// 1/√2 in fixed point, rounded down so that the Hadamard gate never grows
/// the total weight of a qubit.
pub const INV_SQRT2: i64 = 759250124;

/// How far below one the total weight `|α|² + |β|²` of a qubit drawn from a
/// probability may fall, in units of `ONE * ONE`.
pub const NORM_TOLERANCE: i64 = 4 * ONE + 2;

/// How far one gate may lower the total weight `|α|² + |β|²` of a qubit,
/// in units of `ONE * ONE`.
pub const GATE_TOLERANCE: i64 = 32 * ONE;

/// Relies on `rand::random_range` over an inclusive range: a value drawn
/// from `[low, high]` by the thread-local generator (it panics only on an
/// empty range).
#[verifier::external_body]
fn draw(low: i64, high: i64) -> (r: i64)
    requires
        low <= high,
    ensures
        low <= r <= high,
{
    rand::random_range(low..=high)
}

/// The amplitudes `(α, β)` of the basis states |0⟩ and |1⟩.
#[derive(Clone, Copy, Debug, PartialEq, Eq, Structural)]
pub struct Qubit<T>(pub T, pub T);

impl<T> Qubit<T> {
    /// The two amplitudes exchanged.
    pub open spec fn swapped(self) -> Self {
        Qubit(self.1, self.0)
    }
}

/// The polar qubit with `|α|² = p0` and `|β|² = 1 - p0` (through integer
/// square roots) and the phase angles `theta0`, `theta1`, reduced.
pub open spec fn polar_init_spec(p0: int, theta0: int, theta1: int) -> Qubit<PolarComplex> {
    Qubit(
        PolarComplex { norm: floor_sqrt(p0 * ONE) as i64, arg: (theta0 % (TURN as int)) as i64 },
        PolarComplex {
            norm: floor_sqrt((ONE - p0) * ONE) as i64,
            arg: (theta1 % (TURN as int)) as i64,
        },
    )
}

/// The operations of a qubit whose amplitudes have the encoding `T`.
pub trait TQubit<T>: Sized {
    /// Both amplitudes are in range and `|α|² + |β|² <= 1`.
    spec fn wf(&self) -> bool;

    /// `|α|²`, in units of `ONE * ONE`.
    spec fn weight0(&self) -> int;

    /// `|β|²`, in units of `ONE * ONE`.
    spec fn weight1(&self) -> int;

    /// The basis state |0⟩.
    spec fn basis0() -> Self;

    /// The basis state |1⟩.
    spec fn basis1() -> Self;

    /// The qubit with `|α|² = p0`, `|β|² = 1 - p0` and the phase angles
    /// `theta0`, `theta1`.
    fn init_with(p0: i64, theta0: i64, theta1: i64) -> (r: Self)
        requires
            0 <= p0 <= ONE,
        ensures
            r.wf(),
    ;

    /// A qubit with a uniformly drawn weight and phases.
    fn init() -> (r: Self)
        ensures
            r.wf(),
    ;

    /// The basis state |0⟩.
    fn init0() -> (r: Self)
        ensures
            r == Self::basis0(),
            r.wf(),
    ;

    /// The basis state |1⟩.
    fn init1() -> (r: Self)
        ensures
            r == Self::basis1(),
            r.wf(),
    ;

    /// The probabilities `(P(|0⟩), P(|1⟩)) = (|α|², |β|²)` in fixed point; the qubit
    /// is left as it is.
    fn measure(&self) -> (r: (i64, i64))
        requires
            self.wf(),
        ensures
            r.0 == self.weight0() / (ONE as int),
            r.1 == self.weight1() / (ONE as int),
    ;

    /// The basis state chosen by the draw `d`: |0⟩ below `P(|0⟩)`, |1⟩ above,
    /// and `coin` on a tie.
    fn collapse_with(&self, d: i64, coin: bool) -> (r: Self)
        requires
            self.wf(),
        ensures
            r == if d < self.weight0() / (ONE as int) {
                Self::basis0()
            } else if d > self.weight0() / (ONE as int) {
                Self::basis1()
            } else if coin {
                Self::basis0()
            } else {
                Self::basis1()
            },
    ;

    /// A basis state drawn with the probabilities of [`TQubit::measure`];
    /// the qubit itself is left as it is.
    fn collapse(&self) -> (r: Self)
        requires
            self.wf(),
        ensures
            r == Self::basis0() || r == Self::basis1(),
            self.weight0() / (ONE as int) == ONE ==> r == Self::basis0(),
    ;

    /// The Hadamard gate: `α' = (α + β)/√2`, `β' = (α - β)/√2`. The total
    /// weight does not grow and falls by at most `GATE_TOLERANCE`.
    fn hadamard(&mut self)
        requires
            old(self).wf(),
        ensures
            final(self).wf(),
            final(self).weight0() + final(self).weight1() + GATE_TOLERANCE >= old(self).weight0()
                + old(self).weight1(),
    ;

    /// The Pauli X gate: swaps `α` and `β`.
    fn px(&mut self)
        requires
            old(self).wf(),
        ensures
            final(self).wf(),
            final(self).weight0() == old(self).weight1(),
            final(self).weight1() == old(self).weight0(),
    ;

    /// The Pauli Y gate: `α' = -i·β`, `β' = i·α`.
    fn py(&mut self)
        requires
            old(self).wf(),
        ensures
            final(self).wf(),
            final(self).weight0() == old(self).weight1(),
            final(self).weight1() == old(self).weight0(),
    ;

    /// The Pauli Z gate: `β' = -β`.
    fn pz(&mut self)
        requires
            old(self).wf(),
        ensures
            final(self).wf(),
            final(self).weight0() == old(self).weight0(),
            final(self).weight1() == old(self).weight1(),
    ;

    /// The phase shift gate: `β' = e^(phi·i)·β`. The weight of `β` does not
    /// grow and falls by at most `GATE_TOLERANCE`.
    fn phase_shift(&mut self, phi: i64)
        requires
            old(self).wf(),
        ensures
            final(self).wf(),
            final(self).weight0() == old(self).weight0(),
            final(self).weight1() <= old(self).weight1(),
            final(self).weight1() + GATE_TOLERANCE >= old(self).weight1(),
    ;
}

/// The magnitudes of a qubit whose weights sum to at most one are at most one.
proof fn lemma_small_weight(n0: int, n1: int)
    requires
        0 <= n0,
        0 <= n1,
        n0 * n0 + n1 * n1 <= ONE * ONE,
    ensures
        n0 <= ONE,
        n1 <= ONE,
{
    assert(n0 <= ONE && n1 <= ONE) by (nonlinear_arith)
        requires 0 <= n0, 0 <= n1, n0 * n0 + n1 * n1 <= ONE * ONE;
}

/// A magnitude of at most one loses at most `6·n` of its square in the
/// Cartesian encoding.
proof fn lemma_polar_loss(n: int, m: int)
    requires
        0 <= n <= ONE,
        ONE * m >= ONE * (n * n) - 2 * (n * n) - 4 * ONE * n,
    ensures
        m >= n * n - 6 * n,
{
    assert(n * n <= ONE * n) by (nonlinear_arith)
        requires 0 <= n <= ONE;
    assert(m >= n * n - 6 * n) by (nonlinear_arith)
        requires
            ONE * m >= ONE * (n * n) - 2 * (n * n) - 4 * ONE * n,
            n * n <= ONE * n;
}

/// The integer square root `r` of a weight `m` of a normalized qubit loses
/// at most `2·ONE + 1` of it.
proof fn lemma_root_loss(r: int, m: int, other: int)
    requires
        is_isqrt(r, m),
        0 <= other,
        m + other <= ONE * ONE,
    ensures
        r * r + 2 * ONE + 1 >= m,
{
    assert(r <= ONE) by (nonlinear_arith)
        requires r >= 0, r * r <= m, m <= ONE * ONE;
    assert((r + 1) * (r + 1) == r * r + 2 * r + 1) by (nonlinear_arith);
}

/// Amplitudes of magnitudes `√p0` and `√(1 - p0)` are normalized: for every
/// probability `p0` in `[0, 1]`, the integer square roots `n0` of `p0` and
/// `n1` of `1 - p0` (in fixed point) give `|α|² + |β|² = 1` up to
/// `NORM_TOLERANCE`, never above one.
pub proof fn lemma_weights_normalized(p0: int, n0: int, n1: int)
    requires
        0 <= p0 <= ONE,
        is_isqrt(n0, p0 * ONE),
        is_isqrt(n1, (ONE - p0) * ONE),
    ensures
        ONE * ONE - NORM_TOLERANCE <= n0 * n0 + n1 * n1 <= ONE * ONE,
{
    assert(p0 * ONE <= ONE * ONE && (ONE - p0) * ONE <= ONE * ONE) by (nonlinear_arith)
        requires 0 <= p0 <= ONE;
    assert(n0 <= ONE && n1 <= ONE) by (nonlinear_arith)
        requires
            n0 * n0 <= p0 * ONE,
            n1 * n1 <= (ONE - p0) * ONE,
            p0 * ONE <= ONE * ONE,
            (ONE - p0) * ONE <= ONE * ONE,
            n0 >= 0,
            n1 >= 0;
    assert(p0 * ONE + (ONE - p0) * ONE == ONE * ONE) by (nonlinear_arith);
    assert(ONE * ONE - NORM_TOLERANCE <= n0 * n0 + n1 * n1 <= ONE * ONE) by (nonlinear_arith)
        requires
            n0 * n0 <= p0 * ONE < (n0 + 1) * (n0 + 1),
            n1 * n1 <= (ONE - p0) * ONE < (n1 + 1) * (n1 + 1),
            p0 * ONE + (ONE - p0) * ONE == ONE * ONE,
            0 <= n0 <= ONE,
            0 <= n1 <= ONE;
}

/// The unit value at a canonical angle.
fn unit(a: i64) -> (r: PolarComplex)
    requires
        is_angle(a as int),
    ensures
        r == (PolarComplex { norm: ONE, arg: a }),
        r.wf(),
{
    PolarComplex { norm: ONE, arg: a }
}

impl Qubit<PolarComplex> {
    /// The Pauli Z gate on the polar encoding: `β` turns by half a turn.
    pub open spec fn pz_of(self) -> Self {
        Qubit(
            self.0,
            PolarComplex {
                norm: self.1.norm,
                arg: ((self.1.arg + HALF_TURN) % (TURN as int)) as i64,
            },
        )
    }

    /// Both amplitudes in the Cartesian encoding.
    pub open spec fn cartesian_q(self) -> Qubit<CartesianComplex> {
        Qubit(cartesian_of(self.0), cartesian_of(self.1))
    }

    /// The same amplitudes in the Cartesian encoding.
    pub fn to_cartesian(&self) -> (r: Qubit<CartesianComplex>)
        requires
            self.wf(),
        ensures
            r.wf(),
            r == self.cartesian_q(),
            r.0.norm_sq() <= self.0.norm_sq(),
            r.1.norm_sq() <= self.1.norm_sq(),
            r.0.norm_sq() >= self.0.norm_sq() - 6 * self.0.norm,
            r.1.norm_sq() >= self.1.norm_sq() - 6 * self.1.norm,
            self.0.arg == 0 ==> r.0 == (CartesianComplex { re: self.0.norm, im: 0 }),
            self.1.arg == 0 ==> r.1 == (CartesianComplex { re: self.1.norm, im: 0 }),
            self.0.norm == 0 ==> r.0 == (CartesianComplex { re: 0, im: 0 }),
            self.1.norm == 0 ==> r.1 == (CartesianComplex { re: 0, im: 0 }),
    {
        let a: CartesianComplex = self.0.to_cartesian();
        let b: CartesianComplex = self.1.to_cartesian();
        proof {
            lemma_small_weight(self.0.norm as int, self.1.norm as int);
            lemma_polar_loss(self.0.norm as int, a.norm_sq());
            lemma_polar_loss(self.1.norm as int, b.norm_sq());
        }
        Qubit(a, b)
    }

    /// The point of the Bloch sphere the qubit stands for, as the polar
    /// angle `θ = 2·atan2(|β|, |α|)` in `[0, HALF_TURN]` and the azimuth
    /// `φ = arg β - arg α`, canonical.
    pub fn bloch_angles(&self) -> (r: (i64, i64))
        requires
            self.wf(),
        ensures
            0 <= r.0 <= HALF_TURN,
            r.0 == 2 * crate::trig::atan2_spec(self.1.norm as int, self.0.norm as int),
            r.1 == (self.1.arg - self.0.arg) % (TURN as int),
            self.1.norm == 0 ==> r.0 == 0,
            self.0.norm == 0 && self.1.norm > 0 ==> r.0 == HALF_TURN,
    {
        let half: i64 = crate::trig::atan2(self.1.norm, self.0.norm);
        let phi: i64 = crate::fixed::reduce_angle(self.1.arg - self.0.arg);
        (2 * half, phi)
    }
}

impl TQubit<PolarComplex> for Qubit<PolarComplex> {
    open spec fn wf(&self) -> bool {
        &&& self.0.wf()
        &&& self.1.wf()
        &&& self.0.norm * self.0.norm + self.1.norm * self.1.norm <= ONE * ONE
    }

    open spec fn weight0(&self) -> int {
        self.0.norm * self.0.norm
    }

    open spec fn weight1(&self) -> int {
        self.1.norm * self.1.norm
    }

    open spec fn basis0() -> Self {
        Qubit(PolarComplex { norm: ONE, arg: 0 }, PolarComplex { norm: 0, arg: 0 })
    }

    open spec fn basis1() -> Self {
        Qubit(PolarComplex { norm: 0, arg: 0 }, PolarComplex { norm: ONE, arg: 0 })
    }

    fn init_with(p0: i64, theta0: i64, theta1: i64) -> (r: Self)
        ensures
            r == polar_init_spec(p0 as int, theta0 as int, theta1 as int),
            is_isqrt(r.0.norm as int, p0 * ONE),
            is_isqrt(r.1.norm as int, (ONE - p0) * ONE),
            r.0.arg == (theta0 as int) % (TURN as int),
            r.1.arg == (theta1 as int) % (TURN as int),
            ONE * ONE - NORM_TOLERANCE <= r.weight0() + r.weight1() <= ONE * ONE,
    {
        assert(0 <= p0 * ONE <= ONE * ONE) by (nonlinear_arith)
            requires 0 <= p0 <= ONE;
        assert(0 <= (ONE - p0) * ONE <= ONE * ONE) by (nonlinear_arith)
            requires 0 <= p0 <= ONE;
        let n0: u64 = isqrt((p0 * ONE) as u128);
        let n1: u64 = isqrt(((ONE - p0) * ONE) as u128);
        proof {
            lemma_weights_normalized(p0 as int, n0 as int, n1 as int);
            lemma_small_weight(n0 as int, n1 as int);
        }
        let a: PolarComplex = PolarComplex::new(n0 as i64, theta0);
        let b: PolarComplex = PolarComplex::new(n1 as i64, theta1);
        Qubit(a, b)
    }

    /// Every draw gives a qubit normalized up to `NORM_TOLERANCE`.
    fn init() -> (r: Self)
        ensures
            ONE * ONE - NORM_TOLERANCE <= r.weight0() + r.weight1(),
    {
        let theta0: i64 = draw(0, TURN - 1);
        let p0: i64 = draw(0, ONE);
        let theta1: i64 = draw(0, TURN - 1);
        Self::init_with(p0, theta0, theta1)
    }

    fn init0() -> (r: Self) {
        Qubit(PolarComplex { norm: ONE, arg: 0 }, PolarComplex { norm: 0, arg: 0 })
    }

    fn init1() -> (r: Self) {
        Qubit(PolarComplex { norm: 0, arg: 0 }, PolarComplex { norm: ONE, arg: 0 })
    }

    fn measure(&self) -> (r: (i64, i64)) {
        assert(0 <= self.0.norm * self.0.norm <= ONE * ONE && 0 <= self.1.norm * self.1.norm
            <= ONE * ONE) by (nonlinear_arith)
            requires
                self.0.norm >= 0,
                self.1.norm >= 0,
                self.0.norm * self.0.norm + self.1.norm * self.1.norm <= ONE * ONE;
        (self.0.norm * self.0.norm / ONE, self.1.norm * self.1.norm / ONE)
    }

    fn collapse_with(&self, d: i64, coin: bool) -> (r: Self) {
        let (p0, _p1) = self.measure();
        if d < p0 {
            Self::init0()
        } else if d > p0 {
            Self::init1()
        } else if coin {
            Self::init0()
        } else {
            Self::init1()
        }
    }

    fn collapse(&self) -> (r: Self) {
        let d: i64 = draw(0, ONE - 1);
        let coin: bool = draw(0, 1) == 1;
        self.collapse_with(d, coin)
    }

    /// Computed in the Cartesian encoding, then converted back.
    fn hadamard(&mut self)
        ensures
            *final(self) == old(self).cartesian_q().hadamard_of().polar_q(),
            *old(self) == Self::basis0() ==> *final(self) == Qubit(
                PolarComplex { norm: INV_SQRT2, arg: 0 },
                PolarComplex { norm: INV_SQRT2, arg: 0 },
            ),
            *old(self) == Self::basis1() ==> *final(self) == Qubit(
                PolarComplex { norm: INV_SQRT2, arg: 0 },
                PolarComplex { norm: INV_SQRT2, arg: HALF_TURN },
            ),
    {
        proof {
            lemma_tdiv_unit(INV_SQRT2 as int);
            assert(fx_mul_spec(0, INV_SQRT2 as int) == 0);
        }
        let ghost start = *self;
        let mut c: Qubit<CartesianComplex> = self.to_cartesian();
        let ghost c0 = c;
        hadamard_cartesian(&mut c);
        proof {
            if start == Self::basis0() {
                assert(c0.0 == (CartesianComplex { re: ONE, im: 0 }));
                assert(c0.1 == (CartesianComplex { re: 0, im: 0 }));
                assert(fx_mul_spec(ONE as int, INV_SQRT2 as int) == INV_SQRT2);
                assert(c.0 == (CartesianComplex { re: INV_SQRT2, im: 0 }));
                assert(c.1 == (CartesianComplex { re: INV_SQRT2, im: 0 }));
            }
            if start == Self::basis1() {
                assert(c0.0 == (CartesianComplex { re: 0, im: 0 }));
                assert(c0.1 == (CartesianComplex { re: ONE, im: 0 }));
                assert(fx_mul_spec(ONE as int, INV_SQRT2 as int) == INV_SQRT2);
                assert(fx_mul_spec(-ONE, INV_SQRT2 as int) == -INV_SQRT2);
                assert(c.0 == (CartesianComplex { re: INV_SQRT2, im: 0 }));
                assert(c.1 == (CartesianComplex { re: (-INV_SQRT2) as i64, im: 0 }));
            }
        }
        let a: PolarComplex = c.0.to_polar();
        let b: PolarComplex = c.1.to_polar();
        proof {
            lemma_root_loss(a.norm as int, c.0.norm_sq(), c.1.norm_sq());
            lemma_root_loss(b.norm as int, c.1.norm_sq(), c.0.norm_sq());
            lemma_small_weight(start.0.norm as int, start.1.norm as int);
        }
        assert(a.norm * a.norm + b.norm * b.norm <= ONE * ONE) by (nonlinear_arith)
            requires
                a.norm * a.norm <= c.0.norm_sq(),
                b.norm * b.norm <= c.1.norm_sq(),
                c.0.norm_sq() + c.1.norm_sq() <= ONE * ONE;
        *self = Qubit(a, b);
    }

    fn px(&mut self)
        ensures
            *final(self) == old(self).swapped(),
    {
        let saved: PolarComplex = self.0;
        self.0 = self.1;
        self.1 = saved;
    }

    /// Multiplies `β` by the unit at three quarters of a turn and `α` by the
    /// unit at a quarter turn.
    fn py(&mut self)
        ensures
            final(self).0 == (PolarComplex {
                norm: old(self).1.norm,
                arg: ((old(self).1.arg + 3 * QUARTER_TURN) % (TURN as int)) as i64,
            }),
            final(self).1 == (PolarComplex {
                norm: old(self).0.norm,
                arg: ((old(self).0.arg + QUARTER_TURN) % (TURN as int)) as i64,
            }),
    {
        proof {
            lemma_tdiv_unit(self.0.norm as int);
            lemma_tdiv_unit(self.1.norm as int);
        }
        let saved: PolarComplex = self.0;
        self.0 = self.1.mul(unit(3 * QUARTER_TURN));
        self.1 = saved.mul(unit(QUARTER_TURN));
    }

    /// Multiplies `β` by the unit at half a turn.
    fn pz(&mut self)
        ensures
            *final(self) == old(self).pz_of(),
    {
        proof {
            lemma_tdiv_unit(self.1.norm as int);
        }
        self.1 = self.1.mul(unit(HALF_TURN));
    }

    fn phase_shift(&mut self, phi: i64)
        ensures
            final(self).0 == old(self).0,
            final(self).1.norm == old(self).1.norm,
            final(self).1.arg == (old(self).1.arg + phi) % (TURN as int),
    {
        proof {
            lemma_tdiv_unit(self.1.norm as int);
        }
        let turn: PolarComplex = PolarComplex::new(ONE, phi);
        proof {
            vstd::arithmetic::div_mod::lemma_add_mod_noop(self.1.arg as int, phi as int, TURN as int);
            vstd::arithmetic::div_mod::lemma_small_mod(self.1.arg as nat, TURN as nat);
        }
        self.1 = self.1.mul(turn);
    }
}

/// Scaling by 1/√2 with rounding toward zero:
/// `ONE² · fx(p, 1/√2)² <= (1/√2)² · p²`.
proof fn lemma_inv_sqrt2_sq(p: int)
    ensures
        ONE * ONE * (fx_mul_spec(p, INV_SQRT2 as int) * fx_mul_spec(p, INV_SQRT2 as int))
            <= INV_SQRT2 * INV_SQRT2 * (p * p),
{
    let x = fx_mul_spec(p, INV_SQRT2 as int);
    lemma_tdiv_shrinks(p * INV_SQRT2, ONE as int);
    assert(ONE * ONE * (x * x) <= (p * INV_SQRT2) * (p * INV_SQRT2)) by (nonlinear_arith)
        requires
            p * INV_SQRT2 >= 0 ==> 0 <= ONE * x <= p * INV_SQRT2,
            p * INV_SQRT2 < 0 ==> p * INV_SQRT2 <= ONE * x <= 0;
    assert((p * INV_SQRT2) * (p * INV_SQRT2) == INV_SQRT2 * INV_SQRT2 * (p * p))
        by (nonlinear_arith);
}

/// The Hadamard gate never grows the total weight: with `W = |α|² + |β|²`,
/// the weight of the result is at most `W`, and each combined amplitude
/// `α ± β` stays within the disk of radius `2`.
proof fn lemma_hadamard_weight(x0: int, y0: int, x1: int, y1: int)
    requires
        x0 * x0 + y0 * y0 + x1 * x1 + y1 * y1 <= ONE * ONE,
    ensures
        ({
            let (a, b, c, d) = (
                fx_mul_spec(x0 + x1, INV_SQRT2 as int),
                fx_mul_spec(y0 + y1, INV_SQRT2 as int),
                fx_mul_spec(x0 - x1, INV_SQRT2 as int),
                fx_mul_spec(y0 - y1, INV_SQRT2 as int),
            );
            &&& a * a + b * b + c * c + d * d <= x0 * x0 + y0 * y0 + x1 * x1 + y1 * y1
            &&& a * a + b * b + c * c + d * d + 15 * ONE >= x0 * x0 + y0 * y0 + x1 * x1 + y1 * y1
            &&& a * a + b * b <= ONE * ONE
            &&& c * c + d * d <= ONE * ONE
        }),
        (x0 + x1) * (x0 + x1) + (y0 + y1) * (y0 + y1) <= 4 * ONE * ONE,
        (x0 - x1) * (x0 - x1) + (y0 - y1) * (y0 - y1) <= 4 * ONE * ONE,
{
    let w = x0 * x0 + y0 * y0 + x1 * x1 + y1 * y1;
    let (p1, p2, p3, p4) = (x0 + x1, y0 + y1, x0 - x1, y0 - y1);
    assert(p1 * p1 + p3 * p3 == 2 * (x0 * x0) + 2 * (x1 * x1)) by (nonlinear_arith)
        requires p1 == x0 + x1, p3 == x0 - x1;
    assert(p2 * p2 + p4 * p4 == 2 * (y0 * y0) + 2 * (y1 * y1)) by (nonlinear_arith)
        requires p2 == y0 + y1, p4 == y0 - y1;
    assert(p1 * p1 >= 0 && p2 * p2 >= 0 && p3 * p3 >= 0 && p4 * p4 >= 0) by (nonlinear_arith);
    lemma_inv_sqrt2_sq(p1);
    lemma_inv_sqrt2_sq(p2);
    lemma_inv_sqrt2_sq(p3);
    lemma_inv_sqrt2_sq(p4);
    let (a, b, c, d) = (
        fx_mul_spec(p1, INV_SQRT2 as int),
        fx_mul_spec(p2, INV_SQRT2 as int),
        fx_mul_spec(p3, INV_SQRT2 as int),
        fx_mul_spec(p4, INV_SQRT2 as int),
    );
    assert(a * a + b * b + c * c + d * d <= w) by (nonlinear_arith)
        requires
            ONE * ONE * (a * a) <= INV_SQRT2 * INV_SQRT2 * (p1 * p1),
            ONE * ONE * (b * b) <= INV_SQRT2 * INV_SQRT2 * (p2 * p2),
            ONE * ONE * (c * c) <= INV_SQRT2 * INV_SQRT2 * (p3 * p3),
            ONE * ONE * (d * d) <= INV_SQRT2 * INV_SQRT2 * (p4 * p4),
            p1 * p1 + p2 * p2 + p3 * p3 + p4 * p4 == 2 * w,
            w >= 0;
    assert(-ONE <= x0 <= ONE && -ONE <= y0 <= ONE && -ONE <= x1 <= ONE && -ONE <= y1 <= ONE)
        by (nonlinear_arith)
        requires x0 * x0 + y0 * y0 + (x1 * x1 + y1 * y1) <= ONE * ONE;
    lemma_tdiv_sq_lower(p1 * INV_SQRT2, ONE as int);
    lemma_tdiv_sq_lower(p2 * INV_SQRT2, ONE as int);
    lemma_tdiv_sq_lower(p3 * INV_SQRT2, ONE as int);
    lemma_tdiv_sq_lower(p4 * INV_SQRT2, ONE as int);
    assert(abs(p1 * INV_SQRT2) <= 2 * ONE * INV_SQRT2 && abs(p2 * INV_SQRT2) <= 2 * ONE * INV_SQRT2
        && abs(p3 * INV_SQRT2) <= 2 * ONE * INV_SQRT2 && abs(p4 * INV_SQRT2) <= 2 * ONE
        * INV_SQRT2) by (nonlinear_arith)
        requires
            -2 * ONE <= p1 <= 2 * ONE,
            -2 * ONE <= p2 <= 2 * ONE,
            -2 * ONE <= p3 <= 2 * ONE,
            -2 * ONE <= p4 <= 2 * ONE;
    assert((p1 * INV_SQRT2) * (p1 * INV_SQRT2) + (p2 * INV_SQRT2) * (p2 * INV_SQRT2) + (p3
        * INV_SQRT2) * (p3 * INV_SQRT2) + (p4 * INV_SQRT2) * (p4 * INV_SQRT2) == INV_SQRT2
        * INV_SQRT2 * (p1 * p1 + p2 * p2 + p3 * p3 + p4 * p4)) by (nonlinear_arith);
    assert(ONE * ONE * (a * a + b * b + c * c + d * d) >= 2 * INV_SQRT2 * INV_SQRT2 * w - 16 * ONE
        * ONE * INV_SQRT2) by (nonlinear_arith)
        requires
            ONE * ONE * (a * a) >= (p1 * INV_SQRT2) * (p1 * INV_SQRT2) - 2 * ONE * abs(p1 * INV_SQRT2),
            ONE * ONE * (b * b) >= (p2 * INV_SQRT2) * (p2 * INV_SQRT2) - 2 * ONE * abs(p2 * INV_SQRT2),
            ONE * ONE * (c * c) >= (p3 * INV_SQRT2) * (p3 * INV_SQRT2) - 2 * ONE * abs(p3 * INV_SQRT2),
            ONE * ONE * (d * d) >= (p4 * INV_SQRT2) * (p4 * INV_SQRT2) - 2 * ONE * abs(p4 * INV_SQRT2),
            abs(p1 * INV_SQRT2) <= 2 * ONE * INV_SQRT2,
            abs(p2 * INV_SQRT2) <= 2 * ONE * INV_SQRT2,
            abs(p3 * INV_SQRT2) <= 2 * ONE * INV_SQRT2,
            abs(p4 * INV_SQRT2) <= 2 * ONE * INV_SQRT2,
            (p1 * INV_SQRT2) * (p1 * INV_SQRT2) + (p2 * INV_SQRT2) * (p2 * INV_SQRT2) + (p3
                * INV_SQRT2) * (p3 * INV_SQRT2) + (p4 * INV_SQRT2) * (p4 * INV_SQRT2) == INV_SQRT2
                * INV_SQRT2 * (p1 * p1 + p2 * p2 + p3 * p3 + p4 * p4),
            p1 * p1 + p2 * p2 + p3 * p3 + p4 * p4 == 2 * w;
    assert(a * a + b * b + c * c + d * d + 15 * ONE >= w) by (nonlinear_arith)
        requires
            ONE * ONE * (a * a + b * b + c * c + d * d) >= 2 * INV_SQRT2 * INV_SQRT2 * w - 16 * ONE
                * ONE * INV_SQRT2,
            0 <= w <= ONE * ONE;
    assert(a * a + b * b <= ONE * ONE && c * c + d * d <= ONE * ONE) by (nonlinear_arith)
        requires
            ONE * ONE * (a * a) <= INV_SQRT2 * INV_SQRT2 * (p1 * p1),
            ONE * ONE * (b * b) <= INV_SQRT2 * INV_SQRT2 * (p2 * p2),
            ONE * ONE * (c * c) <= INV_SQRT2 * INV_SQRT2 * (p3 * p3),
            ONE * ONE * (d * d) <= INV_SQRT2 * INV_SQRT2 * (p4 * p4),
            p1 * p1 + p2 * p2 + p3 * p3 + p4 * p4 == 2 * w,
            p1 * p1 >= 0, p2 * p2 >= 0, p3 * p3 >= 0, p4 * p4 >= 0,
            w <= ONE * ONE;
}

impl Qubit<CartesianComplex> {
    /// The Hadamard gate on the Cartesian encoding: the sum and the
    /// difference of the amplitudes, each scaled by 1/√2.
    pub open spec fn hadamard_of(self) -> Self {
        Qubit(
            CartesianComplex {
                re: fx_mul_spec(self.0.re + self.1.re, INV_SQRT2 as int) as i64,
                im: fx_mul_spec(self.0.im + self.1.im, INV_SQRT2 as int) as i64,
            },
            CartesianComplex {
                re: fx_mul_spec(self.0.re - self.1.re, INV_SQRT2 as int) as i64,
                im: fx_mul_spec(self.0.im - self.1.im, INV_SQRT2 as int) as i64,
            },
        )
    }

    /// The Pauli Z gate on the Cartesian encoding: `β` is negated.
    pub open spec fn pz_of(self) -> Self {
        Qubit(self.0, CartesianComplex { re: (-self.1.re) as i64, im: (-self.1.im) as i64 })
    }

    /// Both amplitudes in the polar encoding.
    pub open spec fn polar_q(self) -> Qubit<PolarComplex> {
        Qubit(polar_of(self.0), polar_of(self.1))
    }

    /// The same amplitudes in the polar encoding.
    pub fn to_polar(&self) -> (r: Qubit<PolarComplex>)
        requires
            self.wf(),
        ensures
            r.wf(),
            r == self.polar_q(),
            r.0.norm_sq() <= self.0.norm_sq(),
            r.1.norm_sq() <= self.1.norm_sq(),
            r.0.norm_sq() + 2 * ONE + 1 >= self.0.norm_sq(),
            r.1.norm_sq() + 2 * ONE + 1 >= self.1.norm_sq(),
    {
        let a: PolarComplex = self.0.to_polar();
        let b: PolarComplex = self.1.to_polar();
        proof {
            lemma_root_loss(a.norm as int, self.0.norm_sq(), self.1.norm_sq());
            lemma_root_loss(b.norm as int, self.1.norm_sq(), self.0.norm_sq());
        }
        Qubit(a, b)
    }
}

impl TQubit<CartesianComplex> for Qubit<CartesianComplex> {
    open spec fn wf(&self) -> bool {
        &&& self.0.wf()
        &&& self.1.wf()
        &&& self.0.norm_sq() + self.1.norm_sq() <= ONE * ONE
    }

    open spec fn weight0(&self) -> int {
        self.0.norm_sq()
    }

    open spec fn weight1(&self) -> int {
        self.1.norm_sq()
    }

    open spec fn basis0() -> Self {
        Qubit(CartesianComplex { re: ONE, im: 0 }, CartesianComplex { re: 0, im: 0 })
    }

    open spec fn basis1() -> Self {
        Qubit(CartesianComplex { re: 0, im: 0 }, CartesianComplex { re: ONE, im: 0 })
    }

    /// Built in the polar encoding, then converted; the conversion may lose
    /// up to `12·ONE` more of the total weight.
    fn init_with(p0: i64, theta0: i64, theta1: i64) -> (r: Self)
        ensures
            r == polar_init_spec(p0 as int, theta0 as int, theta1 as int).cartesian_q(),
            ONE * ONE - NORM_TOLERANCE - 12 * ONE <= r.weight0() + r.weight1() <= ONE * ONE,
            p0 * ONE - 8 * ONE - 1 <= r.weight0() <= p0 * ONE,
            (ONE - p0) * ONE - 8 * ONE - 1 <= r.weight1() <= (ONE - p0) * ONE,
    {
        let q: Qubit<PolarComplex> = Qubit::<PolarComplex>::init_with(p0, theta0, theta1);
        proof {
            lemma_small_weight(q.0.norm as int, q.1.norm as int);
            lemma_root_loss(q.0.norm as int, p0 * ONE, (ONE - p0) * ONE);
            lemma_root_loss(q.1.norm as int, (ONE - p0) * ONE, p0 * ONE);
        }
        assert(0 <= p0 * ONE && 0 <= (ONE - p0) * ONE) by (nonlinear_arith)
            requires 0 <= p0 <= ONE;
        q.to_cartesian()
    }

    /// Every draw gives a qubit normalized up to `NORM_TOLERANCE + 12·ONE`.
    fn init() -> (r: Self)
        ensures
            ONE * ONE - NORM_TOLERANCE - 12 * ONE <= r.weight0() + r.weight1(),
    {
        let q: Qubit<PolarComplex> = Qubit::<PolarComplex>::init();
        proof {
            lemma_small_weight(q.0.norm as int, q.1.norm as int);
        }
        q.to_cartesian()
    }

    fn init0() -> (r: Self) {
        Qubit(CartesianComplex { re: ONE, im: 0 }, CartesianComplex { re: 0, im: 0 })
    }

    fn init1() -> (r: Self) {
        Qubit(CartesianComplex { re: 0, im: 0 }, CartesianComplex { re: ONE, im: 0 })
    }

    fn measure(&self) -> (r: (i64, i64)) {
        let (a, b, c, d) = (self.0.re, self.0.im, self.1.re, self.1.im);
        assert(0 <= a * a + b * b <= ONE * ONE && 0 <= c * c + d * d <= ONE * ONE)
            by (nonlinear_arith)
            requires a * a + b * b + c * c + d * d <= ONE * ONE;
        assert(0 <= a * a <= ONE * ONE && 0 <= b * b <= ONE * ONE && 0 <= c * c <= ONE * ONE
            && 0 <= d * d <= ONE * ONE) by (nonlinear_arith)
            requires 0 <= a * a + b * b <= ONE * ONE, 0 <= c * c + d * d <= ONE * ONE;
        ((a * a + b * b) / ONE, (c * c + d * d) / ONE)
    }

    fn collapse_with(&self, d: i64, coin: bool) -> (r: Self) {
        let (p0, _p1) = self.measure();
        if d < p0 {
            Self::init0()
        } else if d > p0 {
            Self::init1()
        } else if coin {
            Self::init0()
        } else {
            Self::init1()
        }
    }

    fn collapse(&self) -> (r: Self) {
        let d: i64 = draw(0, ONE - 1);
        let coin: bool = draw(0, 1) == 1;
        self.collapse_with(d, coin)
    }

    fn hadamard(&mut self)
        ensures
            *final(self) == old(self).hadamard_of(),
    {
        hadamard_cartesian(self);
    }

    fn px(&mut self)
        ensures
            *final(self) == old(self).swapped(),
    {
        let saved: CartesianComplex = self.0;
        self.0 = self.1;
        self.1 = saved;
    }

    /// By swapping and negating parts: `-i·(x + y·i) = y - x·i`.
    fn py(&mut self)
        ensures
            final(self).0 == (CartesianComplex { re: old(self).1.im, im: (-old(self).1.re) as i64 }),
            final(self).1 == (CartesianComplex { re: (-old(self).0.im) as i64, im: old(self).0.re }),
    {
        proof {
            lemma_disk_in_range(self.0.re as int, self.0.im as int);
            lemma_disk_in_range(self.1.re as int, self.1.im as int);
        }
        assert((-self.0.re) * (-self.0.re) == self.0.re * self.0.re) by (nonlinear_arith);
        assert((-self.0.im) * (-self.0.im) == self.0.im * self.0.im) by (nonlinear_arith);
        assert((-self.1.re) * (-self.1.re) == self.1.re * self.1.re) by (nonlinear_arith);
        assert((-self.1.im) * (-self.1.im) == self.1.im * self.1.im) by (nonlinear_arith);
        let saved: CartesianComplex = self.0;
        self.0 = CartesianComplex { re: self.1.im, im: -self.1.re };
        self.1 = CartesianComplex { re: -saved.im, im: saved.re };
    }

    /// Scales `β` by `-1`.
    fn pz(&mut self)
        ensures
            *final(self) == old(self).pz_of(),
    {
        proof {
            lemma_disk_in_range(self.1.re as int, self.1.im as int);
            lemma_tdiv_unit(self.1.re as int);
            lemma_tdiv_unit(self.1.im as int);
            assert((-self.1.re) * (-self.1.re) == self.1.re * self.1.re) by (nonlinear_arith);
            assert((-self.1.im) * (-self.1.im) == self.1.im * self.1.im) by (nonlinear_arith);
        }
        self.1.scale(-ONE);
    }

    /// `β` goes through the polar encoding, where it turns by `phi`; a `β`
    /// on an axis turned by a multiple of a quarter turn lands exactly on an
    /// axis.
    fn phase_shift(&mut self, phi: i64)
        ensures
            final(self).0 == old(self).0,
            final(self).1 == cartesian_of(
                PolarComplex {
                    norm: polar_of(old(self).1).norm,
                    arg: ((polar_of(old(self).1).arg + phi) % (TURN as int)) as i64,
                },
            ),
            old(self).1.im == 0 && old(self).1.re >= 0 && (phi as int) % (TURN as int) == 0
                ==> final(self).1 == old(self).1,
            old(self).1.im == 0 && old(self).1.re >= 0 && (phi as int) % (TURN as int)
                == QUARTER_TURN ==> final(self).1 == (CartesianComplex { re: 0, im: old(self).1.re }),
            old(self).1.im == 0 && old(self).1.re >= 0 && (phi as int) % (TURN as int) == HALF_TURN
                ==> final(self).1 == (CartesianComplex { re: (-old(self).1.re) as i64, im: 0 }),
            old(self).1.re == 0 && old(self).1.im > 0 && (phi as int) % (TURN as int) == 3
                * QUARTER_TURN ==> final(self).1 == (CartesianComplex { re: old(self).1.im, im: 0 }),
    {
        let mut b: PolarComplex = self.1.to_polar();
        assert(self.0.norm_sq() >= 0 && self.1.norm_sq() >= 0) by (nonlinear_arith)
            requires
                self.0.norm_sq() == self.0.re * self.0.re + self.0.im * self.0.im,
                self.1.norm_sq() == self.1.re * self.1.re + self.1.im * self.1.im;
        proof {
            lemma_root_loss(b.norm as int, self.1.norm_sq(), self.0.norm_sq());
            lemma_small_weight(b.norm as int, 0);
        }
        b.phase_shift_by(phi);
        let c: CartesianComplex = b.to_cartesian();
        proof {
            lemma_polar_loss(b.norm as int, c.norm_sq());
        }
        self.1 = c;
    }
}

/// The Hadamard gate on a qubit in the Cartesian encoding.
fn hadamard_cartesian(q: &mut Qubit<CartesianComplex>)
    requires
        old(q).wf(),
    ensures
        final(q).wf(),
        *final(q) == old(q).hadamard_of(),
        final(q).weight0() + final(q).weight1() + 15 * ONE >= old(q).weight0() + old(q).weight1(),
{
    proof {
        lemma_hadamard_weight(q.0.re as int, q.0.im as int, q.1.re as int, q.1.im as int);
        lemma_square_le(2 * ONE, LIMIT as int);
    }
    let mut a: CartesianComplex = q.0.add(q.1);
    a.scale(INV_SQRT2);
    let mut b: CartesianComplex = q.0.sub(q.1);
    b.scale(INV_SQRT2);
    *q = Qubit(a, b);
}


/// How far a part of an amplitude may move under two Hadamard gates in the
/// Cartesian encoding, in fixed-point units.
pub const HADAMARD_TOLERANCE: i64 = 6;

/// Rounding toward zero after dividing by `ONE` is off by less than one unit.
proof fn lemma_tdiv_near(n: int)
    ensures
        n - ONE < ONE * tdiv(n, ONE as int) < n + ONE,
{
    if n >= 0 {
        assert(n - ONE < ONE * (n / (ONE as int)) <= n) by (nonlinear_arith)
            requires n >= 0;
    } else {
        assert(-n - ONE < ONE * ((-n) / (ONE as int)) <= -n) by (nonlinear_arith)
            requires n < 0;
    }
}

/// One part of two Hadamard gates: from `a` (of `α`) and `b` (of `β`), the
/// first gate gives `u` and `v`, the second gives back `a` and `b` within
/// `HADAMARD_TOLERANCE`.
proof fn lemma_double_hadamard_part(a: int, b: int)
    requires
        -ONE <= a <= ONE,
        -ONE <= b <= ONE,
    ensures
        ({
            let u = fx_mul_spec(a + b, INV_SQRT2 as int);
            let v = fx_mul_spec(a - b, INV_SQRT2 as int);
            &&& -2 * ONE <= u <= 2 * ONE
            &&& -2 * ONE <= v <= 2 * ONE
            &&& -HADAMARD_TOLERANCE <= fx_mul_spec(u + v, INV_SQRT2 as int) - a <= HADAMARD_TOLERANCE
            &&& -HADAMARD_TOLERANCE <= fx_mul_spec(u - v, INV_SQRT2 as int) - b <= HADAMARD_TOLERANCE
        }),
{
    let s = INV_SQRT2 as int;
    let u = fx_mul_spec(a + b, s);
    let v = fx_mul_spec(a - b, s);
    lemma_tdiv_near((a + b) * s);
    lemma_tdiv_near((a - b) * s);
    lemma_tdiv_near((u + v) * s);
    lemma_tdiv_near((u - v) * s);
    let w = fx_mul_spec(u + v, s);
    let z = fx_mul_spec(u - v, s);
    assert(-2 * ONE <= u <= 2 * ONE && -2 * ONE <= v <= 2 * ONE);
    assert(-HADAMARD_TOLERANCE <= w - a <= HADAMARD_TOLERANCE);
    assert(-HADAMARD_TOLERANCE <= z - b <= HADAMARD_TOLERANCE);
}

/// Every part of an amplitude of a normalized qubit lies in `[-1, 1]`.
proof fn lemma_parts_bounded(q: Qubit<CartesianComplex>)
    requires
        q.wf(),
    ensures
        -ONE <= q.0.re <= ONE,
        -ONE <= q.0.im <= ONE,
        -ONE <= q.1.re <= ONE,
        -ONE <= q.1.im <= ONE,
{
    let (a, b, c, d) = (q.0.re as int, q.0.im as int, q.1.re as int, q.1.im as int);
    assert(-ONE <= a <= ONE && -ONE <= b <= ONE && -ONE <= c <= ONE && -ONE <= d <= ONE)
        by (nonlinear_arith)
        requires a * a + b * b + (c * c + d * d) <= ONE * ONE;
}

/// The Hadamard gate undoes itself on the Cartesian encoding: applied twice
/// to a normalized qubit it gives back every part of both amplitudes within
/// `HADAMARD_TOLERANCE` units.
pub proof fn lemma_hadamard_self_inverse(q: Qubit<CartesianComplex>)
    requires
        q.wf(),
    ensures
        ({
            let h = q.hadamard_of().hadamard_of();
            &&& -HADAMARD_TOLERANCE <= h.0.re - q.0.re <= HADAMARD_TOLERANCE
            &&& -HADAMARD_TOLERANCE <= h.0.im - q.0.im <= HADAMARD_TOLERANCE
            &&& -HADAMARD_TOLERANCE <= h.1.re - q.1.re <= HADAMARD_TOLERANCE
            &&& -HADAMARD_TOLERANCE <= h.1.im - q.1.im <= HADAMARD_TOLERANCE
        }),
{
    lemma_parts_bounded(q);
    lemma_double_hadamard_part(q.0.re as int, q.1.re as int);
    lemma_double_hadamard_part(q.0.im as int, q.1.im as int);
}

/// The Pauli X gate undoes itself: swapping the amplitudes twice gives back
/// the qubit, in either encoding.
pub proof fn lemma_px_involution<T>(q: Qubit<T>)
    ensures
        q.swapped().swapped() == q,
{
}

/// The Pauli Z gate undoes itself on the polar encoding.
pub proof fn lemma_pz_involution_polar(q: Qubit<PolarComplex>)
    requires
        q.wf(),
    ensures
        q.pz_of().pz_of() == q,
{
    vstd::arithmetic::div_mod::lemma_add_mod_noop(q.1.arg + HALF_TURN, HALF_TURN as int, TURN as int);
    vstd::arithmetic::div_mod::lemma_mod_twice(q.1.arg + HALF_TURN, TURN as int);
    vstd::arithmetic::div_mod::lemma_add_mod_noop(q.1.arg as int, TURN as int, TURN as int);
    vstd::arithmetic::div_mod::lemma_small_mod(q.1.arg as nat, TURN as nat);
    vstd::arithmetic::div_mod::lemma_mod_self_0(TURN as int);
}

/// The Pauli Z gate undoes itself on the Cartesian encoding.
pub proof fn lemma_pz_involution_cartesian(q: Qubit<CartesianComplex>)
    requires
        q.wf(),
    ensures
        q.pz_of().pz_of() == q,
{
    lemma_parts_bounded(q);
}

} // verus!
