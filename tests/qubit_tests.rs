use qubit_sim::complex::{CartesianComplex, Complex, PolarComplex};
use qubit_sim::fixed::{isqrt, reduce_angle, HALF_TURN, ONE, QUARTER_TURN, TURN};
use qubit_sim::qubit::{
    Qubit, TQubit, GATE_TOLERANCE, HADAMARD_TOLERANCE, INV_SQRT2, NORM_TOLERANCE,
};
use qubit_sim::trig::{atan2, cos_sin};

fn as_real(x: i64) -> f64 {
    x as f64 / ONE as f64
}

fn radians(a: i64) -> f64 {
    a as f64 / TURN as f64 * std::f64::consts::TAU
}

fn weight_sum_polar(q: &Qubit<PolarComplex>) -> i128 {
    let a = q.0.norm as i128;
    let b = q.1.norm as i128;
    a * a + b * b
}

fn weight_sum_cartesian(q: &Qubit<CartesianComplex>) -> i128 {
    let (a, b, c, d) = (q.0.re as i128, q.0.im as i128, q.1.re as i128, q.1.im as i128);
    a * a + b * b + c * c + d * d
}

fn one_sq() -> i128 {
    (ONE as i128) * (ONE as i128)
}

#[test]
fn init0_measure_gives_one_and_zero() {
    let q: Qubit<PolarComplex> = Qubit::init0();
    assert_eq!(q.measure(), (ONE, 0));
    let c: Qubit<CartesianComplex> = Qubit::init0();
    assert_eq!(c.measure(), (ONE, 0));
    assert_eq!(as_real(q.measure().0), 1.0);
    assert_eq!(as_real(q.measure().1), 0.0);
}

#[test]
fn init1_measure_gives_zero_and_one() {
    let q: Qubit<PolarComplex> = Qubit::init1();
    assert_eq!(q.measure(), (0, ONE));
    let c: Qubit<CartesianComplex> = Qubit::init1();
    assert_eq!(c.measure(), (0, ONE));
}

#[test]
fn hadamard_of_init0_is_even_superposition_polar() {
    let mut q: Qubit<PolarComplex> = Qubit::init0();
    q.hadamard();
    assert_eq!(q.0, PolarComplex { norm: INV_SQRT2, arg: 0 });
    assert_eq!(q.1, PolarComplex { norm: INV_SQRT2, arg: 0 });
    assert!((as_real(q.0.norm) - 0.70710678).abs() < 1e-8);
    assert!((as_real(q.1.norm) - 0.70710678).abs() < 1e-8);
}

#[test]
fn hadamard_of_init0_is_even_superposition_cartesian() {
    let mut q: Qubit<CartesianComplex> = Qubit::init0();
    q.hadamard();
    assert_eq!(q.0, CartesianComplex { re: INV_SQRT2, im: 0 });
    assert_eq!(q.1, CartesianComplex { re: INV_SQRT2, im: 0 });
    assert_eq!(q.0.arg(), 0);
    assert_eq!(q.1.arg(), 0);
}

#[test]
fn hadamard_of_init1_has_opposite_beta() {
    let mut q: Qubit<CartesianComplex> = Qubit::init1();
    q.hadamard();
    assert_eq!(q.0, CartesianComplex { re: INV_SQRT2, im: 0 });
    assert_eq!(q.1, CartesianComplex { re: -INV_SQRT2, im: 0 });
    let mut p: Qubit<PolarComplex> = Qubit::init1();
    p.hadamard();
    assert_eq!(p.0, PolarComplex { norm: INV_SQRT2, arg: 0 });
    assert_eq!(p.1, PolarComplex { norm: INV_SQRT2, arg: HALF_TURN });
}

#[test]
fn px_of_init0_is_init1() {
    let mut q: Qubit<PolarComplex> = Qubit::init0();
    q.px();
    assert_eq!(q, Qubit::<PolarComplex>::init1());
    let mut c: Qubit<CartesianComplex> = Qubit::init0();
    c.px();
    assert_eq!(c, Qubit::<CartesianComplex>::init1());
}

#[test]
fn polar_scaled_by_minus_one_folds_sign_into_angle() {
    let mut p = PolarComplex::new(2 * ONE, HALF_TURN);
    p.scale(-ONE);
    assert_eq!(p, PolarComplex { norm: 2 * ONE, arg: 0 });
}

#[test]
fn polar_scale_by_positive_factor_keeps_angle() {
    let mut p = PolarComplex::new(2 * ONE, QUARTER_TURN);
    p.scale(ONE / 2);
    assert_eq!(p, PolarComplex { norm: ONE, arg: QUARTER_TURN });
}

#[test]
fn cartesian_scale_multiplies_both_parts() {
    let mut c = CartesianComplex::new(3 * ONE, -ONE);
    c.scale(-2 * ONE);
    assert_eq!(c, CartesianComplex { re: -6 * ONE, im: 2 * ONE });
}

#[test]
fn polar_new_reduces_angle_and_folds_negative_norm() {
    assert_eq!(PolarComplex::new(ONE, TURN + 5), PolarComplex { norm: ONE, arg: 5 });
    assert_eq!(PolarComplex::new(ONE, -1), PolarComplex { norm: ONE, arg: TURN - 1 });
    assert_eq!(PolarComplex::new(-ONE, QUARTER_TURN), PolarComplex { norm: ONE, arg: 3 * QUARTER_TURN });
    assert_eq!(PolarComplex::new(-ONE, 3 * QUARTER_TURN), PolarComplex { norm: ONE, arg: QUARTER_TURN });
}

#[test]
fn reduce_angle_takes_least_nonnegative_remainder() {
    assert_eq!(reduce_angle(-1), TURN - 1);
    assert_eq!(reduce_angle(-TURN), 0);
    assert_eq!(reduce_angle(3 * TURN + 7), 7);
    assert_eq!(reduce_angle(42), 42);
}

#[test]
fn isqrt_is_floor_square_root() {
    assert_eq!(isqrt(0), 0);
    assert_eq!(isqrt(1), 1);
    assert_eq!(isqrt(15), 3);
    assert_eq!(isqrt(16), 4);
    assert_eq!(isqrt(1u128 << 60), 1 << 30);
    assert_eq!(isqrt((1u128 << 100) - 1), (1u64 << 50) - 1);
}

#[test]
fn cartesian_norm_of_three_four_is_five() {
    let c = CartesianComplex::new(3 * ONE, 4 * ONE);
    assert_eq!(c.norm(), 5 * ONE);
}

#[test]
fn cartesian_add_sub_mul() {
    let a = CartesianComplex::new(ONE, 2 * ONE);
    let b = CartesianComplex::new(3 * ONE, 4 * ONE);
    assert_eq!(a.add(b), CartesianComplex { re: 4 * ONE, im: 6 * ONE });
    assert_eq!(a.sub(b), CartesianComplex { re: -2 * ONE, im: -2 * ONE });
    assert_eq!(a.mul(b), CartesianComplex { re: -5 * ONE, im: 10 * ONE });
}

#[test]
fn cartesian_mul_by_i_rotates() {
    let i = CartesianComplex::new(0, ONE);
    let a = CartesianComplex::new(ONE / 2, ONE / 4);
    assert_eq!(a.mul(i), CartesianComplex { re: -ONE / 4, im: ONE / 2 });
}

#[test]
fn polar_mul_multiplies_norms_and_adds_angles() {
    let a = PolarComplex::new(2 * ONE, 3 * QUARTER_TURN);
    let b = PolarComplex::new(ONE / 2, HALF_TURN);
    assert_eq!(a.mul(b), PolarComplex { norm: ONE, arg: QUARTER_TURN });
}

#[test]
fn polar_add_and_sub_go_through_cartesian() {
    let a = PolarComplex::new(ONE, 0);
    let b = PolarComplex::new(ONE, QUARTER_TURN);
    let s = a.add(b);
    assert!((as_real(s.norm) - std::f64::consts::SQRT_2).abs() < 1e-6);
    assert!((radians(s.arg) - std::f64::consts::FRAC_PI_4).abs() < 1e-6);
    let d = a.sub(b);
    assert!((as_real(d.norm) - std::f64::consts::SQRT_2).abs() < 1e-6);
    assert!((radians(d.arg) - 7.0 * std::f64::consts::FRAC_PI_4).abs() < 1e-6);
    let z = a.sub(a);
    assert_eq!(z, PolarComplex { norm: 0, arg: 0 });
}

#[test]
fn origin_converts_to_zero_angle() {
    let c = CartesianComplex::new(0, 0);
    assert_eq!(c.to_polar(), PolarComplex { norm: 0, arg: 0 });
    assert_eq!(c.arg(), 0);
    let p = PolarComplex::new(0, QUARTER_TURN);
    assert_eq!(p.to_cartesian(), CartesianComplex { re: 0, im: 0 });
}

#[test]
fn axis_points_convert_exactly() {
    let cases = [
        (CartesianComplex { re: 3 * ONE, im: 0 }, PolarComplex { norm: 3 * ONE, arg: 0 }),
        (CartesianComplex { re: 0, im: 2 * ONE }, PolarComplex { norm: 2 * ONE, arg: QUARTER_TURN }),
        (CartesianComplex { re: -ONE, im: 0 }, PolarComplex { norm: ONE, arg: HALF_TURN }),
        (CartesianComplex { re: 0, im: -5 }, PolarComplex { norm: 5, arg: 3 * QUARTER_TURN }),
    ];
    for (c, p) in cases {
        assert_eq!(c.to_polar(), p);
        assert_eq!(p.to_cartesian(), c);
    }
}

#[test]
fn polar_round_trip_is_close() {
    let points = [(3.0, 4.0), (-1.0, 2.5), (-0.3, -0.7), (0.9, -0.1), (1e-3, 2e-3), (-200.0, 1.0)];
    for (x, y) in points {
        let c = CartesianComplex::new((x * ONE as f64) as i64, (y * ONE as f64) as i64);
        let p = c.to_polar();
        let back = p.to_cartesian().to_polar();
        let r = (x * x + y * y as f64).sqrt();
        assert!((as_real(p.norm) - r).abs() < 1e-6 * r.max(1.0), "norm of {x},{y}");
        assert!((as_real(back.norm) - r).abs() < 1e-6 * r.max(1.0), "norm after round trip of {x},{y}");
        let da = (radians(back.arg) - radians(p.arg)).abs();
        assert!(da < 1e-5 || (std::f64::consts::TAU - da) < 1e-5, "angle of {x},{y}");
        let again = back.to_cartesian();
        assert!((as_real(again.re) - x).abs() < 1e-5 * r.max(1.0), "re of {x},{y}");
        assert!((as_real(again.im) - y).abs() < 1e-5 * r.max(1.0), "im of {x},{y}");
    }
}

#[test]
fn angle_of_three_four() {
    let a = atan2(4 * ONE, 3 * ONE);
    assert!((radians(a) - (4.0f64).atan2(3.0)).abs() < 1e-6);
    let b = atan2(-4 * ONE, -3 * ONE);
    assert!((radians(b) - ((4.0f64).atan2(3.0) + std::f64::consts::PI)).abs() < 1e-6);
}

#[test]
fn atan2_on_axes_and_quadrants() {
    assert_eq!(atan2(0, 0), 0);
    assert_eq!(atan2(0, ONE), 0);
    assert_eq!(atan2(ONE, 0), QUARTER_TURN);
    assert_eq!(atan2(0, -ONE), HALF_TURN);
    assert_eq!(atan2(-ONE, 0), 3 * QUARTER_TURN);
    let d = atan2(ONE, ONE);
    assert!((d - QUARTER_TURN / 2).abs() < 8);
    let e = atan2(-ONE, ONE);
    assert!((e - 7 * QUARTER_TURN / 2).abs() < 8);
}

#[test]
fn cos_sin_values() {
    assert_eq!(cos_sin(0), (ONE, 0));
    assert_eq!(cos_sin(QUARTER_TURN), (0, ONE));
    assert_eq!(cos_sin(HALF_TURN), (-ONE, 0));
    assert_eq!(cos_sin(3 * QUARTER_TURN), (0, -ONE));
    let (c, s) = cos_sin(TURN / 6);
    assert!((as_real(c) - 0.5).abs() < 1e-6);
    assert!((as_real(s) - (3.0f64).sqrt() / 2.0).abs() < 1e-6);
    let (c, s) = cos_sin(TURN / 6 + HALF_TURN);
    assert!((as_real(c) + 0.5).abs() < 1e-6);
    assert!((as_real(s) + (3.0f64).sqrt() / 2.0).abs() < 1e-6);
    for k in 0..64i64 {
        let (c, s) = cos_sin(k * (TURN / 64) + 12345);
        let w = (c as i128) * (c as i128) + (s as i128) * (s as i128);
        assert!(w <= one_sq() && w >= one_sq() - 2 * ONE as i128);
    }
}

#[test]
fn init_with_is_normalized() {
    for p0 in [0, 1, ONE / 3, ONE / 2, ONE - 1, ONE] {
        let q: Qubit<PolarComplex> = Qubit::init_with(p0, 17, -3);
        let w = weight_sum_polar(&q);
        assert!(w <= one_sq() && w >= one_sq() - NORM_TOLERANCE as i128, "p0 = {p0}");
        assert_eq!(q.0.arg, 17);
        assert_eq!(q.1.arg, TURN - 3);
        let c: Qubit<CartesianComplex> = Qubit::init_with(p0, 17, -3);
        let w = weight_sum_cartesian(&c);
        assert!(w <= one_sq() && (w as f64) >= (one_sq() as f64) * (1.0 - 1e-6), "p0 = {p0}");
    }
    let q: Qubit<PolarComplex> = Qubit::init_with(ONE / 4, 0, 0);
    assert_eq!(q.0.norm, ONE / 2);
    assert_eq!(q.1.norm, 929887696);
    assert_eq!(q.measure(), (ONE / 4, 805306366));
}

#[test]
fn random_init_is_normalized_and_varies() {
    let mut seen = std::collections::HashSet::new();
    for _ in 0..50 {
        let q: Qubit<PolarComplex> = Qubit::init();
        let w = weight_sum_polar(&q);
        assert!(w <= one_sq() && w >= one_sq() - NORM_TOLERANCE as i128);
        assert!(q.0.arg >= 0 && q.0.arg < TURN && q.1.arg >= 0 && q.1.arg < TURN);
        seen.insert((q.0.norm, q.0.arg, q.1.arg));
        let c: Qubit<CartesianComplex> = Qubit::init();
        assert!(weight_sum_cartesian(&c) <= one_sq());
    }
    assert!(seen.len() > 1);
}

#[test]
fn hadamard_twice_gives_back_cartesian_qubit() {
    for (p0, t0, t1) in [(ONE / 3, 1000, 2_000_000_000), (ONE, 0, 0), (7, TURN - 9, 123_456_789)] {
        let q: Qubit<CartesianComplex> = Qubit::init_with(p0, t0, t1);
        let mut h = q;
        h.hadamard();
        h.hadamard();
        for (a, b) in [(h.0.re, q.0.re), (h.0.im, q.0.im), (h.1.re, q.1.re), (h.1.im, q.1.im)] {
            assert!((a - b).abs() <= HADAMARD_TOLERANCE);
        }
    }
}

#[test]
fn hadamard_twice_gives_back_polar_qubit() {
    let q: Qubit<PolarComplex> = Qubit::init_with(ONE / 3, 1000, 2_000_000_000);
    let mut h = q;
    h.hadamard();
    h.hadamard();
    assert!((as_real(h.0.norm) - as_real(q.0.norm)).abs() < 1e-6);
    assert!((as_real(h.1.norm) - as_real(q.1.norm)).abs() < 1e-6);
    assert!((radians(h.0.arg) - radians(q.0.arg)).abs() < 1e-5);
    assert!((radians(h.1.arg) - radians(q.1.arg)).abs() < 1e-5);
    assert!(weight_sum_polar(&h) <= one_sq());
}

#[test]
fn px_and_pz_twice_are_identity() {
    let q: Qubit<PolarComplex> = Qubit::init_with(ONE / 5, 77, HALF_TURN + 3);
    let mut x = q;
    x.px();
    assert_eq!(x, Qubit(q.1, q.0));
    x.px();
    assert_eq!(x, q);
    let mut z = q;
    z.pz();
    assert_eq!(z.1, PolarComplex { norm: q.1.norm, arg: 3 });
    z.pz();
    assert_eq!(z, q);
    let c: Qubit<CartesianComplex> = Qubit::init_with(ONE / 5, 77, HALF_TURN + 3);
    let mut x = c;
    x.px();
    x.px();
    assert_eq!(x, c);
    let mut z = c;
    z.pz();
    assert_eq!(z.1, CartesianComplex { re: -c.1.re, im: -c.1.im });
    z.pz();
    assert_eq!(z, c);
}

#[test]
fn py_maps_basis_states() {
    let mut q: Qubit<CartesianComplex> = Qubit::init0();
    q.py();
    assert_eq!(q, Qubit(CartesianComplex { re: 0, im: 0 }, CartesianComplex { re: 0, im: ONE }));
    let mut q: Qubit<CartesianComplex> = Qubit::init1();
    q.py();
    assert_eq!(q, Qubit(CartesianComplex { re: 0, im: -ONE }, CartesianComplex { re: 0, im: 0 }));
    let mut p: Qubit<PolarComplex> = Qubit::init0();
    p.py();
    assert_eq!(p, Qubit(PolarComplex { norm: 0, arg: 3 * QUARTER_TURN }, PolarComplex { norm: ONE, arg: QUARTER_TURN }));
    let mut p: Qubit<PolarComplex> = Qubit::init1();
    p.py();
    assert_eq!(p.0, PolarComplex { norm: ONE, arg: 3 * QUARTER_TURN });
    assert_eq!(p.1.norm, 0);
}

#[test]
fn phase_shift_turns_beta_only() {
    let mut p: Qubit<PolarComplex> = Qubit::init_with(ONE / 2, 5, HALF_TURN);
    let alpha = p.0;
    p.phase_shift(HALF_TURN + 10);
    assert_eq!(p.0, alpha);
    assert_eq!(p.1.arg, 10);
    let mut c: Qubit<CartesianComplex> = Qubit::init1();
    c.phase_shift(QUARTER_TURN);
    assert_eq!(c, Qubit(CartesianComplex { re: 0, im: 0 }, CartesianComplex { re: 0, im: ONE }));
    c.phase_shift(-QUARTER_TURN);
    assert_eq!(c, Qubit::<CartesianComplex>::init1());
}

#[test]
fn measure_twice_is_the_same() {
    let q: Qubit<PolarComplex> = Qubit::init_with(ONE / 3, 11, 22);
    let before = q;
    assert_eq!(q.measure(), q.measure());
    assert_eq!(q, before);
    let c: Qubit<CartesianComplex> = Qubit::init_with(ONE / 3, 11, 22);
    assert_eq!(c.measure(), c.measure());
}

#[test]
fn collapse_with_follows_the_draw() {
    let q: Qubit<PolarComplex> = Qubit::init_with(ONE / 4, 0, 0);
    let p0 = q.measure().0;
    assert_eq!(p0, ONE / 4);
    assert_eq!(q.collapse_with(p0 - 1, false), Qubit::init0());
    assert_eq!(q.collapse_with(p0 + 1, true), Qubit::init1());
    assert_eq!(q.collapse_with(p0, true), Qubit::init0());
    assert_eq!(q.collapse_with(p0, false), Qubit::init1());
    let c: Qubit<CartesianComplex> = Qubit::init_with(ONE / 4, 0, 0);
    let c0 = c.measure().0;
    assert_eq!(c.collapse_with(c0 - 1, false), Qubit::init0());
    assert_eq!(c.collapse_with(c0 + 1, true), Qubit::init1());
    assert_eq!(c.collapse_with(c0, true), Qubit::init0());
    assert_eq!(c.collapse_with(c0, false), Qubit::init1());
}

#[test]
fn collapse_gives_basis_states_and_keeps_receiver() {
    let mut q: Qubit<PolarComplex> = Qubit::init0();
    q.hadamard();
    let before = q;
    let mut zeros = 0;
    let mut ones = 0;
    for _ in 0..200 {
        let r = q.collapse();
        if r == Qubit::init0() {
            zeros += 1;
        } else {
            assert_eq!(r, Qubit::init1());
            ones += 1;
        }
    }
    assert_eq!(q, before);
    assert!(zeros > 0 && ones > 0);
    let basis: Qubit<CartesianComplex> = Qubit::init0();
    for _ in 0..50 {
        assert_eq!(basis.collapse(), Qubit::init0());
    }
}

#[test]
fn bloch_angles_of_basis_and_superposition() {
    let q: Qubit<PolarComplex> = Qubit::init0();
    assert_eq!(q.bloch_angles(), (0, 0));
    let q: Qubit<PolarComplex> = Qubit::init1();
    assert_eq!(q.bloch_angles(), (HALF_TURN, 0));
    let mut h: Qubit<PolarComplex> = Qubit::init1();
    h.hadamard();
    let (theta, phi) = h.bloch_angles();
    assert!((theta - QUARTER_TURN).abs() < 8);
    assert_eq!(phi, HALF_TURN);
}

#[test]
fn normalize_rescales_to_unit_magnitude() {
    let mut c = CartesianComplex::new(3 * ONE, 4 * ONE);
    c.normalize();
    assert_eq!(c, CartesianComplex { re: 3 * ONE / 5, im: 4 * ONE / 5 });
    let mut p = PolarComplex::new(5 * ONE, QUARTER_TURN);
    p.normalize();
    assert_eq!(p, PolarComplex { norm: ONE, arg: QUARTER_TURN });
}

#[test]
fn normalize_of_zero_takes_angle_zero() {
    let mut c = CartesianComplex::new(0, 0);
    c.normalize();
    assert_eq!(c, CartesianComplex { re: ONE, im: 0 });
    let mut p = PolarComplex { norm: 0, arg: QUARTER_TURN };
    p.normalize();
    assert_eq!(p, PolarComplex { norm: ONE, arg: 0 });
}

#[test]
fn scale_to_zero_magnitude_takes_angle_zero() {
    let mut p = PolarComplex::new(ONE, QUARTER_TURN);
    p.scale(0);
    assert_eq!(p, PolarComplex { norm: 0, arg: 0 });
    let mut q = PolarComplex::new(ONE, QUARTER_TURN);
    q.scale(-ONE);
    assert_eq!(q, PolarComplex { norm: ONE, arg: 3 * QUARTER_TURN });
}

#[test]
fn repeated_gates_keep_weight_within_tolerance() {
    let mut p: Qubit<PolarComplex> = Qubit::init_with(ONE / 3, 1000, 2_000_000_000);
    let mut c: Qubit<CartesianComplex> = Qubit::init_with(ONE / 3, 1000, 2_000_000_000);
    let start_p = weight_sum_polar(&p);
    let start_c = weight_sum_cartesian(&c);
    for k in 0..100i64 {
        p.hadamard();
        p.phase_shift(k * 1_000_003);
        c.hadamard();
        c.phase_shift(k * 1_000_003);
    }
    let wp = weight_sum_polar(&p);
    let wc = weight_sum_cartesian(&c);
    assert!(wp <= start_p && wp + 200 * GATE_TOLERANCE as i128 >= start_p);
    assert!(wc <= start_c && wc + 200 * GATE_TOLERANCE as i128 >= start_c);
    assert!((wp as f64) / (one_sq() as f64) > 1.0 - 1e-5);
}

#[test]
fn polar_add_and_sub_on_the_real_axis_are_exact() {
    let a = PolarComplex::new(3 * ONE / 4, 0);
    let b = PolarComplex::new(ONE / 4, 0);
    assert_eq!(a.add(b), PolarComplex { norm: ONE, arg: 0 });
    assert_eq!(a.sub(b), PolarComplex { norm: ONE / 2, arg: 0 });
    assert_eq!(b.sub(a), PolarComplex { norm: ONE / 2, arg: HALF_TURN });
    assert_eq!(a.add(PolarComplex::new(0, QUARTER_TURN)), a);
}

#[test]
fn cartesian_arg_by_quadrant() {
    assert_eq!(CartesianComplex::new(-ONE, 0).arg(), HALF_TURN);
    let a = CartesianComplex::new(-ONE, ONE).arg();
    assert!((a - 3 * QUARTER_TURN / 2).abs() < 8);
    let b = CartesianComplex::new(-ONE, -ONE).arg();
    assert!((b - 5 * QUARTER_TURN / 2).abs() < 8);
}

#[test]
fn polar_round_trip_keeps_magnitude_within_bound() {
    for (n, a) in [(ONE, 12345), (ONE / 3, TURN / 7), (7, 3 * QUARTER_TURN + 99), (ONE - 1, TURN - 1)] {
        let p = PolarComplex::new(n, a);
        let back = p.to_cartesian().to_polar();
        assert!(back.norm <= n);
        assert!(n - back.norm < 7, "magnitude {n} at angle {a}");
    }
    let big = PolarComplex::new(1000 * ONE, TURN / 5);
    let back = big.to_cartesian().to_polar();
    assert!(back.norm <= big.norm);
    assert!((ONE as i128) * ((big.norm - back.norm) as i128) < 2 * (big.norm as i128) + 5 * (ONE as i128));
}

#[test]
fn normalize_of_tiny_values_reaches_unit_magnitude() {
    for (re, im) in [(1, 1), (1, 0), (0, -3), (-2, 5), (1000, -1000), (ONE / 1000, ONE / 700)] {
        let mut c = CartesianComplex::new(re, im);
        let before = c.arg();
        c.normalize();
        let w = (c.re as i128) * (c.re as i128) + (c.im as i128) * (c.im as i128);
        assert!(w >= one_sq() - 4 * ONE as i128 && w <= one_sq() + 3 * ONE as i128, "{re},{im}");
        let r = (re as f64).hypot(im as f64);
        assert!((as_real(c.re) - re as f64 / r).abs() < 1e-6, "{re},{im}");
        assert!((as_real(c.im) - im as f64 / r).abs() < 1e-6, "{re},{im}");
        assert!((radians(c.arg()) - radians(before)).abs() < 1e-5 || re.abs() + im.abs() < 100_000);
    }
}

#[test]
fn cartesian_init_with_is_conversion_of_polar_init_with() {
    for p0 in [0, ONE / 3, ONE / 2, ONE] {
        let p: Qubit<PolarComplex> = Qubit::init_with(p0, 1234, TURN / 3);
        let c: Qubit<CartesianComplex> = Qubit::init_with(p0, 1234, TURN / 3);
        assert_eq!(c, p.to_cartesian());
        let w0 = (c.0.re as i128) * (c.0.re as i128) + (c.0.im as i128) * (c.0.im as i128);
        let want = (p0 as i128) * (ONE as i128);
        assert!(w0 <= want && w0 >= want - 8 * ONE as i128 - 1);
        assert_eq!(p.to_cartesian().to_polar().to_cartesian(), c.to_polar().to_cartesian());
    }
}

#[test]
fn polar_hadamard_goes_through_cartesian() {
    let p: Qubit<PolarComplex> = Qubit::init_with(ONE / 5, 999, TURN / 3);
    let mut h = p;
    h.hadamard();
    let mut c = p.to_cartesian();
    c.hadamard();
    assert_eq!(h, c.to_polar());
}
