//! A single simulated qubit over fixed-point complex amplitudes.
//!
//! Real quantities are `i64` fixed-point values in which [`fixed::ONE`] stands
//! for 1.0; angles are fractions of a turn in which [`fixed::TURN`] stands for
//! 2π. Complex numbers come in two encodings, [`complex::CartesianComplex`] and
//! [`complex::PolarComplex`], and a [`qubit::Qubit`] holds two amplitudes of
//! the same encoding.

pub mod fixed;
pub mod trig;
pub mod complex;
pub mod qubit;

pub use fixed::{ONE, TURN};
pub use complex::{CartesianComplex, Complex, PolarComplex};
pub use qubit::{Qubit, TQubit};
