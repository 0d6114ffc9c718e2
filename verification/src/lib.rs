//! Receding-horizon (MPC) control of a unicycle-type vehicle.
//!
//! All quantities are fixed-point numbers: an `i64` counts micro-units, so
//! `1_000_000` stands for `1.0`. Every arithmetic step saturates at the
//! `i64` range instead of wrapping, and every executable function is pinned
//! to a specification function of its arguments, so the whole pipeline is
//! deterministic by construction.
//!
//! The quadratic-program solve itself runs outside this library: the
//! controller assembles the problem (cost matrix, linear term, bounds) as
//! plain fixed-point data, a [`controller::QpSolver`] implementation answers
//! it, and the controller then validates whatever came back.

pub mod fixed;
pub mod math;
pub mod robot;
pub mod controller;

