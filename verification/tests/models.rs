//! Tests of the unicycle motion models: the exact integrator, the
//! linearization, and the agreement between them.

use unicycle_mpc::fixed::fx_cos;
use unicycle_mpc::fixed::fx_sin;
use unicycle_mpc::fixed::FX_HALF_PI;
use unicycle_mpc::fixed::FX_ONE;
use unicycle_mpc::fixed::FX_PI;
use unicycle_mpc::robot::InputVec;
use unicycle_mpc::robot::LinearSystem;
use unicycle_mpc::robot::LinearUnicycleSystem;
use unicycle_mpc::robot::NonlinearUnicycleSystem;
use unicycle_mpc::robot::StateVec;
use unicycle_mpc::robot::System;

#[test]
fn nonlinear_tick_moves_forward_along_the_heading() {
    // Facing +x at 1.0 unit/s for 0.1 s: moves 0.1 unit in x.
    let x = StateVec::new(0, 0, 0);
    let u = InputVec::new(FX_ONE, 0);
    let sys = NonlinearUnicycleSystem::new(x, InputVec::zeros(), 100_000);
    let next = sys.tick(u, 100_000);
    assert_eq!(next, StateVec::new(100_000, 0, 0));
}

#[test]
fn nonlinear_tick_moves_along_y_at_half_pi() {
    let x = StateVec::new(0, 0, FX_HALF_PI);
    let u = InputVec::new(FX_ONE, 0);
    let sys = NonlinearUnicycleSystem::new(x, InputVec::zeros(), 100_000);
    let next = sys.tick(u, 100_000);
    // cos(pi/2) is within a few micro-units of zero.
    assert!(next.x.abs() <= 100);
    assert!((next.y - 100_000).abs() <= 100);
    assert_eq!(next.theta, FX_HALF_PI);
}

#[test]
fn nonlinear_tick_turns_with_omega() {
    let x = StateVec::new(0, 0, 0);
    let u = InputVec::new(0, 500_000);
    let sys = NonlinearUnicycleSystem::new(x, InputVec::zeros(), 200_000);
    let next = sys.tick(u, 200_000);
    // 0.5 rad/s for 0.2 s turns 0.1 rad, without moving.
    assert_eq!(next, StateVec::new(0, 0, 100_000));
}

#[test]
fn linearization_matrices_match_the_formulas() {
    let theta = FX_PI / 4;
    let v0 = 500_000i64;
    let dt = 50_000i64;
    let x = StateVec::new(1_000_000, 2_000_000, theta);
    let u0 = InputVec::new(v0, 100_000);
    let sys = LinearUnicycleSystem::new(x, u0, dt);
    let (a, b) = sys.get_system();
    let s = fx_sin(theta);
    let c = fx_cos(theta);
    let scaled = |p: i64, q: i64| -> i64 {
        let wide = (p as i128) * (q as i128) / 1_000_000;
        wide as i64
    };
    // A = [[1, 0, -v0 sin(theta) dt], [0, 1, v0 cos(theta) dt], [0, 0, 1]]
    assert_eq!(a.get(0, 0), FX_ONE);
    assert_eq!(a.get(0, 1), 0);
    assert_eq!(a.get(0, 2), scaled(scaled(-v0, s), dt));
    assert_eq!(a.get(1, 0), 0);
    assert_eq!(a.get(1, 1), FX_ONE);
    assert_eq!(a.get(1, 2), scaled(scaled(v0, c), dt));
    assert_eq!(a.get(2, 0), 0);
    assert_eq!(a.get(2, 1), 0);
    assert_eq!(a.get(2, 2), FX_ONE);
    // B = [[cos(theta) dt, 0], [sin(theta) dt, 0], [0, dt]]
    assert_eq!(b.get(0, 0), scaled(c, dt));
    assert_eq!(b.get(0, 1), 0);
    assert_eq!(b.get(1, 0), scaled(s, dt));
    assert_eq!(b.get(1, 1), 0);
    assert_eq!(b.get(2, 0), 0);
    assert_eq!(b.get(2, 1), dt);
}

#[test]
fn models_agree_exactly_at_rest() {
    let x = StateVec::new(123_456, -789_012, 2_000_000);
    let zero = InputVec::zeros();
    let dt = 50_000;
    let lin = LinearUnicycleSystem::new(x, zero, dt);
    let non = NonlinearUnicycleSystem::new(x, zero, dt);
    assert_eq!(lin.tick(zero, dt), x);
    assert_eq!(non.tick(zero, dt), x);
}

#[test]
fn linearization_tracks_the_nonlinear_model_for_small_steps() {
    // One step of the linear model stays within a small multiple of
    // dt^2 of the nonlinear one, over a grid of headings, for a small
    // step and a small input.
    let dt = 10_000i64; // 0.01 s
    let u = InputVec::new(10_000, 10_000); // 0.01 unit/s, 0.01 rad/s
    let headings = [0i64, FX_PI / 4, FX_HALF_PI, FX_PI];
    // dt^2 in micro-units is 100; allow a generous constant factor.
    let tol = 500i64;
    for &theta in headings.iter() {
        let x = StateVec::new(0, 0, theta);
        let lin = LinearUnicycleSystem::new(x, u, dt).tick(u, dt);
        let non = NonlinearUnicycleSystem::new(x, u, dt).tick(u, dt);
        assert!((lin.x - non.x).abs() <= tol);
        assert!((lin.y - non.y).abs() <= tol);
        assert!((lin.theta - non.theta).abs() <= tol);
    }
}

#[test]
fn linear_tick_applies_a_x_plus_b_u() {
    // At theta = 0 with pinning input zero: A = I, B = [[dt,0],[0,0],[0,dt]],
    // so tick(u, dt) = x + [v dt, 0, omega dt].
    let x = StateVec::new(2_000_000, 3_000_000, 0);
    let dt = 100_000;
    let sys = LinearUnicycleSystem::new(x, InputVec::zeros(), dt);
    let u = InputVec::new(500_000, 200_000);
    let next = sys.tick(u, dt);
    assert_eq!(next, StateVec::new(2_050_000, 3_000_000, 20_000));
}

#[test]
fn models_agree_exactly_at_zero_heading() {
    // Facing along +x, the linearized model reproduces the nonlinear
    // step exactly, for every command and pinning input.
    let dt = 50_000;
    let x = StateVec::new(2_000_000, -500_000, 0);
    let pins = [InputVec::zeros(), InputVec::new(700_000, -100_000)];
    let cmds = [InputVec::new(FX_ONE, 0), InputVec::new(-300_000, 250_000)];
    for &u0 in pins.iter() {
        for &uc in cmds.iter() {
            let lin = LinearUnicycleSystem::new(x, u0, dt).tick(uc, dt);
            let non = NonlinearUnicycleSystem::new(x, u0, dt).tick(uc, dt);
            assert_eq!(lin, non);
        }
    }
}
