//! Tests of the reference trajectory and the receding-horizon
//! controller, ending with the full tracking scenario driven by a
//! small projected-gradient QP solver.

use unicycle_mpc::controller::ConfigError;
use unicycle_mpc::controller::LinearTimedPath;
use unicycle_mpc::controller::MpcController;
use unicycle_mpc::controller::QpProblem;
use unicycle_mpc::controller::QpSolver;
use unicycle_mpc::controller::TimedPath;
use unicycle_mpc::controller::TimedPathController;
use unicycle_mpc::controller::Waypoint;
use unicycle_mpc::math::identity;
use unicycle_mpc::robot::InputVec;
use unicycle_mpc::robot::LinearUnicycleSystem;
use unicycle_mpc::robot::NonlinearUnicycleSystem;
use unicycle_mpc::robot::StateVec;
use unicycle_mpc::robot::System;

const FX: i64 = 1_000_000;

fn wp(x: i64, y: i64, theta: i64, time: i64) -> Waypoint {
    Waypoint { pose: StateVec { x, y, theta }, time }
}

/// The ten-second straight-line reference of the tracking scenario:
/// from the origin to ten units along x.
fn straight_path() -> LinearTimedPath {
    let wps = vec![wp(0, 0, 0, 0), wp(10 * FX, 0, 0, 10 * FX)];
    LinearTimedPath::new(wps, 50_000).unwrap()
}

/// A solver that always answers with a fixed vector.
struct FixedSolver {
    answer: Option<Vec<i64>>,
}

impl QpSolver for FixedSolver {
    fn solve(&mut self, _prob: &QpProblem) -> Option<Vec<i64>> {
        self.answer.clone()
    }
}

/// A deterministic projected-gradient solver for the box-constrained
/// QP, working in floating point and rounding the answer back to
/// micro-units.
struct PgdSolver {
    iters: usize,
}

impl QpSolver for PgdSolver {
    fn solve(&mut self, prob: &QpProblem) -> Option<Vec<i64>> {
        let n = prob.q.len();
        let mut p = vec![vec![0.0f64; n]; n];
        for c in 0..prob.p_upper.ncols {
            for k in prob.p_upper.indptr[c]..prob.p_upper.indptr[c + 1] {
                let r = prob.p_upper.indices[k];
                let v = prob.p_upper.data[k] as f64 / 1e6;
                p[r][c] = v;
                if r != c {
                    p[c][r] = v;
                }
            }
        }
        let q: Vec<f64> = prob.q.iter().map(|&x| x as f64 / 1e6).collect();
        let lo: Vec<f64> = prob.lower.iter().map(|&x| x as f64 / 1e6).collect();
        let hi: Vec<f64> = prob.upper.iter().map(|&x| x as f64 / 1e6).collect();
        let mut lmax = 0.0f64;
        for r in 0..n {
            let mut s = 0.0;
            for c in 0..n {
                s += p[r][c].abs();
            }
            if s > lmax {
                lmax = s;
            }
        }
        let step = if lmax > 0.0 { 1.0 / lmax } else { 1.0 };
        let mut u = vec![0.0f64; n];
        for _ in 0..self.iters {
            for r in 0..n {
                let mut g = q[r];
                for c in 0..n {
                    g += p[r][c] * u[c];
                }
                let mut next = u[r] - step * g;
                if next < lo[r] {
                    next = lo[r];
                }
                if next > hi[r] {
                    next = hi[r];
                }
                u[r] = next;
            }
        }
        Some(u.iter().map(|&x| (x * 1e6).round() as i64).collect())
    }
}

type Ctl<S> = MpcController<LinearTimedPath, LinearUnicycleSystem, S>;

fn make_controller<S: QpSolver>(horizon: i64, dt: i64) -> Ctl<S> {
    let q = identity(3);
    Ctl::<S>::new(
        horizon,
        dt,
        InputVec::new(-FX, -300_000),
        InputVec::new(FX, 300_000),
        q,
    )
    .unwrap()
}

#[test]
fn path_rejects_bad_configurations() {
    let good = vec![wp(0, 0, 0, 0), wp(FX, 0, 0, FX)];
    assert!(matches!(
        LinearTimedPath::new(good.clone(), 0),
        Err(ConfigError::NonPositiveStep)
    ));
    assert!(matches!(
        LinearTimedPath::new(Vec::new(), 50_000),
        Err(ConfigError::EmptyPath)
    ));
    let unsorted = vec![wp(0, 0, 0, FX), wp(FX, 0, 0, 0)];
    assert!(matches!(
        LinearTimedPath::new(unsorted, 50_000),
        Err(ConfigError::UnsortedPath)
    ));
    assert!(LinearTimedPath::new(good, 50_000).is_ok());
}

#[test]
fn sampling_before_the_path_clamps_to_the_first_pose() {
    let path = straight_path();
    let states = path.horizon_states(-5 * FX, 4);
    assert_eq!(states.len(), 4);
    for s in states.iter() {
        assert_eq!(*s, StateVec::new(0, 0, 0));
    }
}

#[test]
fn sampling_after_the_path_clamps_to_the_last_pose() {
    let path = straight_path();
    let states = path.horizon_states(20 * FX, 4);
    for s in states.iter() {
        assert_eq!(*s, StateVec::new(10 * FX, 0, 0));
    }
}

#[test]
fn sampling_interpolates_linearly_in_between() {
    let path = straight_path();
    let states = path.horizon_states(5 * FX, 2);
    // Halfway in time is halfway along the segment; the next sample
    // lies 0.05 s further.
    assert_eq!(states[0], StateVec::new(5 * FX, 0, 0));
    assert_eq!(states[1], StateVec::new(5 * FX + 50_000, 0, 0));
}

#[test]
fn controller_rejects_bad_configurations() {
    let q = identity(3);
    let lo = InputVec::new(-FX, -300_000);
    let hi = InputVec::new(FX, 300_000);
    assert!(matches!(
        Ctl::<PgdSolver>::new(200_000, 0, lo, hi, identity(3)),
        Err(ConfigError::NonPositiveStep)
    ));
    assert!(matches!(
        Ctl::<PgdSolver>::new(0, 50_000, lo, hi, identity(3)),
        Err(ConfigError::NonPositiveHorizon)
    ));
    assert!(matches!(
        Ctl::<PgdSolver>::new(40_000, 50_000, lo, hi, identity(3)),
        Err(ConfigError::HorizonTooShort)
    ));
    assert!(matches!(
        Ctl::<PgdSolver>::new(i64::MAX, 1, lo, hi, identity(3)),
        Err(ConfigError::HorizonTooLong)
    ));
    assert!(matches!(
        Ctl::<PgdSolver>::new(200_000, 50_000, hi, lo, identity(3)),
        Err(ConfigError::MalformedBounds)
    ));
    assert!(matches!(
        Ctl::<PgdSolver>::new(200_000, 50_000, lo, hi, identity(2)),
        Err(ConfigError::MalformedWeight)
    ));
    assert!(matches!(
        Ctl::<PgdSolver>::with_growth(200_000, 50_000, lo, hi, identity(3), 0),
        Err(ConfigError::NonPositiveGrowth)
    ));
    assert!(Ctl::<PgdSolver>::new(200_000, 50_000, lo, hi, q).is_ok());
}

#[test]
fn prepare_qp_matches_hand_computation_for_one_step() {
    // One horizon step, heading zero, previous input zero: A is the
    // identity, B = [[dt, 0], [0, 0], [0, dt]] with dt = 0.05, so
    // P = B^T Q B has 0.0025 on its diagonal and q picks up the
    // tracking error of -1.0 along x through B.
    let dt = 50_000;
    let ctl: Ctl<PgdSolver> = make_controller(dt, dt);
    let wps = vec![wp(FX, 0, 0, 0)];
    let path = LinearTimedPath::new(wps, dt).unwrap();
    let prob = ctl.prepare_qp(&path, StateVec::new(0, 0, 0), 0);
    assert_eq!(prob.p_upper.nrows, 2);
    assert_eq!(prob.p_upper.ncols, 2);
    assert_eq!(prob.p_upper.indptr, vec![0, 1, 2]);
    assert_eq!(prob.p_upper.indices, vec![0, 1]);
    assert_eq!(prob.p_upper.data, vec![2_500, 2_500]);
    assert_eq!(prob.q, vec![-50_000, 0]);
    assert_eq!(prob.constraints.indptr, vec![0, 1, 2]);
    assert_eq!(prob.constraints.indices, vec![0, 1]);
    assert_eq!(prob.constraints.data, vec![FX, FX]);
    assert_eq!(prob.lower, vec![-FX, -300_000]);
    assert_eq!(prob.upper, vec![FX, 300_000]);
}

#[test]
fn control_clamps_the_solver_answer_into_bounds() {
    let path = straight_path();
    let mut ctl: Ctl<FixedSolver> = make_controller(200_000, 50_000);
    // The answer exceeds both bounds: the returned input is clamped.
    let mut solver = FixedSolver {
        answer: Some(vec![2 * FX, 400_000, 0, 0, 0, 0, 0, 0]),
    };
    let u = ctl.control(&path, StateVec::new(0, 0, 0), 0, &mut solver);
    assert_eq!(u, InputVec::new(FX, 300_000));
    assert!(!ctl.last_solve_failed());
}

#[test]
fn control_falls_back_to_zero_when_the_solver_fails() {
    let path = straight_path();
    let mut ctl: Ctl<FixedSolver> = make_controller(200_000, 50_000);
    let mut solver = FixedSolver { answer: None };
    let u = ctl.control(&path, StateVec::new(0, 0, 0), 0, &mut solver);
    assert_eq!(u, InputVec::zeros());
    assert!(ctl.last_solve_failed());
}

#[test]
fn control_treats_a_wrong_dimension_as_a_failure() {
    let path = straight_path();
    let mut ctl: Ctl<FixedSolver> = make_controller(200_000, 50_000);
    let mut solver = FixedSolver {
        answer: Some(vec![FX]),
    };
    let u = ctl.control(&path, StateVec::new(0, 0, 0), 0, &mut solver);
    assert_eq!(u, InputVec::zeros());
    assert!(ctl.last_solve_failed());
}

#[test]
fn control_stays_within_bounds_with_a_real_solver() {
    let path = straight_path();
    let mut ctl: Ctl<PgdSolver> = make_controller(200_000, 50_000);
    let mut solver = PgdSolver { iters: 400 };
    let mut x = StateVec::new(0, 0, 0);
    let mut t: i64 = 0;
    for _ in 0..20 {
        let u = ctl.control(&path, x, t, &mut solver);
        assert!(-FX <= u.v && u.v <= FX);
        assert!(-300_000 <= u.omega && u.omega <= 300_000);
        x = NonlinearUnicycleSystem::new(x, u, 50_000).tick(u, 50_000);
        t += 50_000;
    }
}

#[test]
fn identical_controllers_produce_identical_input_sequences() {
    let path = straight_path();
    let mut c1: Ctl<PgdSolver> = make_controller(200_000, 50_000);
    let mut c2: Ctl<PgdSolver> = make_controller(200_000, 50_000);
    let mut s1 = PgdSolver { iters: 300 };
    let mut s2 = PgdSolver { iters: 300 };
    let mut x1 = StateVec::new(0, 0, 0);
    let mut x2 = StateVec::new(0, 0, 0);
    let mut t: i64 = 0;
    for _ in 0..10 {
        let u1 = c1.control(&path, x1, t, &mut s1);
        let u2 = c2.control(&path, x2, t, &mut s2);
        assert_eq!(u1, u2);
        x1 = NonlinearUnicycleSystem::new(x1, u1, 50_000).tick(u1, 50_000);
        x2 = NonlinearUnicycleSystem::new(x2, u2, 50_000).tick(u2, 50_000);
        assert_eq!(x1, x2);
        t += 50_000;
    }
}

#[test]
fn tracking_scenario_reaches_the_goal() {
    // Waypoints (0,0,0) at t=0 and (10,0,0) at t=10, dt = 0.05,
    // horizon 0.2 s (four steps), bounds [-1, 1] and [-0.3, 0.3].
    let path = straight_path();
    let mut ctl: Ctl<PgdSolver> = make_controller(200_000, 50_000);
    let mut solver = PgdSolver { iters: 400 };
    let mut x = StateVec::new(0, 0, 0);
    let mut t: i64 = 0;
    let dist = |s: &StateVec| -> f64 {
        let dx = (10 * FX - s.x) as f64;
        let dy = (0 - s.y) as f64;
        (dx * dx + dy * dy).sqrt()
    };
    // The first command moves forward without turning.
    let u0 = ctl.control(&path, x, t, &mut solver);
    assert!(!ctl.last_solve_failed());
    assert!(u0.v >= 0);
    assert!(u0.omega.abs() <= 10_000);
    x = NonlinearUnicycleSystem::new(x, u0, 50_000).tick(u0, 50_000);
    t += 50_000;
    // One max-speed step is 0.05 units: 50 000 micro-units.
    let goal = 50_000.0f64;
    let mut d = dist(&x);
    let mut reached = d <= goal;
    for _ in 0..400 {
        if reached {
            break;
        }
        let u = ctl.control(&path, x, t, &mut solver);
        assert!(!ctl.last_solve_failed());
        x = NonlinearUnicycleSystem::new(x, u, 50_000).tick(u, 50_000);
        t += 50_000;
        let d_next = dist(&x);
        // Monotone progress toward the goal until within one step.
        assert!(d_next <= d);
        d = d_next;
        reached = d <= goal;
    }
    assert!(reached);
}
