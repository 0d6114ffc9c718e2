//! The reference trajectory and the receding-horizon (MPC) controller.
//!
//! A trajectory is an ordered sequence of timestamped poses sampled by
//! piecewise-linear interpolation, clamped at both ends. The controller,
//! each cycle, linearizes the vehicle model about the current state and
//! the previously applied input, assembles a box-constrained quadratic
//! program over the horizon, hands it to a [`QpSolver`], and validates
//! whatever comes back: the returned input is componentwise within the
//! configured bounds, or it is the zero fail-safe command.

use vstd::prelude::*;

use crate::fixed::clamp;
use crate::fixed::clamp_s;
use crate::fixed::fx_add;
use crate::fixed::fx_add_s;
use crate::fixed::fx_div;
use crate::fixed::fx_div_s;
use crate::fixed::fx_mul;
use crate::fixed::fx_mul_s;
use crate::fixed::fx_sub;
use crate::fixed::fx_sub_s;
use crate::fixed::sat_mul;
use crate::fixed::sat_mul_s;
use crate::robot::InputVec;
use crate::robot::LinearSystem;
use crate::robot::StateVec;
use crate::robot::System;
use crate::fixed::tdiv64;
use crate::fixed::tdiv_s;
use crate::fixed::FX_ONE;
use crate::math::block_diag_s;
use crate::math::col_s;
use crate::math::csc_matches;
use crate::math::diagonal_block_matrix;
use crate::math::horizontal_stack;
use crate::math::identity;
use crate::math::identity_s;
use crate::math::into_sparse;
use crate::math::is_grid;
use crate::math::lemma_cols_before_uniform;
use crate::math::lemma_rows_before_uniform;
use crate::math::mul_s;
use crate::math::scale_s;
use crate::math::sub_s;
use crate::math::tile;
use crate::math::tile_s;
use crate::math::transpose_s;
use crate::math::upper_tri_s;
use crate::math::vertical_stack;
use crate::math::views_s;
use crate::math::vstack_s;
use crate::math::hstack_s;
use crate::math::CscMatrix;
use crate::math::Matrix;
use core::marker::PhantomData;

verus! {

/// A configuration rejected at construction time.
#[derive(Clone, Copy, PartialEq, Eq, Structural, Debug)]
pub enum ConfigError {
    /// The sampling or integration step is not positive.
    NonPositiveStep,
    /// The horizon duration is not positive.
    NonPositiveHorizon,
    /// The horizon holds less than one whole step.
    HorizonTooShort,
    /// The horizon holds more steps than this build supports.
    HorizonTooLong,
    /// A lower input bound exceeds the matching upper bound.
    MalformedBounds,
    /// The single-step weight matrix is not 3 by 3.
    MalformedWeight,
    /// The per-step weight growth factor is not positive.
    NonPositiveGrowth,
    /// The waypoint sequence is empty.
    EmptyPath,
    /// The waypoint times decrease somewhere.
    UnsortedPath,
}

/// A timestamped reference pose.
#[derive(Clone, Copy, PartialEq, Eq, Structural, Debug)]
pub struct Waypoint {
    /// The pose to pass through.
    pub pose: StateVec,
    /// The time, in micro-seconds of the control clock.
    pub time: i64,
}

/// The single-step state weight matrix `Q` must be 3 by 3.
pub type ConstraintMat = Matrix;

/// Waypoint times never decrease.
pub open spec fn sorted_by_time_s(wps: Seq<Waypoint>) -> bool {
    forall|i: int, j: int| 0 <= i < j < wps.len() ==> wps[i].time <= wps[j].time
}

/// Linear interpolation between two waypoints at time `t`; if the
/// segment has no positive duration, its end pose.
pub open spec fn interp_s(a: Waypoint, b: Waypoint, t: i64) -> StateVec {
    let den = fx_sub_s(b.time, a.time);
    if den <= 0 {
        b.pose
    } else {
        let alpha = fx_div_s(fx_sub_s(t, a.time), den);
        StateVec {
            x: fx_add_s(a.pose.x, fx_mul_s(alpha, fx_sub_s(b.pose.x, a.pose.x))),
            y: fx_add_s(a.pose.y, fx_mul_s(alpha, fx_sub_s(b.pose.y, a.pose.y))),
            theta: fx_add_s(a.pose.theta, fx_mul_s(alpha, fx_sub_s(b.pose.theta, a.pose.theta))),
        }
    }
}

/// The pose of the piecewise-linear path at time `t`, clamped to the
/// first pose before the first waypoint and to the last pose after the
/// last one.
pub open spec fn sample_s(wps: Seq<Waypoint>, t: i64) -> StateVec
    recommends
        wps.len() >= 1,
    decreases wps.len(),
{
    if wps.len() <= 1 {
        wps[0].pose
    } else if t <= wps[0].time {
        wps[0].pose
    } else if t < wps[1].time {
        interp_s(wps[0], wps[1], t)
    } else {
        sample_s(wps.drop_first(), t)
    }
}

/// The sampling time of horizon index `i`: `t + i * dt`, saturating.
pub open spec fn horizon_time_s(t: i64, dt: i64, i: int) -> i64 {
    fx_add_s(t, sat_mul_s(i as i64, dt))
}

/// Sampling at or before the first waypoint's time returns the first
/// pose.
pub proof fn lemma_sample_clamped_low(wps: Seq<Waypoint>, t: i64)
    requires
        wps.len() >= 1,
        t <= wps[0].time,
    ensures
        sample_s(wps, t) == wps[0].pose,
{
}

/// Sampling strictly after the last waypoint's time returns the last
/// pose.
pub proof fn lemma_sample_clamped_high(wps: Seq<Waypoint>, t: i64)
    requires
        wps.len() >= 1,
        sorted_by_time_s(wps),
        t > wps.last().time,
    ensures
        sample_s(wps, t) == wps.last().pose,
    decreases wps.len(),
{
    if wps.len() > 1 {
        assert(wps[0].time <= wps.last().time);
        assert(wps[1].time <= wps.last().time);
        lemma_sample_clamped_high(wps.drop_first(), t);
        assert(wps.drop_first().last() == wps.last());
    }
}

/// A path of timestamped poses, sampled a whole horizon at a time.
pub trait TimedPath: Sized {
    /// The path was built from an accepted configuration.
    spec fn wf(&self) -> bool;

    /// The sampling step.
    spec fn step(&self) -> i64;

    /// The waypoints the path was built from.
    spec fn points(&self) -> Seq<Waypoint>;

    /// The pose returned for a sample at time `t`.
    spec fn sample_at(&self, t: i64) -> StateVec;

    /// Builds the path, rejecting a bad configuration.
    fn new(points: Vec<Waypoint>, dt: i64) -> (r: Result<Self, ConfigError>)
        ensures
            r matches Ok(p) ==> p.wf() && p.step() == dt && p.points() == points@,
    ;

    /// The poses at times `t`, `t + dt`, ..., `t + (n - 1) dt`.
    fn horizon_states(&self, t: i64, n: usize) -> (r: Vec<StateVec>)
        requires
            self.wf(),
            n <= 0x1000_0000,
        ensures
            r@.len() == n,
            forall|i: int|
                0 <= i < n ==> r@[i] == self.sample_at(horizon_time_s(t, self.step(), i)),
    ;
}

/// A piecewise-linear timed path over a sorted waypoint sequence.
pub struct LinearTimedPath {
    dt: i64,
    waypoints: Vec<Waypoint>,
}

/// Linear interpolation between two waypoints at time `t`.
fn interp(a: Waypoint, b: Waypoint, t: i64) -> (r: StateVec)
    ensures
        r == interp_s(a, b, t),
{
    let den = fx_sub(b.time, a.time);
    if den <= 0 {
        b.pose
    } else {
        let alpha = fx_div(fx_sub(t, a.time), den);
        StateVec {
            x: fx_add(a.pose.x, fx_mul(alpha, fx_sub(b.pose.x, a.pose.x))),
            y: fx_add(a.pose.y, fx_mul(alpha, fx_sub(b.pose.y, a.pose.y))),
            theta: fx_add(a.pose.theta, fx_mul(alpha, fx_sub(b.pose.theta, a.pose.theta))),
        }
    }
}

impl LinearTimedPath {
    /// One clamped sample of the interpolant.
    pub fn sample(&self, t: i64) -> (r: StateVec)
        requires
            self.wf(),
        ensures
            r == sample_s(self.points(), t),
    {
        let ghost wps = self.waypoints@;
        let n = self.waypoints.len();
        let mut j: usize = 0;
        proof {
            assert(wps.skip(0) =~= wps);
        }
        loop
            invariant
                self.wf(),
                wps == self.waypoints@,
                n == wps.len(),
                1 <= n,
                j < n,
                sample_s(wps, t) == sample_s(wps.skip(j as int), t),
            ensures
                j < n,
                sample_s(wps, t) == sample_s(wps.skip(j as int), t),
                j + 1 < n ==> t > self.waypoints@[j as int].time && t < wps[j as int + 1].time
                    && t > wps[j as int].time,
                j + 1 == n || (t > wps[j as int].time && t < wps[j as int + 1].time),
            decreases n - j,
        {
            proof {
                assert(wps.skip(j as int).len() == n - j);
            }
            if j + 1 >= n {
                break ;
            }
            let wj = self.waypoints[j];
            let wj1 = self.waypoints[j + 1];
            proof {
                assert(wps.skip(j as int)[0] == wps[j as int]);
                assert(wps.skip(j as int)[1] == wps[j as int + 1]);
            }
            if t <= wj.time {
                proof {
                    lemma_sample_clamped_low(wps.skip(j as int), t);
                }
                return wj.pose;
            }
            if t < wj1.time {
                break ;
            }
            proof {
                assert(wps.skip(j as int).drop_first() =~= wps.skip(j as int + 1));
                assert(sample_s(wps.skip(j as int), t) == sample_s(wps.skip(j as int + 1), t));
            }
            j = j + 1;
        }
        if j + 1 >= n {
            proof {
                assert(wps.skip(j as int).len() == 1);
                assert(wps.skip(j as int)[0] == wps[j as int]);
            }
            self.waypoints[j].pose
        } else {
            proof {
                assert(wps.skip(j as int)[0] == wps[j as int]);
                assert(wps.skip(j as int)[1] == wps[j as int + 1]);
            }
            interp(self.waypoints[j], self.waypoints[j + 1], t)
        }
    }
}

impl TimedPath for LinearTimedPath {
    closed spec fn wf(&self) -> bool {
        &&& self.waypoints@.len() >= 1
        &&& sorted_by_time_s(self.waypoints@)
        &&& self.dt > 0
    }

    closed spec fn step(&self) -> i64 {
        self.dt
    }

    closed spec fn points(&self) -> Seq<Waypoint> {
        self.waypoints@
    }

    closed spec fn sample_at(&self, t: i64) -> StateVec {
        sample_s(self.waypoints@, t)
    }

    /// Builds the path; the step must be positive and the waypoints
    /// non-empty and sorted by time.
    fn new(points: Vec<Waypoint>, dt: i64) -> (r: Result<Self, ConfigError>)
        ensures
            r is Ok <==> dt > 0 && points@.len() >= 1 && sorted_by_time_s(points@),
            dt <= 0 ==> r == Err::<Self, ConfigError>(ConfigError::NonPositiveStep),
            dt > 0 && points@.len() == 0 ==> r == Err::<Self, ConfigError>(ConfigError::EmptyPath),
            dt > 0 && points@.len() >= 1 && !sorted_by_time_s(points@) ==> r == Err::<
                Self,
                ConfigError,
            >(ConfigError::UnsortedPath),
    {
        if dt <= 0 {
            return Err(ConfigError::NonPositiveStep);
        }
        if points.len() == 0 {
            return Err(ConfigError::EmptyPath);
        }
        let n = points.len();
        let mut i: usize = 1;
        while i < n
            invariant
                dt > 0,
                n == points@.len(),
                1 <= i <= n,
                forall|p: int, q: int| 0 <= p < q < i ==> points@[p].time <= points@[q].time,
            decreases n - i,
        {
            if points[i - 1].time > points[i].time {
                assert(!sorted_by_time_s(points@));
                return Err(ConfigError::UnsortedPath);
            }
            proof {
                assert forall|p: int, q: int| 0 <= p < q < i + 1 implies points@[p].time
                    <= points@[q].time by {
                    lemma_sorted_prefix_extend(points@, i as int);
                }
            }
            i = i + 1;
        }
        Ok(LinearTimedPath { dt, waypoints: points })
    }

    fn horizon_states(&self, t: i64, n: usize) -> (r: Vec<StateVec>)
        ensures
            r@.len() == n,
            forall|i: int|
                0 <= i < n ==> r@[i] == self.sample_at(horizon_time_s(t, self.step(), i)),
    {
        let mut r: Vec<StateVec> = Vec::new();
        let mut i: usize = 0;
        while i < n
            invariant
                self.wf(),
                n <= 0x1000_0000,
                i <= n,
                r@.len() == i,
                forall|k: int|
                    0 <= k < i ==> r@[k] == self.sample_at(horizon_time_s(t, self.step(), k)),
            decreases n - i,
        {
            let ti = fx_add(t, sat_mul(i as i64, self.dt));
            let s = self.sample(ti);
            r.push(s);
            i = i + 1;
        }
        r
    }
}

/// A piecewise-linear path is exactly its clamped interpolant: its
/// samples are `sample_s` over its waypoints, and it is well formed
/// precisely when it was built from a non-empty, time-sorted waypoint
/// sequence with a positive step.
pub proof fn lemma_linear_path_model(p: LinearTimedPath, t: i64)
    ensures
        p.sample_at(t) == sample_s(p.points(), t),
        p.wf() <==> (p.points().len() >= 1 && sorted_by_time_s(p.points()) && p.step() > 0),
{
}

/// Horizon sampling times never decrease with the index when the step
/// is non-negative.
pub proof fn lemma_horizon_time_mono(t: i64, dt: i64, i: int, j: int)
    requires
        0 <= i <= j <= 0x1000_0000,
        dt >= 0,
    ensures
        horizon_time_s(t, dt, i) <= horizon_time_s(t, dt, j),
{
    vstd::arithmetic::mul::lemma_mul_inequality(i, j, dt as int);
    assert(sat_mul_s(i as i64, dt) <= sat_mul_s(j as i64, dt));
}

/// Clamping over a whole horizon of a piecewise-linear path: when the
/// last sampling time falls at or before the first waypoint, every
/// sample of the horizon is the first pose; when already the first
/// sampling time falls strictly after the last waypoint, every sample
/// is the last pose.
pub proof fn lemma_horizon_states_clamped(p: LinearTimedPath, t: i64, n: int, i: int)
    requires
        p.wf(),
        0 <= i < n <= 0x1000_0000,
    ensures
        horizon_time_s(t, p.step(), n - 1) <= p.points()[0].time ==> p.sample_at(
            horizon_time_s(t, p.step(), i),
        ) == p.points()[0].pose,
        horizon_time_s(t, p.step(), 0) > p.points().last().time ==> p.sample_at(
            horizon_time_s(t, p.step(), i),
        ) == p.points().last().pose,
{
    let ti = horizon_time_s(t, p.step(), i);
    lemma_linear_path_model(p, ti);
    lemma_horizon_time_mono(t, p.step(), i, n - 1);
    lemma_horizon_time_mono(t, p.step(), 0, i);
    if ti <= p.points()[0].time {
        lemma_sample_clamped_low(p.points(), ti);
    }
    if ti > p.points().last().time {
        lemma_sample_clamped_high(p.points(), ti);
    }
}

/// In a sequence sorted up to `i` whose step at `i` does not decrease,
/// the sort extends one place.
proof fn lemma_sorted_prefix_extend(wps: Seq<Waypoint>, i: int)
    requires
        1 <= i < wps.len(),
        forall|p: int, q: int| 0 <= p < q < i ==> wps[p].time <= wps[q].time,
        wps[i - 1].time <= wps[i].time,
    ensures
        forall|p: int, q: int| 0 <= p < q < i + 1 ==> wps[p].time <= wps[q].time,
{
    assert forall|p: int, q: int| 0 <= p < q < i + 1 implies wps[p].time <= wps[q].time by {
        if q == i && p < i - 1 {
            assert(wps[p].time <= wps[i - 1].time);
        }
    }
}

/// The largest horizon step count this build supports: a memory cap,
/// since one cycle assembles matrices quadratic in the step count.
/// Configurations beyond it are rejected at construction time.
pub const MAX_HORIZON: usize = 4096;

/// `A` raised to the `k`-th fixed-point power, by repeated
/// left-multiplication of the identity.
pub open spec fn a_pow_s(a: Seq<Seq<i64>>, k: nat) -> Seq<Seq<i64>>
    decreases k,
{
    if k == 0 {
        identity_s(3)
    } else {
        mul_s(a_pow_s(a, (k - 1) as nat), a)
    }
}

/// `A^k B`: the influence of an input `k` steps in the past.
pub open spec fn pow_ab_s(a: Seq<Seq<i64>>, b: Seq<Seq<i64>>, k: nat) -> Seq<Seq<i64>> {
    mul_s(a_pow_s(a, k), b)
}

/// The free-response prediction columns: `A^(i+1) x` for each horizon
/// index `i`.
pub open spec fn pred_cols_s(a: Seq<Seq<i64>>, x: StateVec, n: nat) -> Seq<Seq<Seq<i64>>> {
    Seq::new(n, |i: int| mul_s(a_pow_s(a, (i + 1) as nat), x.col_spec()))
}

/// The block lower-triangular control-influence matrix `R`: block
/// `(i, j)` is `A^(i-j) B` for `j <= i`, zero above the block diagonal.
pub open spec fn r_grid_s(a: Seq<Seq<i64>>, b: Seq<Seq<i64>>, n: nat) -> Seq<Seq<i64>> {
    Seq::new(
        3 * n,
        |r: int|
            Seq::new(
                2 * n,
                |c: int|
                    if c / 2 <= r / 3 {
                        pow_ab_s(a, b, (r / 3 - c / 2) as nat)[r % 3][c % 2]
                    } else {
                        0i64
                    },
            ),
    )
}

/// The quadratic cost matrix `P = R^T Q R`.
pub open spec fn p_grid_s(qh: Seq<Seq<i64>>, a: Seq<Seq<i64>>, b: Seq<Seq<i64>>, n: nat) -> Seq<
    Seq<i64>,
> {
    mul_s(mul_s(transpose_s(r_grid_s(a, b, n)), qh), r_grid_s(a, b, n))
}

/// States as single-column grids.
pub open spec fn states_cols_s(ss: Seq<StateVec>) -> Seq<Seq<Seq<i64>>> {
    ss.map_values(|s: StateVec| s.col_spec())
}

/// The columns of a grid, each as a single-column grid.
pub open spec fn grid_cols_s(g: Seq<Seq<i64>>) -> Seq<Seq<Seq<i64>>> {
    Seq::new(g[0].len(), |c: int| Seq::new(g.len(), |r: int| seq![g[r][c]]))
}

/// The linear cost term `q = (predicted - target)-flattened^T (Q R)`,
/// as a single-row grid.
pub open spec fn q_row_grid_s(
    qh: Seq<Seq<i64>>,
    a: Seq<Seq<i64>>,
    b: Seq<Seq<i64>>,
    targets: Seq<StateVec>,
    x: StateVec,
    n: nat,
) -> Seq<Seq<i64>> {
    let pred = hstack_s(pred_cols_s(a, x, n));
    let tg = hstack_s(states_cols_s(targets));
    let diff = sub_s(pred, tg);
    mul_s(transpose_s(vstack_s(grid_cols_s(diff))), mul_s(qh, r_grid_s(a, b, n)))
}

/// The `i`-th per-step weight block: `Q` scaled by the growth factor
/// `i` times over.
pub open spec fn q_block_s(q: Seq<Seq<i64>>, g: i64, i: nat) -> Seq<Seq<i64>>
    decreases i,
{
    if i == 0 {
        q
    } else {
        scale_s(q_block_s(q, g, (i - 1) as nat), g)
    }
}

/// The horizon-stacked weight matrix: the per-step blocks along the
/// diagonal, each scaled by the growth factor once more than the last.
pub open spec fn q_horizon_s(q: Seq<Seq<i64>>, g: i64, n: nat) -> Seq<Seq<i64>> {
    block_diag_s(Seq::new(n, |i: int| q_block_s(q, g, i as nat)))
}

/// In the horizon-stacked weight matrix, diagonal block `i` is the
/// single-step weight scaled by the growth factor `i` times over, and
/// everything in its block row off the diagonal is zero.
pub proof fn lemma_q_horizon_block(
    q: Seq<Seq<i64>>,
    g: i64,
    n: nat,
    i: int,
    r: int,
    c: int,
)
    requires
        is_grid(q),
        q.len() == 3,
        q[0].len() == 3,
        0 <= i < n,
        0 <= r < 3,
        0 <= c < 3 * n,
    ensures
        3 * i <= c < 3 * i + 3 ==> q_horizon_s(q, g, n)[3 * i + r][c] == q_block_s(
            q,
            g,
            i as nat,
        )[r][c - 3 * i],
        !(3 * i <= c < 3 * i + 3) ==> q_horizon_s(q, g, n)[3 * i + r][c] == 0i64,
{
    let blocks = Seq::new(n, |k: int| q_block_s(q, g, k as nat));
    assert forall|k: int| 0 <= k < n implies is_grid(#[trigger] blocks[k]) && blocks[k].len() == 3
        && blocks[k][0].len() == 3 by {
        lemma_q_block_dims(q, g, k as nat);
    }
    lemma_rows_before_uniform(blocks, 3, i);
    lemma_cols_before_uniform(blocks, 3, i);
    lemma_rows_before_uniform(blocks, 3, i + 1);
    lemma_cols_before_uniform(blocks, 3, i + 1);
    lemma_cols_before_uniform(blocks, 3, n as int);
    assert(i * 3 == 3 * i) by (nonlinear_arith);
    assert((i + 1) * 3 == 3 * i + 3) by (nonlinear_arith);
    assert((n as int) * 3 == 3 * n) by (nonlinear_arith);
    if 3 * i <= c < 3 * i + 3 {
        crate::math::lemma_block_diag_block(blocks, i, r, c - 3 * i);
    } else {
        crate::math::lemma_block_diag_zero(blocks, i, 3 * i + r, c);
    }
}

/// The target poses over a horizon of `n` samples starting at `t`.
pub open spec fn horizon_targets_s<Path: TimedPath>(p: Path, t: i64, n: nat) -> Seq<StateVec> {
    Seq::new(n, |i: int| p.sample_at(horizon_time_s(t, p.step(), i)))
}

/// The assembled box-constrained quadratic program, as plain
/// fixed-point data: minimize `(1/2) u^T P u + q^T u` subject to
/// `lower <= constraints u <= upper`.
pub struct QpProblem {
    /// The upper triangle of `P`, in sparse form.
    pub p_upper: CscMatrix,
    /// The linear cost term.
    pub q: Vec<i64>,
    /// The constraint matrix: the identity, for box constraints.
    pub constraints: CscMatrix,
    /// The stacked lower input bounds.
    pub lower: Vec<i64>,
    /// The stacked upper input bounds.
    pub upper: Vec<i64>,
}

/// A backend that answers an assembled QP with a stacked input
/// sequence, or with nothing when it fails or finds the problem
/// infeasible. Nothing is assumed of the answer: the controller
/// validates whatever comes back.
pub trait QpSolver {
    /// Attempts to solve the problem.
    fn solve(&mut self, prob: &QpProblem) -> Option<Vec<i64>>;
}

/// A receding-horizon controller over a timed path and a linearizable
/// motion model.
pub trait TimedPathController<Path: TimedPath, Sys: LinearSystem, S: QpSolver>: Sized {
    /// The controller was built from an accepted configuration.
    spec fn wf(&self) -> bool;

    /// The componentwise lower input bound.
    spec fn min_input(&self) -> InputVec;

    /// The componentwise upper input bound.
    spec fn max_input(&self) -> InputVec;

    /// The input applied by the previous cycle; the linearization
    /// point of the next one.
    spec fn previous_input(&self) -> InputVec;

    /// Whether the last cycle fell back to the zero input because the
    /// solver failed.
    spec fn solve_failed(&self) -> bool;

    /// Builds the controller, rejecting a bad configuration.
    fn new(horizon: i64, dt: i64, min_input: InputVec, max_input: InputVec, q: ConstraintMat) -> (r:
        Result<Self, ConfigError>)
        requires
            q.wf(),
        ensures
            r matches Ok(c) ==> c.wf() && c.min_input() == min_input && c.max_input() == max_input
                && c.previous_input() == InputVec::zero_spec(),
    ;

    /// One receding-horizon cycle: samples the path over the horizon,
    /// linearizes about the current state and the previously applied
    /// input, assembles and solves the QP, and returns the first input
    /// of the optimal sequence, or the zero fail-safe input when the
    /// solver fails.
    fn control(&mut self, path: &Path, x: StateVec, t: i64, solver: &mut S) -> (u: InputVec)
        requires
            old(self).wf(),
            path.wf(),
        ensures
            final(self).wf(),
            final(self).min_input() == old(self).min_input(),
            final(self).max_input() == old(self).max_input(),
            final(self).previous_input() == u,
            !final(self).solve_failed() ==> final(self).min_input().v <= u.v <= final(self).max_input().v && final(self).min_input().omega <= u.omega <= final(self).max_input().omega,
            final(self).solve_failed() ==> u == InputVec::zero_spec(),
    ;
}

/// The linear MPC controller: constant horizon-stacked matrices built
/// once, one QP assembled and solved per control cycle.
pub struct MpcController<Path: TimedPath, Sys: LinearSystem, S: QpSolver> {
    dt: i64,
    horizon_count: usize,
    q_horizon: Matrix,
    min_input: InputVec,
    max_input: InputVec,
    min_input_over_horizon: Matrix,
    max_input_over_horizon: Matrix,
    input_constraints: Matrix,
    previous_input: InputVec,
    failed: bool,
    phantoms: PhantomData<(Path, Sys, S)>,
}

impl<Path: TimedPath, Sys: LinearSystem, S: QpSolver> MpcController<Path, Sys, S> {
    /// The integration and sampling step.
    pub closed spec fn step(&self) -> i64 {
        self.dt
    }

    /// The number of horizon steps.
    pub closed spec fn horizon_len(&self) -> nat {
        self.horizon_count as nat
    }

    /// View of the horizon-stacked weight matrix.
    pub closed spec fn q_grid(&self) -> Seq<Seq<i64>> {
        self.q_horizon@
    }

    /// View of the stacked lower bound column.
    pub closed spec fn lower_grid(&self) -> Seq<Seq<i64>> {
        self.min_input_over_horizon@
    }

    /// View of the stacked upper bound column.
    pub closed spec fn upper_grid(&self) -> Seq<Seq<i64>> {
        self.max_input_over_horizon@
    }

    /// View of the constraint matrix.
    pub closed spec fn constraints_grid(&self) -> Seq<Seq<i64>> {
        self.input_constraints@
    }

    /// The structural part of well-formedness: every stored matrix has
    /// the dimensions the horizon demands.
    pub closed spec fn wf_spec(&self) -> bool {
        &&& self.dt > 0
        &&& 1 <= self.horizon_count <= MAX_HORIZON
        &&& self.q_horizon.wf()
        &&& self.q_horizon@.len() == 3 * self.horizon_count
        &&& self.q_horizon@[0].len() == 3 * self.horizon_count
        &&& self.min_input_over_horizon.wf()
        &&& self.min_input_over_horizon@.len() == 2 * self.horizon_count
        &&& self.min_input_over_horizon@[0].len() == 1
        &&& self.max_input_over_horizon.wf()
        &&& self.max_input_over_horizon@.len() == 2 * self.horizon_count
        &&& self.max_input_over_horizon@[0].len() == 1
        &&& self.input_constraints.wf()
        &&& self.input_constraints@.len() == 2 * self.horizon_count
        &&& self.input_constraints@[0].len() == 2 * self.horizon_count
        &&& self.min_input.v <= self.max_input.v
        &&& self.min_input.omega <= self.max_input.omega
    }

    /// Builds the controller with an explicit per-step weight growth
    /// factor; the trait constructor uses a factor of `2.0`.
    pub fn with_growth(
        horizon: i64,
        dt: i64,
        min_input: InputVec,
        max_input: InputVec,
        q: ConstraintMat,
        growth: i64,
    ) -> (r: Result<Self, ConfigError>)
        requires
            q.wf(),
        ensures
            r is Ok <==> dt > 0 && horizon > 0 && 1 <= tdiv_s(horizon as int, dt as int)
                <= MAX_HORIZON && growth > 0 && min_input.v <= max_input.v && min_input.omega
                <= max_input.omega && q@.len() == 3 && q@[0].len() == 3,
            dt <= 0 ==> r == Err::<Self, ConfigError>(ConfigError::NonPositiveStep),
            dt > 0 && horizon <= 0 ==> r == Err::<Self, ConfigError>(ConfigError::NonPositiveHorizon),
            dt > 0 && horizon > 0 && tdiv_s(horizon as int, dt as int) < 1 ==> r == Err::<
                Self,
                ConfigError,
            >(ConfigError::HorizonTooShort),
            dt > 0 && horizon > 0 && tdiv_s(horizon as int, dt as int) > MAX_HORIZON ==> r == Err::<
                Self,
                ConfigError,
            >(ConfigError::HorizonTooLong),
            dt > 0 && horizon > 0 && 1 <= tdiv_s(horizon as int, dt as int) <= MAX_HORIZON && growth
                <= 0 ==> r == Err::<Self, ConfigError>(ConfigError::NonPositiveGrowth),
            dt > 0 && horizon > 0 && 1 <= tdiv_s(horizon as int, dt as int) <= MAX_HORIZON && growth
                > 0 && !(min_input.v <= max_input.v && min_input.omega <= max_input.omega) ==> r
                == Err::<Self, ConfigError>(ConfigError::MalformedBounds),
            dt > 0 && horizon > 0 && 1 <= tdiv_s(horizon as int, dt as int) <= MAX_HORIZON && growth
                > 0 && min_input.v <= max_input.v && min_input.omega <= max_input.omega && !(
            q@.len() == 3 && q@[0].len() == 3) ==> r == Err::<Self, ConfigError>(
                ConfigError::MalformedWeight,
            ),
            r matches Ok(c) ==> {
                &&& c.wf_spec()
                &&& c.step() == dt
                &&& c.horizon_len() == tdiv_s(horizon as int, dt as int)
                &&& c.q_grid() == q_horizon_s(q@, growth, c.horizon_len())
                &&& c.lower_grid() == tile_s(min_input.col_spec(), c.horizon_len() as int, 1)
                &&& c.upper_grid() == tile_s(max_input.col_spec(), c.horizon_len() as int, 1)
                &&& c.constraints_grid() == identity_s(2 * c.horizon_len() as int)
                &&& c.min_input() == min_input
                &&& c.max_input() == max_input
                &&& c.previous_input() == InputVec::zero_spec()
                &&& !c.solve_failed()
            },
    {
        if dt <= 0 {
            return Err(ConfigError::NonPositiveStep);
        }
        if horizon <= 0 {
            return Err(ConfigError::NonPositiveHorizon);
        }
        let hc_wide = tdiv64(horizon, dt);
        if hc_wide < 1 {
            return Err(ConfigError::HorizonTooShort);
        }
        if hc_wide > MAX_HORIZON as i64 {
            return Err(ConfigError::HorizonTooLong);
        }
        let hc: usize = hc_wide as usize;
        if growth <= 0 {
            return Err(ConfigError::NonPositiveGrowth);
        }
        if !(min_input.v <= max_input.v && min_input.omega <= max_input.omega) {
            return Err(ConfigError::MalformedBounds);
        }
        if !(q.nrows() == 3 && q.ncols() == 3) {
            return Err(ConfigError::MalformedWeight);
        }
        let mut blocks: Vec<Matrix> = Vec::new();
        let mut cur = q.clone();
        let mut i: usize = 0;
        while i < hc
            invariant
                q.wf(),
                q@.len() == 3,
                q@[0].len() == 3,
                i <= hc,
                cur.wf(),
                cur@ == q_block_s(q@, growth, i as nat),
                blocks@.len() == i,
                forall|k: int| 0 <= k < i ==> (#[trigger] blocks@[k]).wf(),
                forall|k: int| 0 <= k < i ==> (#[trigger] blocks@[k])@ == q_block_s(q@, growth, k as nat),
            decreases hc - i,
        {
            let b = cur.clone();
            blocks.push(b);
            cur = cur.scale(growth);
            i = i + 1;
            proof {
                assert(cur@ == q_block_s(q@, growth, i as nat));
            }
        }
        proof {
            q.lemma_wf_grid();
            assert forall|k: int| 0 <= k < hc implies is_grid(#[trigger] views_s(blocks@)[k])
                && views_s(blocks@)[k].len() == 3 && views_s(blocks@)[k][0].len() == 3 by {
                blocks@[k].lemma_wf_grid();
                lemma_q_block_dims(q@, growth, k as nat);
            }
            lemma_rows_before_uniform(views_s(blocks@), 3, hc as int);
            lemma_cols_before_uniform(views_s(blocks@), 3, hc as int);
            lemma_horizon_products_fit(hc as int);
        }
        let q_horizon = diagonal_block_matrix(&blocks);
        proof {
            assert(views_s(blocks@) =~= Seq::new(hc as nat, |i: int| q_block_s(q@, growth, i as nat)));
            q_horizon.lemma_wf_grid();
            crate::math::lemma_block_diag_dims(views_s(blocks@));
            assert(q_horizon@.len() == 3 * hc);
        }
        let min_col = min_input.to_column();
        let max_col = max_input.to_column();
        proof {
            assert((hc * 2) * (1 * 1) <= usize::MAX && hc * 2 >= 1) by (nonlinear_arith)
                requires
                    1 <= hc <= 4096,
            ;
        }
        let min_tiled = tile(&min_col, hc, 1);
        let max_tiled = tile(&max_col, hc, 1);
        proof {
            min_tiled.lemma_wf_grid();
            max_tiled.lemma_wf_grid();
        }
        let input_constraints = identity(2 * hc);
        let c = MpcController {
            dt,
            horizon_count: hc,
            q_horizon,
            min_input,
            max_input,
            min_input_over_horizon: min_tiled,
            max_input_over_horizon: max_tiled,
            input_constraints,
            previous_input: InputVec::zeros(),
            failed: false,
            phantoms: PhantomData,
        };
        Ok(c)
    }
}

/// Every per-step weight block keeps the 3 by 3 shape of `Q`.
proof fn lemma_q_block_dims(q: Seq<Seq<i64>>, g: i64, i: nat)
    requires
        is_grid(q),
        q.len() == 3,
        q[0].len() == 3,
    ensures
        is_grid(q_block_s(q, g, i)),
        q_block_s(q, g, i).len() == 3,
        q_block_s(q, g, i)[0].len() == 3,
    decreases i,
{
    if i > 0 {
        lemma_q_block_dims(q, g, (i - 1) as nat);
    }
}


/// The reply of a solver as a mathematical value.
pub open spec fn reply_view_s(r: Option<Vec<i64>>) -> Option<Seq<i64>> {
    match r {
        Some(v) => Some(v@),
        None => None,
    }
}

/// The input extracted from a solver reply: the first input block of a
/// well-dimensioned answer, clamped into the bounds; otherwise the
/// zero fail-safe input.
pub open spec fn accept_input_s(min: InputVec, max: InputVec, n: nat, reply: Option<Seq<i64>>) -> InputVec {
    match reply {
        Some(v) => if v.len() == 2 * n {
            InputVec {
                v: clamp_s(v[0], min.v, max.v),
                omega: clamp_s(v[1], min.omega, max.omega),
            }
        } else {
            InputVec::zero_spec()
        },
        None => InputVec::zero_spec(),
    }
}

/// Whether a solver reply counts as a failure: no answer, or an answer
/// of the wrong dimension.
pub open spec fn accept_failed_s(n: nat, reply: Option<Seq<i64>>) -> bool {
    !(reply matches Some(v) && v.len() == 2 * n)
}

impl<Path: TimedPath, Sys: LinearSystem, S: QpSolver> MpcController<Path, Sys, S> {
    /// Assembles the horizon QP about the current state `x` at time
    /// `t`: cost `P = R^T Q R` and `q` from the tracking error of the
    /// free response, box constraints from the stacked input bounds.
    pub fn prepare_qp(&self, path: &Path, x: StateVec, t: i64) -> (p: QpProblem)
        requires
            self.wf_spec(),
            path.wf(),
        ensures
            ({
                let sys = <Sys as System>::make_spec(x, self.previous_input(), self.step());
                let n = self.horizon_len();
                &&& csc_matches(p.p_upper, upper_tri_s(p_grid_s(self.q_grid(), sys.a_mat(), sys.b_mat(), n)))
                &&& p.q@ == q_row_grid_s(
                    self.q_grid(),
                    sys.a_mat(),
                    sys.b_mat(),
                    horizon_targets_s(*path, t, n),
                    x,
                    n,
                )[0]
                &&& csc_matches(p.constraints, self.constraints_grid())
                &&& p.lower@ == col_s(self.lower_grid(), 0)
                &&& p.upper@ == col_s(self.upper_grid(), 0)
            }),
    {
        let n = self.horizon_count;
        let targets = path.horizon_states(t, n);
        let sys = Sys::new(x, self.previous_input, self.dt);
        let (a_m, b_m) = sys.get_system();
        let ghost ag = a_m@;
        let ghost bg = b_m@;
        let x_col = x.to_column();
        let mut a_exp = identity(3);
        let mut pred_cols: Vec<Matrix> = Vec::new();
        let mut pabs: Vec<Matrix> = Vec::new();
        let mut k: usize = 0;
        proof {
            assert(a_exp@ == a_pow_s(ag, 0));
        }
        while k < n
            invariant
                a_m.wf(),
                b_m.wf(),
                ag == a_m@,
                bg == b_m@,
                is_grid(ag),
                is_grid(bg),
                ag.len() == 3,
                ag[0].len() == 3,
                bg.len() == 3,
                bg[0].len() == 2,
                x_col.wf(),
                x_col@ == x.col_spec(),
                k <= n,
                1 <= n <= MAX_HORIZON,
                a_exp.wf(),
                is_grid(a_exp@),
                a_exp@ == a_pow_s(ag, k as nat),
                a_exp@.len() == 3,
                a_exp@[0].len() == 3,
                pabs@.len() == k,
                pred_cols@.len() == k,
                forall|i: int|
                    0 <= i < k ==> (#[trigger] pabs@[i]).wf() && is_grid(pabs@[i]@) && pabs@[i]@
                        == pow_ab_s(ag, bg, i as nat) && pabs@[i]@.len() == 3 && pabs@[i]@[0].len()
                        == 2,
                forall|i: int|
                    0 <= i < k ==> (#[trigger] pred_cols@[i]).wf() && is_grid(pred_cols@[i]@)
                        && pred_cols@[i]@ == mul_s(a_pow_s(ag, (i + 1) as nat), x.col_spec())
                        && pred_cols@[i]@.len() == 3 && pred_cols@[i]@[0].len() == 1,
            decreases n - k,
        {
            let pab = a_exp.matmul(&b_m);
            pabs.push(pab);
            let a_next = a_exp.matmul(&a_m);
            let pc = a_next.matmul(&x_col);
            pred_cols.push(pc);
            a_exp = a_next;
            k = k + 1;
            proof {
                assert(a_exp@ == a_pow_s(ag, k as nat));
            }
        }
        proof {
            assert(x.col_spec().len() == 3 && x.col_spec()[0].len() == 1);
            assert forall|i: int| 0 <= i < n implies is_grid(#[trigger] views_s(pred_cols@)[i])
                && views_s(pred_cols@)[i].len() == 3 && views_s(pred_cols@)[i][0].len() == 1 by {
                assert(views_s(pred_cols@)[i] == pred_cols@[i]@);
            }
            lemma_cols_before_uniform(views_s(pred_cols@), 1, n as int);
        }
        let predicted = horizontal_stack(&pred_cols);
        proof {
            assert(views_s(pred_cols@) =~= pred_cols_s(ag, x, n as nat));
            predicted.lemma_wf_grid();
        }
        let mut target_cols: Vec<Matrix> = Vec::new();
        let mut i: usize = 0;
        while i < n
            invariant
                i <= n,
                1 <= n <= MAX_HORIZON,
                targets@.len() == n,
                target_cols@.len() == i,
                forall|j: int|
                    0 <= j < i ==> (#[trigger] target_cols@[j]).wf() && is_grid(target_cols@[j]@)
                        && target_cols@[j]@ == targets@[j].col_spec() && target_cols@[j]@.len() == 3
                        && target_cols@[j]@[0].len() == 1,
            decreases n - i,
        {
            let tc = targets[i].to_column();
            target_cols.push(tc);
            i = i + 1;
        }
        proof {
            assert forall|j: int| 0 <= j < n implies is_grid(#[trigger] views_s(target_cols@)[j])
                && views_s(target_cols@)[j].len() == 3 && views_s(target_cols@)[j][0].len() == 1 by {
                assert(views_s(target_cols@)[j] == target_cols@[j]@);
            }
            lemma_cols_before_uniform(views_s(target_cols@), 1, n as int);
        }
        let target_grid = horizontal_stack(&target_cols);
        proof {
            assert(views_s(target_cols@) =~= states_cols_s(
                horizon_targets_s(*path, t, n as nat),
            ));
            target_grid.lemma_wf_grid();
            lemma_hstack_grid_dims(views_s(target_cols@));
            lemma_hstack_grid_dims(views_s(pred_cols@));
        }
        let r_mat = self.build_r(&pabs, Ghost(ag), Ghost(bg));
        proof {
            r_mat.lemma_wf_grid();
        }
        let rt = r_mat.transpose();
        proof {
            rt.lemma_wf_grid();
            assert(rt@.len() == 2 * n && rt@[0].len() == 3 * n);
            lemma_horizon_products_fit(n as int);
        }
        let rtq = rt.matmul(&self.q_horizon);
        proof {
            rtq.lemma_wf_grid();
            assert(rtq@.len() == 2 * n && rtq@[0].len() == 3 * n);
        }
        let p_mat = rtq.matmul(&r_mat);
        let p_up = p_mat.upper_triangle();
        let p_csc = into_sparse(&p_up);
        let goal_diff = predicted.mat_sub(&target_grid);
        proof {
            goal_diff.lemma_wf_grid();
            assert(goal_diff@.len() == 3 && goal_diff@[0].len() == n);
        }
        let mut diff_cols: Vec<Matrix> = Vec::new();
        let mut c: usize = 0;
        while c < n
            invariant
                goal_diff.wf(),
                is_grid(goal_diff@),
                goal_diff@.len() == 3,
                goal_diff@[0].len() == n,
                c <= n,
                1 <= n <= MAX_HORIZON,
                diff_cols@.len() == c,
                forall|j: int|
                    0 <= j < c ==> (#[trigger] diff_cols@[j]).wf() && is_grid(diff_cols@[j]@)
                        && diff_cols@[j]@ == grid_cols_s(goal_diff@)[j] && diff_cols@[j]@.len() == 3
                        && diff_cols@[j]@[0].len() == 1,
            decreases n - c,
        {
            let dc = goal_diff.column(c);
            proof {
                dc.lemma_wf_grid();
                assert(dc@ =~~= grid_cols_s(goal_diff@)[c as int]);
            }
            diff_cols.push(dc);
            c = c + 1;
        }
        proof {
            assert forall|j: int| 0 <= j < n implies is_grid(#[trigger] views_s(diff_cols@)[j])
                && views_s(diff_cols@)[j].len() == 3 && views_s(diff_cols@)[j][0].len() == 1 by {
                assert(views_s(diff_cols@)[j] == diff_cols@[j]@);
            }
            lemma_rows_before_uniform(views_s(diff_cols@), 3, n as int);
            assert(views_s(diff_cols@) =~= grid_cols_s(goal_diff@));
        }
        let flat = vertical_stack(&diff_cols);
        proof {
            flat.lemma_wf_grid();
            lemma_vstack_grid_dims(views_s(diff_cols@));
        }
        let flat_t = flat.transpose();
        proof {
            flat_t.lemma_wf_grid();
            assert(flat_t@.len() == 1 && flat_t@[0].len() == 3 * n);
        }
        let qr = self.q_horizon.matmul(&r_mat);
        proof {
            qr.lemma_wf_grid();
            assert(qr@.len() == 3 * n && qr@[0].len() == 2 * n);
        }
        let qv = flat_t.matmul(&qr);
        proof {
            qv.lemma_wf_grid();
        }
        let q_vec = qv.as_row();
        let lower = self.min_input_over_horizon.as_col();
        let upper = self.max_input_over_horizon.as_col();
        let constraints = into_sparse(&self.input_constraints);
        QpProblem { p_upper: p_csc, q: q_vec, constraints, lower, upper }
    }

    /// Builds the control-influence matrix `R` from the precomputed
    /// blocks `A^k B`.
    fn build_r(&self, pabs: &Vec<Matrix>, a: Ghost<Seq<Seq<i64>>>, b: Ghost<Seq<Seq<i64>>>) -> (m:
        Matrix)
        requires
            self.wf_spec(),
            pabs@.len() == self.horizon_len(),
            forall|i: int|
                0 <= i < pabs@.len() ==> (#[trigger] pabs@[i]).wf() && is_grid(pabs@[i]@)
                    && pabs@[i]@ == pow_ab_s(a@, b@, i as nat) && pabs@[i]@.len() == 3
                    && pabs@[i]@[0].len() == 2,
        ensures
            m.wf(),
            is_grid(m@),
            m@ == r_grid_s(a@, b@, self.horizon_len()),
            m@.len() == 3 * self.horizon_len(),
            m@[0].len() == 2 * self.horizon_len(),
    {
        let n = self.horizon_count;
        let rows = 3 * n;
        let cols = 2 * n;
        let mut entries: Vec<Vec<i64>> = Vec::new();
        let mut r: usize = 0;
        while r < rows
            invariant
                1 <= n <= MAX_HORIZON,
                rows == 3 * n,
                cols == 2 * n,
                pabs@.len() == n,
                forall|i: int|
                    0 <= i < pabs@.len() ==> (#[trigger] pabs@[i]).wf() && is_grid(pabs@[i]@)
                        && pabs@[i]@ == pow_ab_s(a@, b@, i as nat) && pabs@[i]@.len() == 3
                        && pabs@[i]@[0].len() == 2,
                r <= rows,
                entries@.len() == r,
                forall|rr: int|
                    0 <= rr < r ==> (#[trigger] entries@[rr])@ == r_grid_s(a@, b@, n as nat)[rr],
            decreases rows - r,
        {
            let mut row: Vec<i64> = Vec::new();
            let mut c: usize = 0;
            while c < cols
                invariant
                    1 <= n <= MAX_HORIZON,
                    rows == 3 * n,
                    cols == 2 * n,
                    r < rows,
                    pabs@.len() == n,
                    forall|i: int|
                        0 <= i < pabs@.len() ==> (#[trigger] pabs@[i]).wf() && is_grid(pabs@[i]@)
                            && pabs@[i]@ == pow_ab_s(a@, b@, i as nat) && pabs@[i]@.len() == 3
                            && pabs@[i]@[0].len() == 2,
                    c <= cols,
                    row@.len() == c,
                    forall|cc: int|
                        0 <= cc < c ==> #[trigger] row@[cc] == r_grid_s(a@, b@, n as nat)[r as int][cc],
                decreases cols - c,
            {
                proof {
                    vstd::arithmetic::div_mod::lemma_fundamental_div_mod(r as int, 3);
                    vstd::arithmetic::div_mod::lemma_mod_bound(r as int, 3);
                    vstd::arithmetic::div_mod::lemma_fundamental_div_mod(c as int, 2);
                    vstd::arithmetic::div_mod::lemma_mod_bound(c as int, 2);
                }
                let ir = r / 3;
                let ic = c / 2;
                let v: i64 = if ic <= ir {
                    pabs[ir - ic].get(r % 3, c % 2)
                } else {
                    0i64
                };
                row.push(v);
                c = c + 1;
            }
            proof {
                assert(row@ =~= r_grid_s(a@, b@, n as nat)[r as int]);
            }
            entries.push(row);
            r = r + 1;
        }
        proof {
            assert(entries@[0]@.len() == cols);
            lemma_horizon_products_fit(n as int);
        }
        let m = crate::math::into_dynamic(&entries);
        proof {
            assert(m@ =~~= r_grid_s(a@, b@, self.horizon_len()));
        }
        m
    }

    /// Whether the last cycle fell back to the zero fail-safe input:
    /// the runtime counterpart of the failure flag, so that a caller
    /// can tell an intentional stop from a commanded one.
    pub fn last_solve_failed(&self) -> (b: bool)
        ensures
            b == self.solve_failed(),
    {
        self.failed
    }

    /// Validates a solver reply: a well-dimensioned answer yields its
    /// first input block clamped into the bounds; anything else yields
    /// the zero fail-safe input and raises the failure flag. Either
    /// way the result becomes the next linearization input.
    pub fn accept_solution(&mut self, reply: Option<Vec<i64>>) -> (u: InputVec)
        requires
            old(self).wf_spec(),
        ensures
            final(self).wf_spec(),
            final(self).step() == old(self).step(),
            final(self).horizon_len() == old(self).horizon_len(),
            final(self).q_grid() == old(self).q_grid(),
            final(self).lower_grid() == old(self).lower_grid(),
            final(self).upper_grid() == old(self).upper_grid(),
            final(self).constraints_grid() == old(self).constraints_grid(),
            final(self).min_input() == old(self).min_input(),
            final(self).max_input() == old(self).max_input(),
            final(self).previous_input() == u,
            u == accept_input_s(
                old(self).min_input(),
                old(self).max_input(),
                old(self).horizon_len(),
                reply_view_s(reply),
            ),
            final(self).solve_failed() == accept_failed_s(
                old(self).horizon_len(),
                reply_view_s(reply),
            ),
            !final(self).solve_failed() ==> final(self).min_input().v <= u.v <= final(self).max_input().v && final(self).min_input().omega <= u.omega <= final(self).max_input().omega,
            final(self).solve_failed() ==> u == InputVec::zero_spec(),
    {
        let u = match reply {
            Some(v) => {
                if v.len() == 2 * self.horizon_count {
                    self.failed = false;
                    InputVec {
                        v: clamp(v[0], self.min_input.v, self.max_input.v),
                        omega: clamp(v[1], self.min_input.omega, self.max_input.omega),
                    }
                } else {
                    self.failed = true;
                    InputVec::zeros()
                }
            },
            None => {
                self.failed = true;
                InputVec::zeros()
            },
        };
        self.previous_input = u;
        u
    }
}

impl<Path: TimedPath, Sys: LinearSystem, S: QpSolver> TimedPathController<
    Path,
    Sys,
    S,
> for MpcController<Path, Sys, S> {
    closed spec fn wf(&self) -> bool {
        self.wf_spec()
    }

    closed spec fn min_input(&self) -> InputVec {
        self.min_input
    }

    closed spec fn max_input(&self) -> InputVec {
        self.max_input
    }

    closed spec fn previous_input(&self) -> InputVec {
        self.previous_input
    }

    closed spec fn solve_failed(&self) -> bool {
        self.failed
    }

    /// Builds the controller with the reference weight growth factor
    /// of `2.0` per horizon step.
    fn new(horizon: i64, dt: i64, min_input: InputVec, max_input: InputVec, q: ConstraintMat) -> (r:
        Result<Self, ConfigError>)
        ensures
            r is Ok <==> dt > 0 && horizon > 0 && 1 <= tdiv_s(horizon as int, dt as int)
                <= MAX_HORIZON && min_input.v <= max_input.v && min_input.omega <= max_input.omega
                && q@.len() == 3 && q@[0].len() == 3,
            r matches Ok(c) ==> {
                &&& c.wf_spec()
                &&& c.step() == dt
                &&& c.horizon_len() == tdiv_s(horizon as int, dt as int)
                &&& c.q_grid() == q_horizon_s(q@, (2 * FX_ONE) as i64, c.horizon_len())
                &&& c.lower_grid() == tile_s(min_input.col_spec(), c.horizon_len() as int, 1)
                &&& c.upper_grid() == tile_s(max_input.col_spec(), c.horizon_len() as int, 1)
                &&& c.constraints_grid() == identity_s(2 * c.horizon_len() as int)
                &&& !c.solve_failed()
            },
    {
        Self::with_growth(horizon, dt, min_input, max_input, q, 2 * FX_ONE)
    }

    fn control(&mut self, path: &Path, x: StateVec, t: i64, solver: &mut S) -> (u: InputVec)
        ensures
            final(self).step() == old(self).step(),
            final(self).horizon_len() == old(self).horizon_len(),
            final(self).q_grid() == old(self).q_grid(),
            final(self).lower_grid() == old(self).lower_grid(),
            final(self).upper_grid() == old(self).upper_grid(),
            final(self).constraints_grid() == old(self).constraints_grid(),
    {
        let prob = self.prepare_qp(path, x, t);
        let reply = solver.solve(&prob);
        self.accept_solution(reply)
    }
}

/// A horizontal stack of uniform single-column blocks is as wide as
/// their count.
proof fn lemma_hstack_grid_dims(gs: Seq<Seq<Seq<i64>>>)
    requires
        gs.len() >= 1,
        forall|k: int| 0 <= k < gs.len() ==> is_grid(#[trigger] gs[k]),
        forall|k: int| 0 <= k < gs.len() ==> (#[trigger] gs[k]).len() == 3,
        forall|k: int| 0 <= k < gs.len() ==> (#[trigger] gs[k])[0].len() == 1,
    ensures
        is_grid(hstack_s(gs)),
        hstack_s(gs).len() == 3,
        hstack_s(gs)[0].len() == gs.len(),
{
    crate::math::lemma_hstack_dims(gs);
    lemma_cols_before_uniform(gs, 1, gs.len() as int);
    assert(gs.len() as int * 1 == gs.len() as int) by (nonlinear_arith);
}

/// A vertical stack of uniform three-row single-column blocks is three
/// times their count tall.
proof fn lemma_vstack_grid_dims(gs: Seq<Seq<Seq<i64>>>)
    requires
        gs.len() >= 1,
        forall|k: int| 0 <= k < gs.len() ==> is_grid(#[trigger] gs[k]),
        forall|k: int| 0 <= k < gs.len() ==> (#[trigger] gs[k]).len() == 3,
        forall|k: int| 0 <= k < gs.len() ==> (#[trigger] gs[k])[0].len() == 1,
    ensures
        is_grid(vstack_s(gs)),
        vstack_s(gs).len() == 3 * gs.len(),
        vstack_s(gs)[0].len() == 1,
{
    crate::math::lemma_vstack_dims(gs);
    lemma_rows_before_uniform(gs, 3, gs.len() as int);
    assert(gs.len() as int * 3 == 3 * gs.len() as int) by (nonlinear_arith);
}

/// All matrix sizes a horizon of at most `MAX_HORIZON` steps needs fit
/// comfortably in `usize`.
proof fn lemma_horizon_products_fit(n: int)
    requires
        1 <= n <= MAX_HORIZON,
    ensures
        (3 * n) * (2 * n) <= usize::MAX,
        (2 * n) * (3 * n) <= usize::MAX,
        (2 * n) * (2 * n) <= usize::MAX,
        (3 * n) * (3 * n) <= usize::MAX,
        3 * n * 1 <= usize::MAX,
        1 * (3 * n) <= usize::MAX,
{
    assert((3 * n) * (2 * n) <= 0x9000000 && (2 * n) * (3 * n) <= 0x9000000 && (2 * n) * (2 * n)
        <= 0x9000000 && (3 * n) * (3 * n) <= 0x9000000) by (nonlinear_arith)
        requires
            1 <= n <= 4096,
    ;
}

/// Two identically configured controllers, fed the same current state,
/// time, target path and solver reply, assemble the same dense QP data
/// and return the same input: the control cycle is a function of its
/// inputs, with no hidden state or randomness.
pub proof fn lemma_control_deterministic<Path: TimedPath, Sys: LinearSystem, S: QpSolver>(
    c1: MpcController<Path, Sys, S>,
    c2: MpcController<Path, Sys, S>,
    path1: Path,
    path2: Path,
    x: StateVec,
    t: i64,
    reply: Option<Seq<i64>>,
)
    requires
        c1.wf_spec(),
        c2.wf_spec(),
        c1.step() == c2.step(),
        c1.horizon_len() == c2.horizon_len(),
        c1.q_grid() == c2.q_grid(),
        c1.lower_grid() == c2.lower_grid(),
        c1.upper_grid() == c2.upper_grid(),
        c1.min_input() == c2.min_input(),
        c1.max_input() == c2.max_input(),
        c1.previous_input() == c2.previous_input(),
        path1.step() == path2.step(),
        forall|tt: i64| path1.sample_at(tt) == path2.sample_at(tt),
    ensures
        horizon_targets_s(path1, t, c1.horizon_len()) == horizon_targets_s(
            path2,
            t,
            c2.horizon_len(),
        ),
        ({
            let s1 = <Sys as System>::make_spec(x, c1.previous_input(), c1.step());
            let s2 = <Sys as System>::make_spec(x, c2.previous_input(), c2.step());
            &&& p_grid_s(c1.q_grid(), s1.a_mat(), s1.b_mat(), c1.horizon_len()) == p_grid_s(
                c2.q_grid(),
                s2.a_mat(),
                s2.b_mat(),
                c2.horizon_len(),
            )
            &&& q_row_grid_s(
                c1.q_grid(),
                s1.a_mat(),
                s1.b_mat(),
                horizon_targets_s(path1, t, c1.horizon_len()),
                x,
                c1.horizon_len(),
            ) == q_row_grid_s(
                c2.q_grid(),
                s2.a_mat(),
                s2.b_mat(),
                horizon_targets_s(path2, t, c2.horizon_len()),
                x,
                c2.horizon_len(),
            )
        }),
        accept_input_s(c1.min_input(), c1.max_input(), c1.horizon_len(), reply) == accept_input_s(
            c2.min_input(),
            c2.max_input(),
            c2.horizon_len(),
            reply,
        ),
        accept_failed_s(c1.horizon_len(), reply) == accept_failed_s(c2.horizon_len(), reply),
{
    assert(horizon_targets_s(path1, t, c1.horizon_len()) =~= horizon_targets_s(
        path2,
        t,
        c2.horizon_len(),
    ));
}


/// Clamping over a whole horizon: every sample whose time falls at or
/// before the first waypoint returns the first pose, and every sample
/// strictly after the last waypoint returns the last pose.
pub proof fn lemma_horizon_sample_clamped(wps: Seq<Waypoint>, t: i64, dt: i64, i: int)
    requires
        wps.len() >= 1,
        sorted_by_time_s(wps),
    ensures
        horizon_time_s(t, dt, i) <= wps[0].time ==> sample_s(wps, horizon_time_s(t, dt, i))
            == wps[0].pose,
        horizon_time_s(t, dt, i) > wps.last().time ==> sample_s(wps, horizon_time_s(t, dt, i))
            == wps.last().pose,
{
    let ti = horizon_time_s(t, dt, i);
    if ti <= wps[0].time {
        lemma_sample_clamped_low(wps, ti);
    }
    if ti > wps.last().time {
        lemma_sample_clamped_high(wps, ti);
    }
}


} // verus!
