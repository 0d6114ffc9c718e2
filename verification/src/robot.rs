//! Unicycle vehicle motion models: an exact forward-Euler integrator and
//! a first-order linearization about a pinned state, input and time step.
//!
//! Both work on fixed-point scalars; angles are micro-radians.

use vstd::prelude::*;

use crate::fixed::fx_add;
use crate::fixed::fx_add_s;
use crate::fixed::fx_cos;
use crate::fixed::fx_cos_s;
use crate::fixed::fx_mul;
use crate::fixed::fx_mul_s;
use crate::fixed::fx_neg;
use crate::fixed::fx_neg_s;
use crate::fixed::fx_sin;
use crate::fixed::fx_sin_s;
use crate::fixed::FX_ONE;
use crate::math::into_dynamic;
use crate::math::is_grid;
use crate::math::mul_s;
use crate::math::Matrix;

verus! {

/// Planar pose `[x, y, theta]`: position in micro-units, heading in
/// micro-radians.
#[derive(Clone, Copy, PartialEq, Eq, Structural, Debug)]
pub struct StateVec {
    /// Position along the first axis.
    pub x: i64,
    /// Position along the second axis.
    pub y: i64,
    /// Heading angle.
    pub theta: i64,
}

/// Commanded input `[v, omega]`: linear and angular velocity, in
/// micro-units per second and micro-radians per second.
#[derive(Clone, Copy, PartialEq, Eq, Structural, Debug)]
pub struct InputVec {
    /// Linear velocity.
    pub v: i64,
    /// Angular velocity.
    pub omega: i64,
}

/// The state-transition matrix `A` of a linearized model.
pub type SystemMat = Matrix;

/// The input-influence matrix `B` of a linearized model.
pub type InputMat = Matrix;

impl StateVec {
    /// A pose from its three components.
    pub fn new(x: i64, y: i64, theta: i64) -> (s: StateVec)
        ensures
            s == (StateVec { x, y, theta }),
    {
        StateVec { x, y, theta }
    }

    /// The pose as a single-column grid.
    pub open spec fn col_spec(self) -> Seq<Seq<i64>> {
        seq![seq![self.x], seq![self.y], seq![self.theta]]
    }

    /// The pose as a single-column matrix.
    pub fn to_column(&self) -> (m: Matrix)
        ensures
            m.wf(),
            is_grid(m@),
            m@ == self.col_spec(),
    {
        let mut rows: Vec<Vec<i64>> = Vec::new();
        rows.push(vec![self.x]);
        rows.push(vec![self.y]);
        rows.push(vec![self.theta]);
        proof {
            assert(rows@.len() == 3);
            assert(rows@[0]@.len() == 1);
        }
        let m = into_dynamic(&rows);
        proof {
            assert(m@ =~~= self.col_spec());
        }
        m
    }
}

impl InputVec {
    /// An input from its two components.
    pub fn new(v: i64, omega: i64) -> (u: InputVec)
        ensures
            u == (InputVec { v, omega }),
    {
        InputVec { v, omega }
    }

    /// The zero input: the fail-safe stop command.
    pub open spec fn zero_spec() -> InputVec {
        InputVec { v: 0, omega: 0 }
    }

    /// The zero input: the fail-safe stop command.
    pub fn zeros() -> (u: InputVec)
        ensures
            u == InputVec::zero_spec(),
    {
        InputVec { v: 0, omega: 0 }
    }

    /// The input as a single-column grid.
    pub open spec fn col_spec(self) -> Seq<Seq<i64>> {
        seq![seq![self.v], seq![self.omega]]
    }

    /// The input as a single-column matrix.
    pub fn to_column(&self) -> (m: Matrix)
        ensures
            m.wf(),
            is_grid(m@),
            m@ == self.col_spec(),
    {
        let mut rows: Vec<Vec<i64>> = Vec::new();
        rows.push(vec![self.v]);
        rows.push(vec![self.omega]);
        proof {
            assert(rows@.len() == 2);
            assert(rows@[0]@.len() == 1);
        }
        let m = into_dynamic(&rows);
        proof {
            assert(m@ =~~= self.col_spec());
        }
        m
    }
}

/// One exact forward-Euler step of the unicycle kinematics:
/// `x' = x + v cos(theta) dt`, `y' = y + v sin(theta) dt`,
/// `theta' = theta + omega dt`.
pub open spec fn nonlinear_tick_s(x: StateVec, u: InputVec, dt: i64) -> StateVec {
    StateVec {
        x: fx_add_s(x.x, fx_mul_s(fx_mul_s(u.v, fx_cos_s(x.theta)), dt)),
        y: fx_add_s(x.y, fx_mul_s(fx_mul_s(u.v, fx_sin_s(x.theta)), dt)),
        theta: fx_add_s(x.theta, fx_mul_s(u.omega, dt)),
    }
}

/// The state-transition matrix `A` of the first-order Taylor expansion
/// of the unicycle update about `(x, u, dt)`.
pub open spec fn a_matrix_s(x: StateVec, u: InputVec, dt: i64) -> Seq<Seq<i64>> {
    let s = fx_sin_s(x.theta);
    let c = fx_cos_s(x.theta);
    seq![
        seq![FX_ONE, 0i64, fx_mul_s(fx_mul_s(fx_neg_s(u.v), s), dt)],
        seq![0i64, FX_ONE, fx_mul_s(fx_mul_s(u.v, c), dt)],
        seq![0i64, 0i64, FX_ONE],
    ]
}

/// The input-influence matrix `B` of the first-order Taylor expansion
/// of the unicycle update about `(x, u, dt)`.
pub open spec fn b_matrix_s(x: StateVec, u: InputVec, dt: i64) -> Seq<Seq<i64>> {
    let s = fx_sin_s(x.theta);
    let c = fx_cos_s(x.theta);
    seq![
        seq![fx_mul_s(c, dt), 0i64],
        seq![fx_mul_s(s, dt), 0i64],
        seq![0i64, dt],
    ]
}

/// A vehicle motion model pinned at a state, an input and a time step.
pub trait System: Sized {
    /// The value that `new` constructs.
    spec fn make_spec(x: StateVec, u: InputVec, dt: i64) -> Self;

    /// The pinned state.
    spec fn state(&self) -> StateVec;

    /// The state that `tick` returns.
    spec fn tick_spec(&self, u: InputVec, dt: i64) -> StateVec;

    /// Pins the model at `(x, u, dt)`.
    fn new(x: StateVec, u: InputVec, dt: i64) -> (s: Self)
        ensures
            s == Self::make_spec(x, u, dt),
            s.state() == x,
    ;

    /// Advances the pinned state by one step of `dt` under input `u`.
    fn tick(&self, u: InputVec, dt: i64) -> (r: StateVec)
        ensures
            r == self.tick_spec(u, dt),
    ;
}

/// A motion model that also exposes its linearization `(A, B)`.
pub trait LinearSystem: System {
    /// View of the state-transition matrix.
    spec fn a_mat(&self) -> Seq<Seq<i64>>;

    /// View of the input-influence matrix.
    spec fn b_mat(&self) -> Seq<Seq<i64>>;

    /// The pair `(A, B)` of the linearization.
    fn get_system(&self) -> (ab: (SystemMat, InputMat))
        ensures
            ab.0.wf(),
            ab.1.wf(),
            is_grid(ab.0@),
            is_grid(ab.1@),
            ab.0@ == self.a_mat(),
            ab.1@ == self.b_mat(),
            ab.0@.len() == 3,
            ab.0@[0].len() == 3,
            ab.1@.len() == 3,
            ab.1@[0].len() == 2,
    ;
}

/// The exact nonlinear unicycle integrator; the ground truth that the
/// linear model approximates.
pub struct NonlinearUnicycleSystem {
    /// The pinned state.
    pub x: StateVec,
}

impl System for NonlinearUnicycleSystem {
    open spec fn make_spec(x: StateVec, u: InputVec, dt: i64) -> Self {
        NonlinearUnicycleSystem { x }
    }

    open spec fn state(&self) -> StateVec {
        self.x
    }

    open spec fn tick_spec(&self, u: InputVec, dt: i64) -> StateVec {
        nonlinear_tick_s(self.x, u, dt)
    }

    fn new(x: StateVec, _u: InputVec, _dt: i64) -> (s: Self) {
        NonlinearUnicycleSystem { x }
    }

    fn tick(&self, u: InputVec, dt: i64) -> (r: StateVec) {
        let c = fx_cos(self.x.theta);
        let s = fx_sin(self.x.theta);
        StateVec {
            x: fx_add(self.x.x, fx_mul(fx_mul(u.v, c), dt)),
            y: fx_add(self.x.y, fx_mul(fx_mul(u.v, s), dt)),
            theta: fx_add(self.x.theta, fx_mul(u.omega, dt)),
        }
    }
}

/// One step of the linearized model pinned at `(x, u0, dt)` under the
/// command `uc`: the affine prediction `A x + B uc` with the Taylor
/// matrices of that pinning point. The step passed to `tick` plays no
/// part: `dt` is already baked into `A` and `B`.
pub open spec fn linear_tick_s(x: StateVec, u0: InputVec, dt: i64, uc: InputVec) -> StateVec {
    let ax = mul_s(a_matrix_s(x, u0, dt), x.col_spec());
    let bu = mul_s(b_matrix_s(x, u0, dt), uc.col_spec());
    StateVec {
        x: fx_add_s(ax[0][0], bu[0][0]),
        y: fx_add_s(ax[1][0], bu[1][0]),
        theta: fx_add_s(ax[2][0], bu[2][0]),
    }
}

/// The unicycle kinematics linearized about `(x, u, dt)`: `tick`
/// computes `A x + B u` with the matrices of that expansion.
pub struct LinearUnicycleSystem {
    x: StateVec,
    u: InputVec,
    dt: i64,
}

impl System for LinearUnicycleSystem {
    closed spec fn make_spec(x: StateVec, u: InputVec, dt: i64) -> Self {
        LinearUnicycleSystem { x, u, dt }
    }

    closed spec fn state(&self) -> StateVec {
        self.x
    }

    closed spec fn tick_spec(&self, u: InputVec, dt: i64) -> StateVec {
        linear_tick_s(self.x, self.u, self.dt, u)
    }

    fn new(x: StateVec, u: InputVec, dt: i64) -> (s: Self) {
        LinearUnicycleSystem { x, u, dt }
    }

    fn tick(&self, u: InputVec, dt: i64) -> (r: StateVec) {
        let (a, b) = self.get_system();
        let ax = a.matmul(&self.x.to_column());
        let bu = b.matmul(&u.to_column());
        StateVec {
            x: fx_add(ax.get(0, 0), bu.get(0, 0)),
            y: fx_add(ax.get(1, 0), bu.get(1, 0)),
            theta: fx_add(ax.get(2, 0), bu.get(2, 0)),
        }
    }
}

impl LinearSystem for LinearUnicycleSystem {
    closed spec fn a_mat(&self) -> Seq<Seq<i64>> {
        a_matrix_s(self.x, self.u, self.dt)
    }

    closed spec fn b_mat(&self) -> Seq<Seq<i64>> {
        b_matrix_s(self.x, self.u, self.dt)
    }

    fn get_system(&self) -> (ab: (SystemMat, InputMat)) {
        let s = fx_sin(self.x.theta);
        let c = fx_cos(self.x.theta);
        let a02 = fx_mul(fx_mul(fx_neg(self.u.v), s), self.dt);
        let a12 = fx_mul(fx_mul(self.u.v, c), self.dt);
        let mut a_rows: Vec<Vec<i64>> = Vec::new();
        a_rows.push(vec![FX_ONE, 0i64, a02]);
        a_rows.push(vec![0i64, FX_ONE, a12]);
        a_rows.push(vec![0i64, 0i64, FX_ONE]);
        let a = into_dynamic(&a_rows);
        let b00 = fx_mul(c, self.dt);
        let b10 = fx_mul(s, self.dt);
        let mut b_rows: Vec<Vec<i64>> = Vec::new();
        b_rows.push(vec![b00, 0i64]);
        b_rows.push(vec![b10, 0i64]);
        b_rows.push(vec![0i64, self.dt]);
        let b = into_dynamic(&b_rows);
        proof {
            assert(a@ =~~= self.a_mat());
            assert(b@ =~~= self.b_mat());
        }
        (a, b)
    }
}


/// The linearized unicycle model is exactly the Taylor expansion of
/// spec `a_matrix_s` / `b_matrix_s`: the model pinned at `(x, u, dt)`
/// carries that state, exposes those matrices through `get_system`,
/// and its `tick` computes the affine prediction `A x + B uc` for
/// every command `uc`, whatever step is passed to `tick` itself.
pub proof fn lemma_linearization(x: StateVec, u: InputVec, dt: i64)
    ensures
        <LinearUnicycleSystem as System>::make_spec(x, u, dt).state() == x,
        <LinearUnicycleSystem as System>::make_spec(x, u, dt).a_mat() == a_matrix_s(x, u, dt),
        <LinearUnicycleSystem as System>::make_spec(x, u, dt).b_mat() == b_matrix_s(x, u, dt),
        forall|uc: InputVec, dt2: i64|
            #[trigger] <LinearUnicycleSystem as System>::make_spec(x, u, dt).tick_spec(uc, dt2)
                == linear_tick_s(x, u, dt, uc),
{
}

/// At rest the two models agree exactly: with a zero pinning input and
/// a zero command, one step of the linearized model equals one step of
/// the nonlinear model, and both hold the state unchanged.
pub proof fn lemma_models_agree_at_rest(x: StateVec, dt: i64)
    ensures
        nonlinear_tick_s(x, InputVec::zero_spec(), dt) == x,
        <LinearUnicycleSystem as System>::make_spec(x, InputVec::zero_spec(), dt).tick_spec(
            InputVec::zero_spec(),
            dt,
        ) == x,
{
    let z = InputVec::zero_spec();
    let s = fx_sin_s(x.theta);
    let c = fx_cos_s(x.theta);
    crate::fixed::lemma_fx_mul_zero(s);
    crate::fixed::lemma_fx_mul_zero(c);
    crate::fixed::lemma_fx_mul_zero(dt);
    assert(nonlinear_tick_s(x, z, dt) == x);
    let a = a_matrix_s(x, z, dt);
    let b = b_matrix_s(x, z, dt);
    assert(fx_neg_s(0i64) == 0i64);
    assert(a[0] =~= seq![FX_ONE, 0i64, 0i64]);
    assert(a[1] =~= seq![0i64, FX_ONE, 0i64]);
    assert(a[2] =~= seq![0i64, 0i64, FX_ONE]);
    let xc = x.col_spec();
    let col = crate::math::col_s(xc, 0);
    assert(col =~= seq![x.x, x.y, x.theta]);
    crate::fixed::lemma_fx_mul_one(x.x);
    crate::fixed::lemma_fx_mul_one(x.y);
    crate::fixed::lemma_fx_mul_one(x.theta);
    crate::fixed::lemma_fx_mul_zero(x.x);
    crate::fixed::lemma_fx_mul_zero(x.y);
    crate::fixed::lemma_fx_mul_zero(x.theta);
    let ax = mul_s(a, xc);
    assert(crate::math::dot_prefix_s(a[0], col, 0) == 0i64);
    assert(crate::math::dot_prefix_s(a[0], col, 1) == x.x);
    assert(crate::math::dot_prefix_s(a[0], col, 2) == x.x);
    assert(crate::math::dot_prefix_s(a[0], col, 3) == x.x);
    assert(ax[0][0] == crate::math::dot_s(a[0], col));
    assert(ax[0][0] == x.x);
    assert(crate::math::dot_prefix_s(a[1], col, 0) == 0i64);
    assert(crate::math::dot_prefix_s(a[1], col, 1) == 0i64);
    assert(crate::math::dot_prefix_s(a[1], col, 2) == x.y);
    assert(crate::math::dot_prefix_s(a[1], col, 3) == x.y);
    assert(ax[1][0] == x.y);
    assert(crate::math::dot_prefix_s(a[2], col, 0) == 0i64);
    assert(crate::math::dot_prefix_s(a[2], col, 1) == 0i64);
    assert(crate::math::dot_prefix_s(a[2], col, 2) == 0i64);
    assert(crate::math::dot_prefix_s(a[2], col, 3) == x.theta);
    assert(ax[2][0] == x.theta);
    let uc = z.col_spec();
    let ucol = crate::math::col_s(uc, 0);
    assert(ucol =~= seq![0i64, 0i64]);
    crate::fixed::lemma_fx_mul_zero(b[0][0]);
    crate::fixed::lemma_fx_mul_zero(b[1][0]);
    crate::fixed::lemma_fx_mul_zero(b[2][0]);
    crate::fixed::lemma_fx_mul_zero(b[0][1]);
    crate::fixed::lemma_fx_mul_zero(b[1][1]);
    crate::fixed::lemma_fx_mul_zero(b[2][1]);
    let bu = mul_s(b, uc);
    assert(crate::math::dot_prefix_s(b[0], ucol, 0) == 0i64);
    assert(crate::math::dot_prefix_s(b[0], ucol, 1) == 0i64);
    assert(crate::math::dot_prefix_s(b[0], ucol, 2) == 0i64);
    assert(bu[0][0] == 0i64);
    assert(crate::math::dot_prefix_s(b[1], ucol, 0) == 0i64);
    assert(crate::math::dot_prefix_s(b[1], ucol, 1) == 0i64);
    assert(crate::math::dot_prefix_s(b[1], ucol, 2) == 0i64);
    assert(bu[1][0] == 0i64);
    assert(crate::math::dot_prefix_s(b[2], ucol, 0) == 0i64);
    assert(crate::math::dot_prefix_s(b[2], ucol, 1) == 0i64);
    assert(crate::math::dot_prefix_s(b[2], ucol, 2) == 0i64);
    assert(bu[2][0] == 0i64);
    let lin = <LinearUnicycleSystem as System>::make_spec(x, z, dt).tick_spec(z, dt);
    assert(lin.x == fx_add_s(ax[0][0], bu[0][0]));
    assert(lin == x);
}


/// At zero heading the two models agree exactly for every command:
/// one step of the model linearized at `(x, u0, dt)` equals one exact
/// nonlinear step, whatever the pinning input. Away from zero heading
/// they differ by the affine remainder of the Taylor expansion, which
/// shrinks with the step and the pinning input.
pub proof fn lemma_models_agree_at_zero_heading(x: StateVec, u0: InputVec, uc: InputVec, dt: i64)
    requires
        x.theta == 0,
    ensures
        linear_tick_s(x, u0, dt, uc) == nonlinear_tick_s(x, uc, dt),
{
    crate::fixed::lemma_trig_at_zero();
    let a = a_matrix_s(x, u0, dt);
    let b = b_matrix_s(x, u0, dt);
    crate::fixed::lemma_fx_mul_zero(fx_neg_s(u0.v));
    crate::fixed::lemma_fx_mul_zero(dt);
    crate::fixed::lemma_fx_mul_one(dt);
    crate::fixed::lemma_fx_mul_one(fx_mul_s(u0.v, dt));
    crate::fixed::lemma_fx_mul_one(u0.v);
    assert(a[0] =~= seq![FX_ONE, 0i64, 0i64]);
    assert(a[1] =~= seq![0i64, FX_ONE, fx_mul_s(u0.v, dt)]);
    assert(a[2] =~= seq![0i64, 0i64, FX_ONE]);
    assert(b[0] =~= seq![dt, 0i64]);
    assert(b[1] =~= seq![0i64, 0i64]);
    assert(b[2] =~= seq![0i64, dt]);
    let xc = x.col_spec();
    let col = crate::math::col_s(xc, 0);
    assert(col =~= seq![x.x, x.y, 0i64]);
    crate::fixed::lemma_fx_mul_one(x.x);
    crate::fixed::lemma_fx_mul_one(x.y);
    crate::fixed::lemma_fx_mul_zero(x.x);
    crate::fixed::lemma_fx_mul_zero(x.y);
    crate::fixed::lemma_fx_mul_zero(FX_ONE);
    crate::fixed::lemma_fx_mul_zero(0);
    crate::fixed::lemma_fx_mul_zero(fx_mul_s(u0.v, dt));
    let ax = mul_s(a, xc);
    assert(crate::math::dot_prefix_s(a[0], col, 0) == 0i64);
    assert(crate::math::dot_prefix_s(a[0], col, 1) == x.x);
    assert(crate::math::dot_prefix_s(a[0], col, 2) == x.x);
    assert(crate::math::dot_prefix_s(a[0], col, 3) == x.x);
    assert(ax[0][0] == x.x);
    assert(crate::math::dot_prefix_s(a[1], col, 0) == 0i64);
    assert(crate::math::dot_prefix_s(a[1], col, 1) == 0i64);
    assert(crate::math::dot_prefix_s(a[1], col, 2) == x.y);
    assert(crate::math::dot_prefix_s(a[1], col, 3) == x.y);
    assert(ax[1][0] == x.y);
    assert(crate::math::dot_prefix_s(a[2], col, 0) == 0i64);
    assert(crate::math::dot_prefix_s(a[2], col, 1) == 0i64);
    assert(crate::math::dot_prefix_s(a[2], col, 2) == 0i64);
    assert(crate::math::dot_prefix_s(a[2], col, 3) == 0i64);
    assert(ax[2][0] == 0i64);
    let ucg = uc.col_spec();
    let ucol = crate::math::col_s(ucg, 0);
    assert(ucol =~= seq![uc.v, uc.omega]);
    crate::fixed::lemma_fx_mul_zero(uc.v);
    crate::fixed::lemma_fx_mul_zero(uc.omega);
    let bu = mul_s(b, ucg);
    assert(crate::math::dot_prefix_s(b[0], ucol, 0) == 0i64);
    assert(crate::math::dot_prefix_s(b[0], ucol, 1) == fx_mul_s(dt, uc.v));
    assert(crate::math::dot_prefix_s(b[0], ucol, 2) == fx_mul_s(dt, uc.v));
    assert(bu[0][0] == fx_mul_s(dt, uc.v));
    assert(crate::math::dot_prefix_s(b[1], ucol, 0) == 0i64);
    assert(crate::math::dot_prefix_s(b[1], ucol, 1) == 0i64);
    assert(crate::math::dot_prefix_s(b[1], ucol, 2) == 0i64);
    assert(bu[1][0] == 0i64);
    assert(crate::math::dot_prefix_s(b[2], ucol, 0) == 0i64);
    assert(crate::math::dot_prefix_s(b[2], ucol, 1) == 0i64);
    assert(crate::math::dot_prefix_s(b[2], ucol, 2) == fx_mul_s(dt, uc.omega));
    assert(bu[2][0] == fx_mul_s(dt, uc.omega));
    crate::fixed::lemma_fx_mul_comm(dt, uc.v);
    crate::fixed::lemma_fx_mul_comm(dt, uc.omega);
    crate::fixed::lemma_fx_mul_one(uc.v);
    crate::fixed::lemma_fx_mul_zero(uc.v);
    assert(nonlinear_tick_s(x, uc, dt).x == fx_add_s(x.x, fx_mul_s(uc.v, dt)));
    assert(nonlinear_tick_s(x, uc, dt).y == x.y);
    assert(nonlinear_tick_s(x, uc, dt).theta == fx_mul_s(uc.omega, dt));
    assert(linear_tick_s(x, u0, dt, uc) == nonlinear_tick_s(x, uc, dt));
}

} // verus!
