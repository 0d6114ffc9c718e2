//! Dense-matrix assembly utilities over saturating fixed-point scalars,
//! and conversion to the compressed-sparse-column form a QP backend expects.
//!
//! A matrix is viewed as a sequence of rows (`Seq<Seq<i64>>`); every
//! operation states its result entry by entry over that view.

use vstd::prelude::*;

use crate::fixed::fx_add;
use crate::fixed::fx_add_s;
use crate::fixed::fx_mul;
use crate::fixed::fx_mul_s;
use crate::fixed::fx_sub;
use crate::fixed::fx_sub_s;
use crate::fixed::FX_ONE;

verus! {

/// A dense matrix of fixed-point scalars, stored row-major.
pub struct Matrix {
    rows: usize,
    cols: usize,
    data: Vec<i64>,
}

/// A non-empty rectangular grid: at least one row, all rows of one
/// non-zero length.
pub open spec fn is_grid(g: Seq<Seq<i64>>) -> bool {
    &&& g.len() >= 1
    &&& g[0].len() >= 1
    &&& forall|i: int| 0 <= i < g.len() ==> (#[trigger] g[i]).len() == g[0].len()
}

impl View for Matrix {
    type V = Seq<Seq<i64>>;

    closed spec fn view(&self) -> Seq<Seq<i64>> {
        Seq::new(
            self.rows as nat,
            |r: int| Seq::new(self.cols as nat, |c: int| self.data@[r * (self.cols as int) + c]),
        )
    }
}

/// A row index and a column index select an in-range cell of the
/// row-major data array.
proof fn lemma_flat_index(r: int, c: int, rows: int, cols: int)
    requires
        0 <= r < rows,
        0 <= c < cols,
    ensures
        0 <= r * cols + c < rows * cols,
{
    assert(0 <= r * cols + c < rows * cols) by (nonlinear_arith)
        requires
            0 <= r < rows,
            0 <= c < cols,
    ;
}

impl Matrix {
    /// The stored dimensions agree with the stored data.
    pub closed spec fn wf(&self) -> bool {
        &&& self.data@.len() == self.rows * self.cols
        &&& self.rows * self.cols <= usize::MAX
        &&& self.rows >= 1
        &&& self.cols >= 1
    }

    /// A well-formed matrix views as a rectangular grid.
    pub proof fn lemma_wf_grid(&self)
        requires
            self.wf(),
        ensures
            is_grid(self@),
    {
    }

    /// Number of rows.
    pub fn nrows(&self) -> (n: usize)
        requires
            self.wf(),
        ensures
            n == self@.len(),
    {
        self.rows
    }

    /// Number of columns.
    pub fn ncols(&self) -> (n: usize)
        requires
            self.wf(),
        ensures
            n == self@[0].len(),
    {
        self.cols
    }

    /// The entry in row `r`, column `c`.
    pub fn get(&self, r: usize, c: usize) -> (v: i64)
        requires
            self.wf(),
            r < self@.len(),
            c < self@[0].len(),
        ensures
            v == self@[r as int][c as int],
    {
        proof {
            lemma_flat_index(r as int, c as int, self.rows as int, self.cols as int);
        }
        self.data[r * self.cols + c]
    }
}

/// Builds the matrix whose entry in row `r`, column `c` is `f(r, c)`.
fn build_matrix<F: Fn(usize, usize) -> i64>(rows: usize, cols: usize, f: F) -> (m: Matrix)
    requires
        rows >= 1,
        cols >= 1,
        rows * cols <= usize::MAX,
        forall|r: usize, c: usize| r < rows && c < cols ==> #[trigger] call_requires(f, (r, c)),
    ensures
        m.wf(),
        is_grid(m@),
        m@.len() == rows,
        m@[0].len() == cols,
        forall|r: int, c: int|
            0 <= r < rows && 0 <= c < cols ==> call_ensures(
                f,
                (r as usize, c as usize),
                #[trigger] m@[r][c],
            ),
{
    let mut data: Vec<i64> = Vec::new();
    let mut r: usize = 0;
    while r < rows
        invariant
            r <= rows,
            rows >= 1,
            cols >= 1,
            rows * cols <= usize::MAX,
            forall|i: usize, j: usize| i < rows && j < cols ==> #[trigger] call_requires(f, (i, j)),
            data@.len() == r * cols,
            forall|k: int|
                0 <= k < data@.len() ==> call_ensures(
                    f,
                    ((k / (cols as int)) as usize, (k % (cols as int)) as usize),
                    #[trigger] data@[k],
                ),
        decreases rows - r,
    {
        let mut c: usize = 0;
        while c < cols
            invariant
                r < rows,
                c <= cols,
                rows >= 1,
                cols >= 1,
                rows * cols <= usize::MAX,
                forall|i: usize, j: usize|
                    i < rows && j < cols ==> #[trigger] call_requires(f, (i, j)),
                data@.len() == r * cols + c,
                forall|k: int|
                    0 <= k < data@.len() ==> call_ensures(
                        f,
                        ((k / (cols as int)) as usize, (k % (cols as int)) as usize),
                        #[trigger] data@[k],
                    ),
            decreases cols - c,
        {
            proof {
                lemma_flat_index(r as int, c as int, rows as int, cols as int);
            }
            let v = f(r, c);
            data.push(v);
            proof {
                vstd::arithmetic::div_mod::lemma_fundamental_div_mod_converse(
                    r * cols + c,
                    cols as int,
                    r as int,
                    c as int,
                );
            }
            c = c + 1;
        }
        r = r + 1;
        proof {
            assert(data@.len() == (r - 1) * cols + cols);
            assert((r - 1) * cols + cols == r * cols) by (nonlinear_arith);
        }
    }
    let m = Matrix { rows, cols, data };
    proof {
        assert forall|i: int, j: int| 0 <= i < rows && 0 <= j < cols implies call_ensures(
            f,
            (i as usize, j as usize),
            #[trigger] m@[i][j],
        ) by {
            lemma_flat_index(i, j, rows as int, cols as int);
            vstd::arithmetic::div_mod::lemma_fundamental_div_mod_converse(
                i * (cols as int) + j,
                cols as int,
                i,
                j,
            );
            assert(m@[i][j] == m.data@[i * (cols as int) + j]);
        }
    }
    m
}

/// The all-zero matrix of the given dimensions.
pub fn zeros(rows: usize, cols: usize) -> (m: Matrix)
    requires
        rows >= 1,
        cols >= 1,
        rows * cols <= usize::MAX,
    ensures
        m.wf(),
        is_grid(m@),
        m@.len() == rows,
        m@[0].len() == cols,
        forall|r: int, c: int| 0 <= r < rows && 0 <= c < cols ==> #[trigger] m@[r][c] == 0i64,
{
    let f = |r: usize, c: usize| -> (v: i64)
        ensures
            v == 0i64,
        { 0i64 };
    build_matrix(rows, cols, f)
}

/// The identity grid of the given size.
pub open spec fn identity_s(n: int) -> Seq<Seq<i64>> {
    Seq::new(
        n as nat,
        |r: int|
            Seq::new(
                n as nat,
                |c: int|
                    if r == c {
                        FX_ONE
                    } else {
                        0i64
                    },
            ),
    )
}

/// The identity of the given size: `FX_ONE` (that is, `1.0`) on the
/// diagonal, zero elsewhere.
pub fn identity(n: usize) -> (m: Matrix)
    requires
        n >= 1,
        n * n <= usize::MAX,
    ensures
        m.wf(),
        is_grid(m@),
        m@ == identity_s(n as int),
        m@.len() == n,
        m@[0].len() == n,
        forall|r: int, c: int|
            0 <= r < n && 0 <= c < n ==> #[trigger] m@[r][c] == (if r == c {
                FX_ONE
            } else {
                0i64
            }),
{
    let f = |r: usize, c: usize| -> (v: i64)
        ensures
            v == (if r == c {
                FX_ONE
            } else {
                0i64
            }),
        {
            if r == c {
                FX_ONE
            } else {
                0i64
            }
        };
    let m = build_matrix(n, n, f);
    proof {
        assert(m@ =~~= identity_s(n as int));
    }
    m
}

/// Column `c` of a grid.
pub open spec fn col_s(g: Seq<Seq<i64>>, c: int) -> Seq<i64> {
    Seq::new(g.len(), |r: int| g[r][c])
}

/// Fixed-point dot product of the first `k` components.
pub open spec fn dot_prefix_s(a: Seq<i64>, b: Seq<i64>, k: int) -> i64
    decreases k,
{
    if k <= 0 {
        0i64
    } else {
        fx_add_s(dot_prefix_s(a, b, k - 1), fx_mul_s(a[k - 1], b[k - 1]))
    }
}

/// Fixed-point dot product.
pub open spec fn dot_s(a: Seq<i64>, b: Seq<i64>) -> i64 {
    dot_prefix_s(a, b, a.len() as int)
}

/// Fixed-point matrix product.
pub open spec fn mul_s(a: Seq<Seq<i64>>, b: Seq<Seq<i64>>) -> Seq<Seq<i64>> {
    Seq::new(a.len(), |r: int| Seq::new(b[0].len(), |c: int| dot_s(a[r], col_s(b, c))))
}

/// Transposed grid.
pub open spec fn transpose_s(g: Seq<Seq<i64>>) -> Seq<Seq<i64>> {
    Seq::new(g[0].len(), |r: int| Seq::new(g.len(), |c: int| g[c][r]))
}

/// Entrywise fixed-point difference.
pub open spec fn sub_s(a: Seq<Seq<i64>>, b: Seq<Seq<i64>>) -> Seq<Seq<i64>> {
    Seq::new(a.len(), |r: int| Seq::new(a[0].len(), |c: int| fx_sub_s(a[r][c], b[r][c])))
}

/// Entrywise fixed-point product with a scalar.
pub open spec fn scale_s(g: Seq<Seq<i64>>, s: i64) -> Seq<Seq<i64>> {
    Seq::new(g.len(), |r: int| Seq::new(g[0].len(), |c: int| fx_mul_s(g[r][c], s)))
}

/// The upper triangle of a grid: entries strictly below the diagonal
/// are replaced by zero.
pub open spec fn upper_tri_s(g: Seq<Seq<i64>>) -> Seq<Seq<i64>> {
    Seq::new(
        g.len(),
        |r: int|
            Seq::new(
                g[0].len(),
                |c: int|
                    if c >= r {
                        g[r][c]
                    } else {
                        0i64
                    },
            ),
    )
}

/// Fixed-point dot product of row `r` of `a` with column `c` of `b`.
fn dot_rc(a: &Matrix, b: &Matrix, r: usize, c: usize) -> (v: i64)
    requires
        a.wf(),
        b.wf(),
        a@[0].len() == b@.len(),
        r < a@.len(),
        c < b@[0].len(),
    ensures
        v == dot_s(a@[r as int], col_s(b@, c as int)),
{
    proof {
        a.lemma_wf_grid();
        b.lemma_wf_grid();
    }
    let n = a.ncols();
    let mut acc: i64 = 0;
    let mut k: usize = 0;
    while k < n
        invariant
            a.wf(),
            b.wf(),
            a@[0].len() == b@.len(),
            r < a@.len(),
            c < b@[0].len(),
            is_grid(a@),
            is_grid(b@),
            n == a@[0].len(),
            k <= n,
            acc == dot_prefix_s(a@[r as int], col_s(b@, c as int), k as int),
        decreases n - k,
    {
        let prod = fx_mul(a.get(r, k), b.get(k, c));
        acc = fx_add(acc, prod);
        k = k + 1;
    }
    assert(a@[r as int].len() == n);
    acc
}

impl Matrix {
    /// Fixed-point matrix product.
    pub fn matmul(&self, other: &Matrix) -> (m: Matrix)
        requires
            self.wf(),
            other.wf(),
            self@[0].len() == other@.len(),
            self@.len() * other@[0].len() <= usize::MAX,
        ensures
            m.wf(),
            is_grid(m@),
            m@ == mul_s(self@, other@),
    {
        proof {
            self.lemma_wf_grid();
            other.lemma_wf_grid();
        }
        let f = |r: usize, c: usize| -> (v: i64)
            requires
                r < self@.len(),
                c < other@[0].len(),
            ensures
                v == dot_s(self@[r as int], col_s(other@, c as int)),
            { dot_rc(self, other, r, c) };
        let m = build_matrix(self.nrows(), other.ncols(), f);
        proof {
            assert(m@ =~~= mul_s(self@, other@));
        }
        m
    }

    /// Transpose.
    pub fn transpose(&self) -> (m: Matrix)
        requires
            self.wf(),
        ensures
            m.wf(),
            is_grid(m@),
            m@ == transpose_s(self@),
    {
        proof {
            self.lemma_wf_grid();
            vstd::arithmetic::mul::lemma_mul_is_commutative(
                self@.len() as int,
                self@[0].len() as int,
            );
        }
        let f = |r: usize, c: usize| -> (v: i64)
            requires
                r < self@[0].len(),
                c < self@.len(),
            ensures
                v == self@[c as int][r as int],
            { self.get(c, r) };
        let m = build_matrix(self.ncols(), self.nrows(), f);
        proof {
            assert(m@ =~~= transpose_s(self@));
        }
        m
    }

    /// Entrywise saturating fixed-point difference.
    pub fn mat_sub(&self, other: &Matrix) -> (m: Matrix)
        requires
            self.wf(),
            other.wf(),
            self@.len() == other@.len(),
            self@[0].len() == other@[0].len(),
        ensures
            m.wf(),
            is_grid(m@),
            m@ == sub_s(self@, other@),
    {
        proof {
            self.lemma_wf_grid();
            other.lemma_wf_grid();
        }
        let f = |r: usize, c: usize| -> (v: i64)
            requires
                r < self@.len(),
                c < self@[0].len(),
            ensures
                v == fx_sub_s(self@[r as int][c as int], other@[r as int][c as int]),
            { fx_sub(self.get(r, c), other.get(r, c)) };
        let m = build_matrix(self.nrows(), self.ncols(), f);
        proof {
            assert(m@ =~~= sub_s(self@, other@));
        }
        m
    }

    /// Entrywise saturating fixed-point product with a scalar.
    pub fn scale(&self, s: i64) -> (m: Matrix)
        requires
            self.wf(),
        ensures
            m.wf(),
            is_grid(m@),
            m@ == scale_s(self@, s),
    {
        proof {
            self.lemma_wf_grid();
        }
        let f = |r: usize, c: usize| -> (v: i64)
            requires
                r < self@.len(),
                c < self@[0].len(),
            ensures
                v == fx_mul_s(self@[r as int][c as int], s),
            { fx_mul(self.get(r, c), s) };
        let m = build_matrix(self.nrows(), self.ncols(), f);
        proof {
            assert(m@ =~~= scale_s(self@, s));
        }
        m
    }

    /// The upper triangle: entries strictly below the diagonal become zero.
    pub fn upper_triangle(&self) -> (m: Matrix)
        requires
            self.wf(),
        ensures
            m.wf(),
            is_grid(m@),
            m@ == upper_tri_s(self@),
    {
        proof {
            self.lemma_wf_grid();
        }
        let f = |r: usize, c: usize| -> (v: i64)
            requires
                r < self@.len(),
                c < self@[0].len(),
            ensures
                v == (if c >= r {
                    self@[r as int][c as int]
                } else {
                    0i64
                }),
            {
                if c >= r {
                    self.get(r, c)
                } else {
                    0i64
                }
            };
        let m = build_matrix(self.nrows(), self.ncols(), f);
        proof {
            assert(m@ =~~= upper_tri_s(self@));
        }
        m
    }

    /// The single row of a one-row matrix, as a vector.
    pub fn as_row(&self) -> (r: Vec<i64>)
        requires
            self.wf(),
            self@.len() == 1,
        ensures
            r@ == self@[0],
    {
        proof {
            self.lemma_wf_grid();
        }
        let n = self.ncols();
        let mut r: Vec<i64> = Vec::new();
        let mut c: usize = 0;
        while c < n
            invariant
                self.wf(),
                self@.len() == 1,
                n == self@[0].len(),
                c <= n,
                r@.len() == c,
                forall|k: int| 0 <= k < c ==> #[trigger] r@[k] == self@[0][k],
            decreases n - c,
        {
            r.push(self.get(0, c));
            c = c + 1;
        }
        proof {
            assert(r@ =~= self@[0]);
        }
        r
    }

    /// The single column of a one-column matrix, as a vector.
    pub fn as_col(&self) -> (r: Vec<i64>)
        requires
            self.wf(),
            self@[0].len() == 1,
        ensures
            r@ == col_s(self@, 0),
    {
        proof {
            self.lemma_wf_grid();
        }
        let n = self.nrows();
        let mut r: Vec<i64> = Vec::new();
        let mut i: usize = 0;
        while i < n
            invariant
                self.wf(),
                is_grid(self@),
                self@[0].len() == 1,
                n == self@.len(),
                i <= n,
                r@.len() == i,
                forall|k: int| 0 <= k < i ==> #[trigger] r@[k] == self@[k][0],
            decreases n - i,
        {
            r.push(self.get(i, 0));
            i = i + 1;
        }
        proof {
            assert(r@ =~= col_s(self@, 0));
        }
        r
    }

    /// Column `c` as a single-column matrix.
    pub fn column(&self, c: usize) -> (m: Matrix)
        requires
            self.wf(),
            c < self@[0].len(),
        ensures
            m.wf(),
            is_grid(m@),
            m@.len() == self@.len(),
            m@[0].len() == 1,
            forall|r: int| 0 <= r < self@.len() ==> #[trigger] m@[r][0] == self@[r][c as int],
    {
        proof {
            self.lemma_wf_grid();
        }
        let f = |r: usize, j: usize| -> (v: i64)
            requires
                r < self@.len(),
                j < 1,
            ensures
                v == self@[r as int][c as int],
            { self.get(r, c) };
        build_matrix(self.nrows(), 1, f)
    }
}

/// The grid replicated into a `v` by `h` grid of blocks.
pub open spec fn tile_s(g: Seq<Seq<i64>>, v: int, h: int) -> Seq<Seq<i64>> {
    Seq::new(
        (v * g.len()) as nat,
        |r: int|
            Seq::new(
                (h * g[0].len()) as nat,
                |c: int| g[r % (g.len() as int)][c % (g[0].len() as int)],
            ),
    )
}

/// Replicates a matrix into a `v` by `h` grid of blocks.
pub fn tile(m: &Matrix, v: usize, h: usize) -> (t: Matrix)
    requires
        m.wf(),
        v >= 1,
        h >= 1,
        (v * m@.len()) * (h * m@[0].len()) <= usize::MAX,
    ensures
        t.wf(),
        is_grid(t@),
        t@ == tile_s(m@, v as int, h as int),
{
    proof {
        m.lemma_wf_grid();
        assert(1 <= v * m@.len() && 1 <= h * m@[0].len() && v * m@.len() <= (v * m@.len()) * (h
            * m@[0].len()) && h * m@[0].len() <= (v * m@.len()) * (h * m@[0].len()))
            by (nonlinear_arith)
            requires
                v >= 1,
                m@.len() >= 1,
                h >= 1,
                m@[0].len() >= 1,
        ;
    }
    let rows_t = v * m.nrows();
    let cols_t = h * m.ncols();
    let f = |r: usize, c: usize| -> (val: i64)
        requires
            r < v * m@.len(),
            c < h * m@[0].len(),
        ensures
            val == m@[r as int % (m@.len() as int)][c as int % (m@[0].len() as int)],
        {
            proof {
                m.lemma_wf_grid();
                vstd::arithmetic::div_mod::lemma_mod_bound(r as int, m@.len() as int);
                vstd::arithmetic::div_mod::lemma_mod_bound(c as int, m@[0].len() as int);
            }
            let nr = m.nrows();
            let nc = m.ncols();
            m.get(r % nr, c % nc)
        };
    let t = build_matrix(rows_t, cols_t, f);
    proof {
        assert(t@ =~~= tile_s(m@, v as int, h as int));
    }
    t
}

/// Two grids with equal row counts, side by side.
pub open spec fn hconcat_s(a: Seq<Seq<i64>>, b: Seq<Seq<i64>>) -> Seq<Seq<i64>> {
    Seq::new(a.len(), |r: int| a[r] + b[r])
}

/// Two grids with equal column counts, one above the other.
pub open spec fn vconcat_s(a: Seq<Seq<i64>>, b: Seq<Seq<i64>>) -> Seq<Seq<i64>> {
    a + b
}

/// A row of `n` zeros.
pub open spec fn zero_row_s(n: int) -> Seq<i64> {
    Seq::new(n as nat, |i: int| 0i64)
}

/// Two grids placed corner to corner, zero elsewhere.
pub open spec fn corner_s(a: Seq<Seq<i64>>, b: Seq<Seq<i64>>) -> Seq<Seq<i64>> {
    Seq::new(
        a.len() + b.len(),
        |r: int|
            if r < a.len() {
                a[r] + zero_row_s(b[0].len() as int)
            } else {
                zero_row_s(a[0].len() as int) + b[r - a.len()]
            },
    )
}

/// The views of a sequence of matrices.
pub open spec fn views_s(ms: Seq<Matrix>) -> Seq<Seq<Seq<i64>>> {
    ms.map_values(|m: Matrix| m@)
}

/// Grids stacked side by side, left to right.
pub open spec fn hstack_s(gs: Seq<Seq<Seq<i64>>>) -> Seq<Seq<i64>>
    decreases gs.len(),
{
    if gs.len() <= 1 {
        if gs.len() == 0 {
            Seq::empty()
        } else {
            gs[0]
        }
    } else {
        hconcat_s(hstack_s(gs.drop_last()), gs.last())
    }
}

/// Grids stacked top to bottom.
pub open spec fn vstack_s(gs: Seq<Seq<Seq<i64>>>) -> Seq<Seq<i64>>
    decreases gs.len(),
{
    if gs.len() <= 1 {
        if gs.len() == 0 {
            Seq::empty()
        } else {
            gs[0]
        }
    } else {
        vconcat_s(vstack_s(gs.drop_last()), gs.last())
    }
}

/// Grids placed along the diagonal, zero elsewhere.
pub open spec fn block_diag_s(gs: Seq<Seq<Seq<i64>>>) -> Seq<Seq<i64>>
    decreases gs.len(),
{
    if gs.len() <= 1 {
        if gs.len() == 0 {
            Seq::empty()
        } else {
            gs[0]
        }
    } else {
        corner_s(block_diag_s(gs.drop_last()), gs.last())
    }
}

/// Sum of the row counts of the first `i` grids.
pub open spec fn rows_before_s(gs: Seq<Seq<Seq<i64>>>, i: int) -> int
    decreases i,
{
    if i <= 0 {
        0
    } else {
        rows_before_s(gs, i - 1) + gs[i - 1].len()
    }
}

/// Sum of the column counts of the first `i` grids.
pub open spec fn cols_before_s(gs: Seq<Seq<Seq<i64>>>, i: int) -> int
    decreases i,
{
    if i <= 0 {
        0
    } else {
        cols_before_s(gs, i - 1) + gs[i - 1][0].len()
    }
}

/// Two matrices with equal row counts, side by side.
fn hconcat(a: &Matrix, b: &Matrix) -> (m: Matrix)
    requires
        a.wf(),
        b.wf(),
        a@.len() == b@.len(),
        a@.len() * (a@[0].len() + b@[0].len()) <= usize::MAX,
    ensures
        m.wf(),
        is_grid(m@),
        m@ == hconcat_s(a@, b@),
{
    proof {
        a.lemma_wf_grid();
        b.lemma_wf_grid();
        assert(a@[0].len() + b@[0].len() <= a@.len() * (a@[0].len() + b@[0].len()))
            by (nonlinear_arith)
            requires
                a@.len() >= 1,
                a@[0].len() >= 0,
                b@[0].len() >= 0,
        ;
    }
    let ca = a.ncols();
    let cols = ca + b.ncols();
    let f = |r: usize, c: usize| -> (val: i64)
        requires
            r < a@.len(),
            c < a@[0].len() + b@[0].len(),
        ensures
            val == (a@[r as int] + b@[r as int])[c as int],
        {
            let ca = a.ncols();
            if c < ca {
                a.get(r, c)
            } else {
                b.get(r, c - ca)
            }
        };
    let m = build_matrix(a.nrows(), cols, f);
    proof {
        assert(m@ =~~= hconcat_s(a@, b@));
    }
    m
}

/// Two matrices with equal column counts, one above the other.
fn vconcat(a: &Matrix, b: &Matrix) -> (m: Matrix)
    requires
        a.wf(),
        b.wf(),
        a@[0].len() == b@[0].len(),
        (a@.len() + b@.len()) * a@[0].len() <= usize::MAX,
    ensures
        m.wf(),
        is_grid(m@),
        m@ == vconcat_s(a@, b@),
{
    proof {
        a.lemma_wf_grid();
        b.lemma_wf_grid();
        assert(a@.len() + b@.len() <= (a@.len() + b@.len()) * a@[0].len()) by (nonlinear_arith)
            requires
                a@.len() >= 1,
                b@.len() >= 1,
                a@[0].len() >= 1,
        ;
    }
    let ra = a.nrows();
    let rows = ra + b.nrows();
    let f = |r: usize, c: usize| -> (val: i64)
        requires
            r < a@.len() + b@.len(),
            c < a@[0].len(),
        ensures
            val == (a@ + b@)[r as int][c as int],
        {
            let ra = a.nrows();
            if r < ra {
                a.get(r, c)
            } else {
                b.get(r - ra, c)
            }
        };
    let m = build_matrix(rows, a.ncols(), f);
    proof {
        assert(m@ =~~= vconcat_s(a@, b@));
    }
    m
}

/// Two matrices placed corner to corner, zero elsewhere.
fn corner(a: &Matrix, b: &Matrix) -> (m: Matrix)
    requires
        a.wf(),
        b.wf(),
        (a@.len() + b@.len()) * (a@[0].len() + b@[0].len()) <= usize::MAX,
    ensures
        m.wf(),
        is_grid(m@),
        m@ == corner_s(a@, b@),
{
    proof {
        a.lemma_wf_grid();
        b.lemma_wf_grid();
        assert(a@.len() + b@.len() <= (a@.len() + b@.len()) * (a@[0].len() + b@[0].len()) && a@[0].len()
            + b@[0].len() <= (a@.len() + b@.len()) * (a@[0].len() + b@[0].len()))
            by (nonlinear_arith)
            requires
                a@.len() >= 1,
                b@.len() >= 1,
                a@[0].len() >= 1,
                b@[0].len() >= 1,
        ;
    }
    let ra = a.nrows();
    let ca = a.ncols();
    let rows = ra + b.nrows();
    let cols = ca + b.ncols();
    let f = |r: usize, c: usize| -> (val: i64)
        requires
            r < a@.len() + b@.len(),
            c < a@[0].len() + b@[0].len(),
        ensures
            val == corner_s(a@, b@)[r as int][c as int],
        {
            let ra = a.nrows();
            let ca = a.ncols();
            if r < ra {
                if c < ca {
                    a.get(r, c)
                } else {
                    0i64
                }
            } else {
                if c < ca {
                    0i64
                } else {
                    b.get(r - ra, c - ca)
                }
            }
        };
    let m = build_matrix(rows, cols, f);
    proof {
        assert(m@ =~~= corner_s(a@, b@));
    }
    m
}

impl Clone for Matrix {
    /// An entrywise copy.
    fn clone(&self) -> (m: Matrix)
        ensures
            m@ == self@,
            self.wf() ==> m.wf(),
    {
        let data = self.data.clone();
        proof {
            assert(data@ =~= self.data@);
        }
        let m = Matrix { rows: self.rows, cols: self.cols, data };
        proof {
            assert(m@ =~~= self@);
        }
        m
    }
}

/// Dropping the last grid does not change the column count of an
/// earlier prefix.
proof fn lemma_cols_before_drop_last(gs: Seq<Seq<Seq<i64>>>, i: int)
    requires
        0 <= i < gs.len(),
    ensures
        cols_before_s(gs.drop_last(), i) == cols_before_s(gs, i),
    decreases i,
{
    if i > 0 {
        lemma_cols_before_drop_last(gs, i - 1);
    }
}

/// Dropping the last grid does not change the row count of an
/// earlier prefix.
proof fn lemma_rows_before_drop_last(gs: Seq<Seq<Seq<i64>>>, i: int)
    requires
        0 <= i < gs.len(),
    ensures
        rows_before_s(gs.drop_last(), i) == rows_before_s(gs, i),
    decreases i,
{
    if i > 0 {
        lemma_rows_before_drop_last(gs, i - 1);
    }
}

/// Prefix column counts grow with the prefix.
proof fn lemma_cols_before_mono(gs: Seq<Seq<Seq<i64>>>, i: int, j: int)
    requires
        0 <= i <= j <= gs.len(),
        forall|k: int| 0 <= k < gs.len() ==> is_grid(#[trigger] gs[k]),
    ensures
        cols_before_s(gs, i) <= cols_before_s(gs, j),
    decreases j - i,
{
    if i < j {
        lemma_cols_before_mono(gs, i, j - 1);
    }
}

/// Prefix row counts grow with the prefix.
proof fn lemma_rows_before_mono(gs: Seq<Seq<Seq<i64>>>, i: int, j: int)
    requires
        0 <= i <= j <= gs.len(),
        forall|k: int| 0 <= k < gs.len() ==> is_grid(#[trigger] gs[k]),
    ensures
        rows_before_s(gs, i) <= rows_before_s(gs, j),
    decreases j - i,
{
    if i < j {
        lemma_rows_before_mono(gs, i, j - 1);
    }
}

/// Grids with one row count, stacked side by side, form a grid with
/// that row count and the summed column count.
pub proof fn lemma_hstack_dims(gs: Seq<Seq<Seq<i64>>>)
    requires
        gs.len() >= 1,
        forall|k: int| 0 <= k < gs.len() ==> is_grid(#[trigger] gs[k]),
        forall|k: int| 0 <= k < gs.len() ==> (#[trigger] gs[k]).len() == gs[0].len(),
    ensures
        is_grid(hstack_s(gs)),
        hstack_s(gs).len() == gs[0].len(),
        hstack_s(gs)[0].len() == cols_before_s(gs, gs.len() as int),
    decreases gs.len(),
{
    assert(cols_before_s(gs, 0) == 0);
    if gs.len() == 1 {
    } else {
        let prefix = gs.drop_last();
        lemma_hstack_dims(prefix);
        lemma_cols_before_drop_last(gs, gs.len() - 1);
    }
}

/// Grids with one column count, stacked top to bottom, form a grid
/// with that column count and the summed row count.
pub proof fn lemma_vstack_dims(gs: Seq<Seq<Seq<i64>>>)
    requires
        gs.len() >= 1,
        forall|k: int| 0 <= k < gs.len() ==> is_grid(#[trigger] gs[k]),
        forall|k: int| 0 <= k < gs.len() ==> (#[trigger] gs[k])[0].len() == gs[0][0].len(),
    ensures
        is_grid(vstack_s(gs)),
        vstack_s(gs).len() == rows_before_s(gs, gs.len() as int),
        vstack_s(gs)[0].len() == gs[0][0].len(),
    decreases gs.len(),
{
    assert(rows_before_s(gs, 0) == 0);
    if gs.len() == 1 {
    } else {
        let prefix = gs.drop_last();
        lemma_vstack_dims(prefix);
        lemma_rows_before_drop_last(gs, gs.len() - 1);
    }
}

/// Grids along the diagonal form a grid with the summed row and
/// column counts.
pub proof fn lemma_block_diag_dims(gs: Seq<Seq<Seq<i64>>>)
    requires
        gs.len() >= 1,
        forall|k: int| 0 <= k < gs.len() ==> is_grid(#[trigger] gs[k]),
    ensures
        is_grid(block_diag_s(gs)),
        block_diag_s(gs).len() == rows_before_s(gs, gs.len() as int),
        block_diag_s(gs)[0].len() == cols_before_s(gs, gs.len() as int),
    decreases gs.len(),
{
    assert(rows_before_s(gs, 0) == 0);
    assert(cols_before_s(gs, 0) == 0);
    if gs.len() == 1 {
    } else {
        let prefix = gs.drop_last();
        lemma_block_diag_dims(prefix);
        lemma_rows_before_drop_last(gs, gs.len() - 1);
        lemma_cols_before_drop_last(gs, gs.len() - 1);
    }
}

/// Concatenation along the rows: the matrices, which must share one
/// row count, stand side by side, left to right.
pub fn horizontal_stack(ms: &Vec<Matrix>) -> (m: Matrix)
    requires
        ms@.len() >= 1,
        forall|i: int| 0 <= i < ms@.len() ==> (#[trigger] ms@[i]).wf(),
        forall|i: int| 0 <= i < ms@.len() ==> (#[trigger] ms@[i])@.len() == ms@[0]@.len(),
        ms@[0]@.len() * cols_before_s(views_s(ms@), ms@.len() as int) <= usize::MAX,
    ensures
        m.wf(),
        is_grid(m@),
        m@ == hstack_s(views_s(ms@)),
{
    let ghost gs = views_s(ms@);
    proof {
        assert forall|k: int| 0 <= k < gs.len() implies is_grid(#[trigger] gs[k]) && gs[k].len()
            == gs[0].len() by {
            ms@[k].lemma_wf_grid();
        }
    }
    let mut acc = ms[0].clone();
    let mut i: usize = 1;
    proof {
        assert(cols_before_s(gs, 0) == 0);
        assert(acc@ =~~= hstack_s(gs.take(1)));
    }
    while i < ms.len()
        invariant
            1 <= i <= ms@.len(),
            forall|k: int| 0 <= k < ms@.len() ==> (#[trigger] ms@[k]).wf(),
            forall|k: int| 0 <= k < gs.len() ==> is_grid(#[trigger] gs[k]),
            forall|k: int| 0 <= k < gs.len() ==> (#[trigger] gs[k]).len() == gs[0].len(),
            gs == views_s(ms@),
            gs[0].len() * cols_before_s(gs, gs.len() as int) <= usize::MAX,
            acc.wf(),
            is_grid(acc@),
            acc@ == hstack_s(gs.take(i as int)),
            acc@.len() == gs[0].len(),
            acc@[0].len() == cols_before_s(gs, i as int),
        decreases ms@.len() - i,
    {
        proof {
            lemma_cols_before_mono(gs, i as int + 1, gs.len() as int);
            vstd::arithmetic::mul::lemma_mul_inequality(
                cols_before_s(gs, i as int + 1),
                cols_before_s(gs, gs.len() as int),
                gs[0].len() as int,
            );
            vstd::arithmetic::mul::lemma_mul_is_commutative(
                cols_before_s(gs, i as int + 1),
                gs[0].len() as int,
            );
            vstd::arithmetic::mul::lemma_mul_is_commutative(
                cols_before_s(gs, gs.len() as int),
                gs[0].len() as int,
            );
        }
        let next = hconcat(&acc, &ms[i]);
        proof {
            assert(gs.take(i as int + 1).drop_last() =~= gs.take(i as int));
            assert(next@ == hstack_s(gs.take(i as int + 1)));
        }
        acc = next;
        i = i + 1;
    }
    proof {
        assert(gs.take(gs.len() as int) =~= gs);
    }
    acc
}

/// Concatenation along the columns: the matrices, which must share one
/// column count, stand one above the other, top to bottom.
pub fn vertical_stack(ms: &Vec<Matrix>) -> (m: Matrix)
    requires
        ms@.len() >= 1,
        forall|i: int| 0 <= i < ms@.len() ==> (#[trigger] ms@[i]).wf(),
        forall|i: int| 0 <= i < ms@.len() ==> (#[trigger] ms@[i])@[0].len() == ms@[0]@[0].len(),
        rows_before_s(views_s(ms@), ms@.len() as int) * ms@[0]@[0].len() <= usize::MAX,
    ensures
        m.wf(),
        is_grid(m@),
        m@ == vstack_s(views_s(ms@)),
{
    let ghost gs = views_s(ms@);
    proof {
        assert forall|k: int| 0 <= k < gs.len() implies is_grid(#[trigger] gs[k]) && gs[k][0].len()
            == gs[0][0].len() by {
            ms@[k].lemma_wf_grid();
        }
    }
    let mut acc = ms[0].clone();
    let mut i: usize = 1;
    proof {
        assert(rows_before_s(gs, 0) == 0);
        assert(acc@ =~~= vstack_s(gs.take(1)));
    }
    while i < ms.len()
        invariant
            1 <= i <= ms@.len(),
            forall|k: int| 0 <= k < ms@.len() ==> (#[trigger] ms@[k]).wf(),
            forall|k: int| 0 <= k < gs.len() ==> is_grid(#[trigger] gs[k]),
            forall|k: int| 0 <= k < gs.len() ==> (#[trigger] gs[k])[0].len() == gs[0][0].len(),
            gs == views_s(ms@),
            rows_before_s(gs, gs.len() as int) * gs[0][0].len() <= usize::MAX,
            acc.wf(),
            is_grid(acc@),
            acc@ == vstack_s(gs.take(i as int)),
            acc@.len() == rows_before_s(gs, i as int),
            acc@[0].len() == gs[0][0].len(),
        decreases ms@.len() - i,
    {
        proof {
            lemma_rows_before_mono(gs, i as int + 1, gs.len() as int);
            vstd::arithmetic::mul::lemma_mul_inequality(
                rows_before_s(gs, i as int + 1),
                rows_before_s(gs, gs.len() as int),
                gs[0][0].len() as int,
            );
        }
        let next = vconcat(&acc, &ms[i]);
        proof {
            assert(gs.take(i as int + 1).drop_last() =~= gs.take(i as int));
            assert(next@ == vstack_s(gs.take(i as int + 1)));
        }
        acc = next;
        i = i + 1;
    }
    proof {
        assert(gs.take(gs.len() as int) =~= gs);
    }
    acc
}

/// The matrices placed along the diagonal of one large matrix, zero
/// elsewhere.
pub fn diagonal_block_matrix(ms: &Vec<Matrix>) -> (m: Matrix)
    requires
        ms@.len() >= 1,
        forall|i: int| 0 <= i < ms@.len() ==> (#[trigger] ms@[i]).wf(),
        rows_before_s(views_s(ms@), ms@.len() as int) * cols_before_s(
            views_s(ms@),
            ms@.len() as int,
        ) <= usize::MAX,
    ensures
        m.wf(),
        is_grid(m@),
        m@ == block_diag_s(views_s(ms@)),
{
    let ghost gs = views_s(ms@);
    proof {
        assert forall|k: int| 0 <= k < gs.len() implies is_grid(#[trigger] gs[k]) by {
            ms@[k].lemma_wf_grid();
        }
    }
    let mut acc = ms[0].clone();
    let mut i: usize = 1;
    proof {
        assert(rows_before_s(gs, 0) == 0);
        assert(cols_before_s(gs, 0) == 0);
        assert(acc@ =~~= block_diag_s(gs.take(1)));
    }
    while i < ms.len()
        invariant
            1 <= i <= ms@.len(),
            forall|k: int| 0 <= k < ms@.len() ==> (#[trigger] ms@[k]).wf(),
            forall|k: int| 0 <= k < gs.len() ==> is_grid(#[trigger] gs[k]),
            gs == views_s(ms@),
            rows_before_s(gs, gs.len() as int) * cols_before_s(gs, gs.len() as int) <= usize::MAX,
            acc.wf(),
            is_grid(acc@),
            acc@ == block_diag_s(gs.take(i as int)),
            acc@.len() == rows_before_s(gs, i as int),
            acc@[0].len() == cols_before_s(gs, i as int),
        decreases ms@.len() - i,
    {
        proof {
            lemma_rows_before_mono(gs, i as int + 1, gs.len() as int);
            lemma_cols_before_mono(gs, i as int + 1, gs.len() as int);
            lemma_rows_before_mono(gs, 0, i as int + 1);
            lemma_cols_before_mono(gs, 0, i as int + 1);
            assert(rows_before_s(gs, i as int + 1) * cols_before_s(gs, i as int + 1)
                <= rows_before_s(gs, gs.len() as int) * cols_before_s(gs, gs.len() as int))
                by (nonlinear_arith)
                requires
                    0 <= rows_before_s(gs, i as int + 1) <= rows_before_s(gs, gs.len() as int),
                    0 <= cols_before_s(gs, i as int + 1) <= cols_before_s(gs, gs.len() as int),
            ;
        }
        let next = corner(&acc, &ms[i]);
        proof {
            assert(gs.take(i as int + 1).drop_last() =~= gs.take(i as int));
            assert(next@ == block_diag_s(gs.take(i as int + 1)));
        }
        acc = next;
        i = i + 1;
    }
    proof {
        assert(gs.take(gs.len() as int) =~= gs);
    }
    acc
}

/// A sparse matrix in compressed-sparse-column form: for each column
/// `j`, the rows and values of its non-zero entries sit at positions
/// `indptr[j] .. indptr[j + 1]` of `indices` and `data`, rows strictly
/// increasing.
pub struct CscMatrix {
    /// Number of rows of the dense matrix this encodes.
    pub nrows: usize,
    /// Number of columns of the dense matrix this encodes.
    pub ncols: usize,
    /// Offsets into `indices` and `data` of each column's entries.
    pub indptr: Vec<usize>,
    /// Row index of each stored entry.
    pub indices: Vec<usize>,
    /// Value of each stored entry.
    pub data: Vec<i64>,
}

/// Column `j` of the sparse arrays holds exactly the non-zero entries
/// of column `j` of the grid, rows strictly increasing.
pub open spec fn csc_col_ok(
    indptr: Seq<usize>,
    indices: Seq<usize>,
    data: Seq<i64>,
    g: Seq<Seq<i64>>,
    j: int,
) -> bool {
    let lo = indptr[j] as int;
    let hi = indptr[j + 1] as int;
    &&& lo <= hi <= indices.len()
    &&& indices.len() == data.len()
    &&& forall|k: int|
        lo <= k < hi ==> (#[trigger] indices[k]) < g.len() && data[k] == g[indices[k] as int][j]
            && data[k] != 0
    &&& forall|k1: int, k2: int|
        lo <= k1 < k2 < hi ==> (#[trigger] indices[k1]) < (#[trigger] indices[k2])
    &&& forall|r: int|
        0 <= r < g.len() && #[trigger] g[r][j] != 0 ==> exists|k: int|
            lo <= k < hi && indices[k] == r
}

/// The sparse matrix encodes exactly the grid: a lossless conversion.
pub open spec fn csc_matches(c: CscMatrix, g: Seq<Seq<i64>>) -> bool {
    &&& c.nrows == g.len()
    &&& c.ncols == g[0].len()
    &&& c.indptr@.len() == g[0].len() + 1
    &&& c.indptr@[0] == 0
    &&& c.indptr@[g[0].len() as int] as int == c.indices@.len()
    &&& c.indices@.len() == c.data@.len()
    &&& forall|j: int| 0 <= j < g[0].len() ==> csc_col_ok(c.indptr@, c.indices@, c.data@, g, j)
}

/// Converts a dense matrix to compressed-sparse-column form, dropping
/// zero entries; the conversion is lossless.
pub fn into_sparse(m: &Matrix) -> (c: CscMatrix)
    requires
        m.wf(),
    ensures
        csc_matches(c, m@),
{
    proof {
        m.lemma_wf_grid();
    }
    let ghost g = m@;
    let nrows = m.nrows();
    let ncols = m.ncols();
    let mut indptr: Vec<usize> = Vec::new();
    let mut indices: Vec<usize> = Vec::new();
    let mut data: Vec<i64> = Vec::new();
    indptr.push(0);
    let mut j: usize = 0;
    while j < ncols
        invariant
            m.wf(),
            g == m@,
            is_grid(g),
            nrows == g.len(),
            ncols == g[0].len(),
            j <= ncols,
            indptr@.len() == j + 1,
            indptr@[0] == 0,
            indptr@[j as int] as int == indices@.len(),
            indices@.len() == data@.len(),
            forall|jj: int| 0 <= jj < j ==> csc_col_ok(indptr@, indices@, data@, g, jj),
        decreases ncols - j,
    {
        let ghost lo = indices@.len() as int;
        let ghost snap_i = indices@;
        let ghost snap_d = data@;
        let mut r: usize = 0;
        while r < nrows
            invariant
                m.wf(),
                g == m@,
                is_grid(g),
                nrows == g.len(),
                ncols == g[0].len(),
                j < ncols,
                r <= nrows,
                lo <= indices@.len(),
                snap_i.len() == lo,
                snap_d.len() == lo,
                indices@.len() == data@.len(),
                forall|k: int| 0 <= k < lo ==> #[trigger] indices@[k] == snap_i[k],
                forall|k: int| 0 <= k < lo ==> #[trigger] data@[k] == snap_d[k],
                forall|k: int|
                    lo <= k < indices@.len() ==> (#[trigger] indices@[k]) < r && data@[k]
                        == g[indices@[k] as int][j as int] && data@[k] != 0,
                forall|k1: int, k2: int|
                    lo <= k1 < k2 < indices@.len() ==> (#[trigger] indices@[k1]) < (
                    #[trigger] indices@[k2]),
                forall|rr: int|
                    0 <= rr < r && #[trigger] g[rr][j as int] != 0 ==> exists|k: int|
                        lo <= k < indices@.len() && indices@[k] == rr,
            decreases nrows - r,
        {
            let v = m.get(r, j);
            let ghost pre_i = indices@;
            let ghost pre_d = data@;
            if v != 0 {
                indices.push(r);
                data.push(v);
                proof {
                    assert(indices@ == pre_i.push(r));
                    assert(data@ == pre_d.push(v));
                    assert forall|rr: int|
                        0 <= rr < r + 1 && #[trigger] g[rr][j as int] != 0 implies exists|k: int|
                        lo <= k < indices@.len() && indices@[k] == rr by {
                        if rr == r {
                            assert(indices@[indices@.len() - 1] == rr);
                        } else {
                            let k = choose|k: int|
                                lo <= k < pre_i.len() && pre_i[k] == rr;
                            assert(indices@[k] == rr);
                        }
                    }
                }
            }
            r = r + 1;
        }
        let ghost pre_ip = indptr@;
        indptr.push(indices.len());
        proof {
            assert(indptr@.drop_last() =~= pre_ip);
            let ip = indptr@;
            let iv = indices@;
            let dv = data@;
            assert(ip[j as int] as int == lo);
            assert(ip[j + 1] as int == iv.len());
            assert forall|jj: int| 0 <= jj < j + 1 implies csc_col_ok(ip, iv, dv, g, jj) by {
                if jj < j {
                    let lo2 = ip[jj] as int;
                    let hi2 = ip[jj + 1] as int;
                    assert(csc_col_ok(pre_ip, snap_i, snap_d, g, jj));
                    assert(pre_ip[jj] == ip[jj]);
                    assert(pre_ip[jj + 1] == ip[jj + 1]);
                    assert(hi2 <= lo) by {
                        lemma_indptr_last(pre_ip, snap_i, snap_d, g, jj, j as int);
                    }
                    assert forall|k: int| lo2 <= k < hi2 implies (#[trigger] iv[k]) < g.len()
                        && dv[k] == g[iv[k] as int][jj] && dv[k] != 0 by {
                        assert(iv[k] == snap_i[k]);
                        assert(dv[k] == snap_d[k]);
                    }
                    assert forall|k1: int, k2: int| lo2 <= k1 < k2 < hi2 implies (
                    #[trigger] iv[k1]) < (#[trigger] iv[k2]) by {
                        assert(iv[k1] == snap_i[k1]);
                        assert(iv[k2] == snap_i[k2]);
                    }
                    assert forall|rr: int| 0 <= rr < g.len() && #[trigger] g[rr][jj] != 0
                        implies exists|k: int| lo2 <= k < hi2 && iv[k] == rr by {
                        let k = choose|k: int| lo2 <= k < hi2 && snap_i[k] == rr;
                        assert(iv[k] == snap_i[k]);
                    }
                } else {
                    assert(csc_col_ok(ip, iv, dv, g, jj));
                }
            }
        }
        j = j + 1;
    }
    let c = CscMatrix { nrows, ncols, indptr, indices, data };
    c
}

/// In a partially built sparse matrix, every finished column ends at
/// or before the current fill mark.
proof fn lemma_indptr_last(
    indptr: Seq<usize>,
    indices: Seq<usize>,
    data: Seq<i64>,
    g: Seq<Seq<i64>>,
    jj: int,
    j: int,
)
    requires
        0 <= jj < j,
        indptr.len() == j + 1,
        csc_col_ok(indptr, indices, data, g, jj),
    ensures
        indptr[jj + 1] as int <= indices.len(),
{
}

/// Prefix column counts, when every grid has width `w`, are multiples
/// of `w`.
pub proof fn lemma_cols_before_uniform(gs: Seq<Seq<Seq<i64>>>, w: int, i: int)
    requires
        0 <= i <= gs.len(),
        forall|k: int| 0 <= k < gs.len() ==> (#[trigger] gs[k])[0].len() == w,
    ensures
        cols_before_s(gs, i) == i * w,
    decreases i,
{
    if i > 0 {
        lemma_cols_before_uniform(gs, w, i - 1);
        assert((i - 1) * w + w == i * w) by (nonlinear_arith);
    } else {
        assert(0 * w == 0) by (nonlinear_arith);
    }
}

/// Prefix row counts, when every grid has height `h`, are multiples
/// of `h`.
pub proof fn lemma_rows_before_uniform(gs: Seq<Seq<Seq<i64>>>, h: int, i: int)
    requires
        0 <= i <= gs.len(),
        forall|k: int| 0 <= k < gs.len() ==> (#[trigger] gs[k]).len() == h,
    ensures
        rows_before_s(gs, i) == i * h,
    decreases i,
{
    if i > 0 {
        lemma_rows_before_uniform(gs, h, i - 1);
        assert((i - 1) * h + h == i * h) by (nonlinear_arith);
    } else {
        assert(0 * h == 0) by (nonlinear_arith);
    }
}

/// In a horizontal stack, block `i` reappears unchanged at column
/// offset `cols_before_s(gs, i)`.
pub proof fn lemma_hstack_block(gs: Seq<Seq<Seq<i64>>>, i: int, r: int, c: int)
    requires
        gs.len() >= 1,
        forall|k: int| 0 <= k < gs.len() ==> is_grid(#[trigger] gs[k]),
        forall|k: int| 0 <= k < gs.len() ==> (#[trigger] gs[k]).len() == gs[0].len(),
        0 <= i < gs.len(),
        0 <= r < gs[0].len(),
        0 <= c < gs[i][0].len(),
    ensures
        hstack_s(gs)[r][cols_before_s(gs, i) + c] == gs[i][r][c],
    decreases gs.len(),
{
    lemma_hstack_dims(gs);
    assert(cols_before_s(gs, 0) == 0);
    lemma_cols_before_mono(gs, 0, i);
    if gs.len() == 1 {
    } else {
        let prefix = gs.drop_last();
        lemma_hstack_dims(prefix);
        lemma_cols_before_drop_last(gs, gs.len() - 1);
        let a = hstack_s(prefix);
        let b = gs.last();
        assert(hstack_s(gs) == hconcat_s(a, b));
        assert(hstack_s(gs)[r] == a[r] + b[r]);
        assert(a[r].len() == a[0].len());
        if i == gs.len() - 1 {
            assert((a[r] + b[r])[cols_before_s(gs, i) + c] == b[r][c]);
        } else {
            lemma_hstack_block(prefix, i, r, c);
            lemma_cols_before_drop_last(gs, i);
            lemma_cols_before_mono(prefix, 0, i);
            lemma_cols_before_mono(prefix, i + 1, prefix.len() as int);
            let off = cols_before_s(prefix, i);
            assert(cols_before_s(prefix, i + 1) == off + prefix[i][0].len());
            assert(off + c < a[r].len());
            assert((a[r] + b[r])[off + c] == a[r][off + c]);
        }
    }
}

/// In a vertical stack, block `i` reappears unchanged at row offset
/// `rows_before_s(gs, i)`.
pub proof fn lemma_vstack_block(gs: Seq<Seq<Seq<i64>>>, i: int, r: int, c: int)
    requires
        gs.len() >= 1,
        forall|k: int| 0 <= k < gs.len() ==> is_grid(#[trigger] gs[k]),
        forall|k: int| 0 <= k < gs.len() ==> (#[trigger] gs[k])[0].len() == gs[0][0].len(),
        0 <= i < gs.len(),
        0 <= r < gs[i].len(),
        0 <= c < gs[0][0].len(),
    ensures
        vstack_s(gs)[rows_before_s(gs, i) + r][c] == gs[i][r][c],
    decreases gs.len(),
{
    lemma_vstack_dims(gs);
    assert(rows_before_s(gs, 0) == 0);
    lemma_rows_before_mono(gs, 0, i);
    if gs.len() == 1 {
    } else {
        let prefix = gs.drop_last();
        lemma_vstack_dims(prefix);
        lemma_rows_before_drop_last(gs, gs.len() - 1);
        let a = vstack_s(prefix);
        let b = gs.last();
        assert(vstack_s(gs) == a + b);
        assert(a.len() == rows_before_s(gs, gs.len() - 1));
        if i == gs.len() - 1 {
            assert((a + b)[rows_before_s(gs, i) + r] == b[r]);
        } else {
            lemma_vstack_block(prefix, i, r, c);
            lemma_rows_before_drop_last(gs, i);
            lemma_rows_before_mono(prefix, 0, i);
            lemma_rows_before_mono(prefix, i + 1, prefix.len() as int);
            let off = rows_before_s(prefix, i);
            assert(rows_before_s(prefix, i + 1) == off + prefix[i].len());
            assert(off + r < a.len());
            assert((a + b)[off + r] == a[off + r]);
        }
    }
}

/// In a block-diagonal assembly, block `i` reappears unchanged at its
/// diagonal position.
pub proof fn lemma_block_diag_block(gs: Seq<Seq<Seq<i64>>>, i: int, r: int, c: int)
    requires
        gs.len() >= 1,
        forall|k: int| 0 <= k < gs.len() ==> is_grid(#[trigger] gs[k]),
        0 <= i < gs.len(),
        0 <= r < gs[i].len(),
        0 <= c < gs[i][0].len(),
    ensures
        block_diag_s(gs)[rows_before_s(gs, i) + r][cols_before_s(gs, i) + c] == gs[i][r][c],
    decreases gs.len(),
{
    lemma_block_diag_dims(gs);
    assert(rows_before_s(gs, 0) == 0);
    assert(cols_before_s(gs, 0) == 0);
    lemma_rows_before_mono(gs, 0, i);
    lemma_cols_before_mono(gs, 0, i);
    if gs.len() == 1 {
    } else {
        let prefix = gs.drop_last();
        lemma_block_diag_dims(prefix);
        lemma_rows_before_drop_last(gs, gs.len() - 1);
        lemma_cols_before_drop_last(gs, gs.len() - 1);
        let a = block_diag_s(prefix);
        let b = gs.last();
        assert(block_diag_s(gs) == corner_s(a, b));
        assert(a.len() == rows_before_s(gs, gs.len() - 1));
        assert(a[0].len() == cols_before_s(gs, gs.len() - 1));
        if i == gs.len() - 1 {
            let rr = rows_before_s(gs, i) + r;
            let cc = cols_before_s(gs, i) + c;
            assert(corner_s(a, b)[rr] == zero_row_s(a[0].len() as int) + b[rr - a.len()]);
            assert((zero_row_s(a[0].len() as int) + b[r])[cc] == b[r][cc - a[0].len()]);
        } else {
            lemma_block_diag_block(prefix, i, r, c);
            lemma_rows_before_drop_last(gs, i);
            lemma_cols_before_drop_last(gs, i);
            lemma_rows_before_mono(prefix, 0, i);
            lemma_cols_before_mono(prefix, 0, i);
            lemma_rows_before_mono(prefix, i + 1, prefix.len() as int);
            lemma_cols_before_mono(prefix, i + 1, prefix.len() as int);
            let rr = rows_before_s(prefix, i) + r;
            let cc = cols_before_s(prefix, i) + c;
            assert(rows_before_s(prefix, i + 1) == rows_before_s(prefix, i) + prefix[i].len());
            assert(cols_before_s(prefix, i + 1) == cols_before_s(prefix, i) + prefix[i][0].len());
            assert(rr < a.len());
            assert(a[rr].len() == a[0].len());
            assert(corner_s(a, b)[rr] == a[rr] + zero_row_s(b[0].len() as int));
            assert((a[rr] + zero_row_s(b[0].len() as int))[cc] == a[rr][cc]);
        }
    }
}

/// In a block-diagonal assembly, every entry in the row range of block
/// `i` but outside its column range is zero.
pub proof fn lemma_block_diag_zero(gs: Seq<Seq<Seq<i64>>>, i: int, r: int, c: int)
    requires
        gs.len() >= 1,
        forall|k: int| 0 <= k < gs.len() ==> is_grid(#[trigger] gs[k]),
        0 <= i < gs.len(),
        rows_before_s(gs, i) <= r < rows_before_s(gs, i + 1),
        0 <= c < cols_before_s(gs, gs.len() as int),
        !(cols_before_s(gs, i) <= c < cols_before_s(gs, i + 1)),
    ensures
        block_diag_s(gs)[r][c] == 0i64,
    decreases gs.len(),
{
    lemma_block_diag_dims(gs);
    assert(rows_before_s(gs, 0) == 0);
    assert(cols_before_s(gs, 0) == 0);
    lemma_rows_before_mono(gs, 0, i);
    lemma_rows_before_mono(gs, i + 1, gs.len() as int);
    lemma_cols_before_mono(gs, 0, i);
    lemma_cols_before_mono(gs, i + 1, gs.len() as int);
    if gs.len() == 1 {
    } else {
        let prefix = gs.drop_last();
        lemma_block_diag_dims(prefix);
        lemma_rows_before_drop_last(gs, gs.len() - 1);
        lemma_cols_before_drop_last(gs, gs.len() - 1);
        let a = block_diag_s(prefix);
        let b = gs.last();
        assert(block_diag_s(gs) == corner_s(a, b));
        assert(a.len() == rows_before_s(gs, gs.len() - 1));
        assert(a[0].len() == cols_before_s(gs, gs.len() - 1));
        if i == gs.len() - 1 {
            assert(c < cols_before_s(gs, gs.len() - 1));
            assert(corner_s(a, b)[r] == zero_row_s(a[0].len() as int) + b[r - a.len()]);
            assert((zero_row_s(a[0].len() as int) + b[r - a.len()])[c] == zero_row_s(
                a[0].len() as int,
            )[c]);
        } else {
            lemma_rows_before_drop_last(gs, i);
            lemma_rows_before_drop_last(gs, i + 1);
            lemma_rows_before_mono(prefix, i + 1, prefix.len() as int);
            assert(r < a.len());
            assert(a[r].len() == a[0].len());
            assert(corner_s(a, b)[r] == a[r] + zero_row_s(b[0].len() as int));
            if c < cols_before_s(gs, gs.len() - 1) {
                lemma_cols_before_drop_last(gs, i);
                lemma_cols_before_drop_last(gs, i + 1);
                lemma_block_diag_zero(prefix, i, r, c);
                assert((a[r] + zero_row_s(b[0].len() as int))[c] == a[r][c]);
            } else {
                assert((a[r] + zero_row_s(b[0].len() as int))[c] == zero_row_s(
                    b[0].len() as int,
                )[c - a[0].len()]);
            }
        }
    }
}

/// Slicing a tiling back into its grid of blocks reproduces the
/// original matrix in every block.
pub proof fn lemma_tile_round_trip(g: Seq<Seq<i64>>, v: int, h: int, bi: int, bj: int, r: int, c: int)
    requires
        is_grid(g),
        1 <= v,
        1 <= h,
        0 <= bi < v,
        0 <= bj < h,
        0 <= r < g.len(),
        0 <= c < g[0].len(),
    ensures
        tile_s(g, v, h)[bi * g.len() + r][bj * g[0].len() + c] == g[r][c],
{
    let n = g.len() as int;
    let w = g[0].len() as int;
    assert(0 <= bi * n + r < v * n && 0 <= bj * w + c < h * w) by (nonlinear_arith)
        requires
            0 <= bi < v,
            0 <= bj < h,
            0 <= r < n,
            0 <= c < w,
    ;
    vstd::arithmetic::div_mod::lemma_mod_multiples_vanish(bi, r, n);
    vstd::arithmetic::div_mod::lemma_small_mod(r as nat, n as nat);
    vstd::arithmetic::div_mod::lemma_mod_multiples_vanish(bj, c, w);
    vstd::arithmetic::div_mod::lemma_small_mod(c as nat, w as nat);
    assert((bi * n + r) % n == r);
    assert((bj * w + c) % w == c);
}

/// Two strictly increasing sequences with the same members are equal.
proof fn lemma_increasing_same_members(s1: Seq<usize>, s2: Seq<usize>)
    requires
        forall|k1: int, k2: int| 0 <= k1 < k2 < s1.len() ==> s1[k1] < s1[k2],
        forall|k1: int, k2: int| 0 <= k1 < k2 < s2.len() ==> s2[k1] < s2[k2],
        forall|r: usize| s1.contains(r) <==> s2.contains(r),
    ensures
        s1 == s2,
    decreases s1.len(),
{
    if s1.len() == 0 {
        if s2.len() > 0 {
            assert(s2.contains(s2[0]));
            assert(s1.contains(s2[0]));
        }
        assert(s1 =~= s2);
    } else {
        assert(s1.contains(s1[0]));
        assert(s2.contains(s1[0]));
        assert(s2.len() > 0);
        assert(s2.contains(s2[0]));
        assert(s1.contains(s2[0]));
        let k1 = choose|k: int| 0 <= k < s2.len() && s2[k] == s1[0];
        let k2 = choose|k: int| 0 <= k < s1.len() && s1[k] == s2[0];
        assert(s2[0] <= s2[k1]);
        assert(s1[0] <= s1[k2]);
        assert(s1[0] == s2[0]);
        let t1 = s1.drop_first();
        let t2 = s2.drop_first();
        assert forall|r: usize| t1.contains(r) implies t2.contains(r) by {
            let k = choose|k: int| 0 <= k < t1.len() && t1[k] == r;
            assert(s1[k + 1] == r);
            assert(s1[0] < r);
            assert(s1.contains(r));
            assert(s2.contains(r));
            let m = choose|m: int| 0 <= m < s2.len() && s2[m] == r;
            assert(m != 0);
            assert(t2[m - 1] == r);
        }
        assert forall|r: usize| t2.contains(r) implies t1.contains(r) by {
            let k = choose|k: int| 0 <= k < t2.len() && t2[k] == r;
            assert(s2[k + 1] == r);
            assert(s2[0] < r);
            assert(s2.contains(r));
            assert(s1.contains(r));
            let m = choose|m: int| 0 <= m < s1.len() && s1[m] == r;
            assert(m != 0);
            assert(t1[m - 1] == r);
        }
        lemma_increasing_same_members(t1, t2);
        assert forall|k: int| 0 <= k < s1.len() implies s1[k] == s2[k] by {
            if k > 0 {
                assert(t1[k - 1] == s1[k]);
                assert(t2[k - 1] == s2[k]);
            }
        }
        assert(s1 =~= s2);
    }
}

/// Up to any column boundary, two sparse forms of one grid agree.
proof fn lemma_csc_unique_prefix(c1: CscMatrix, c2: CscMatrix, g: Seq<Seq<i64>>, j: int)
    requires
        is_grid(g),
        csc_matches(c1, g),
        csc_matches(c2, g),
        0 <= j <= g[0].len(),
    ensures
        c1.indptr@[j] == c2.indptr@[j],
        c1.indptr@[j] as int <= c1.indices@.len(),
        c1.indices@.take(c1.indptr@[j] as int) == c2.indices@.take(c2.indptr@[j] as int),
        c1.data@.take(c1.indptr@[j] as int) == c2.data@.take(c2.indptr@[j] as int),
    decreases j,
{
    if j == 0 {
        assert(csc_col_ok(c1.indptr@, c1.indices@, c1.data@, g, 0));
        assert(c1.indices@.take(0) =~= c2.indices@.take(0));
        assert(c1.data@.take(0) =~= c2.data@.take(0));
    } else {
        lemma_csc_unique_prefix(c1, c2, g, j - 1);
        assert(csc_col_ok(c1.indptr@, c1.indices@, c1.data@, g, j - 1));
        assert(csc_col_ok(c2.indptr@, c2.indices@, c2.data@, g, j - 1));
        let lo = c1.indptr@[j - 1] as int;
        let hi1 = c1.indptr@[j] as int;
        let hi2 = c2.indptr@[j] as int;
        if j < g[0].len() {
            lemma_indptr_within(c1, g, j);
            lemma_indptr_within(c2, g, j);
        }
        let s1 = c1.indices@.subrange(lo, hi1);
        let s2 = c2.indices@.subrange(lo, hi2);
        assert forall|r: usize| s1.contains(r) implies 0 <= r < g.len() && g[r as int][j - 1]
            != 0 by {
            let k = choose|k: int| 0 <= k < s1.len() && s1[k] == r;
            assert(c1.indices@[lo + k] == r);
            assert(c1.data@[lo + k] == g[r as int][j - 1] && c1.data@[lo + k] != 0);
        }
        assert forall|r: usize| 0 <= r < g.len() && g[r as int][j - 1] != 0 implies s1.contains(
            r,
        ) by {
            let k = choose|k: int| lo <= k < hi1 && c1.indices@[k] == r;
            assert(s1[k - lo] == r);
        }
        assert forall|r: usize| s2.contains(r) implies 0 <= r < g.len() && g[r as int][j - 1]
            != 0 by {
            let k = choose|k: int| 0 <= k < s2.len() && s2[k] == r;
            assert(c2.indices@[lo + k] == r);
            assert(c2.data@[lo + k] == g[r as int][j - 1] && c2.data@[lo + k] != 0);
        }
        assert forall|r: usize| 0 <= r < g.len() && g[r as int][j - 1] != 0 implies s2.contains(
            r,
        ) by {
            let k = choose|k: int| lo <= k < hi2 && c2.indices@[k] == r;
            assert(s2[k - lo] == r);
        }
        assert forall|k1: int, k2: int| 0 <= k1 < k2 < s1.len() implies s1[k1] < s1[k2] by {
            assert(c1.indices@[lo + k1] == s1[k1]);
            assert(c1.indices@[lo + k2] == s1[k2]);
        }
        assert forall|k1: int, k2: int| 0 <= k1 < k2 < s2.len() implies s2[k1] < s2[k2] by {
            assert(c2.indices@[lo + k1] == s2[k1]);
            assert(c2.indices@[lo + k2] == s2[k2]);
        }
        assert forall|r: usize| s1.contains(r) <==> s2.contains(r) by {}
        lemma_increasing_same_members(s1, s2);
        assert(hi1 == hi2);
        assert(c1.indices@.take(hi1) =~= c2.indices@.take(hi2)) by {
            assert forall|k: int| 0 <= k < hi1 implies c1.indices@[k] == c2.indices@[k] by {
                if k < lo {
                    assert(c1.indices@.take(lo)[k] == c2.indices@.take(lo)[k]);
                } else {
                    assert(s1[k - lo] == s2[k - lo]);
                }
            }
        }
        assert(c1.data@.take(hi1) =~= c2.data@.take(hi2)) by {
            assert forall|k: int| 0 <= k < hi1 implies c1.data@[k] == c2.data@[k] by {
                if k < lo {
                    assert(c1.data@.take(lo)[k] == c2.data@.take(lo)[k]);
                } else {
                    assert(s1[k - lo] == c1.indices@[k]);
                    assert(s2[k - lo] == c2.indices@[k]);
                    assert(c1.indices@[k] == c2.indices@[k]);
                    assert(c1.data@[k] == g[c1.indices@[k] as int][j - 1]);
                    assert(c2.data@[k] == g[c2.indices@[k] as int][j - 1]);
                }
            }
        }
    }
}

/// Every column boundary sits at or before the end of the entry
/// arrays.
proof fn lemma_indptr_within(c: CscMatrix, g: Seq<Seq<i64>>, j: int)
    requires
        is_grid(g),
        csc_matches(c, g),
        0 <= j <= g[0].len(),
    ensures
        c.indptr@[j] as int <= c.indices@.len(),
    decreases g[0].len() - j,
{
    if j == g[0].len() {
    } else {
        assert(csc_col_ok(c.indptr@, c.indices@, c.data@, g, j));
        lemma_indptr_within(c, g, j + 1);
    }
}

/// The compressed-sparse-column form of a grid is unique: two sparse
/// matrices that both encode one grid are equal, field for field.
pub proof fn lemma_csc_unique(c1: CscMatrix, c2: CscMatrix, g: Seq<Seq<i64>>)
    requires
        is_grid(g),
        csc_matches(c1, g),
        csc_matches(c2, g),
    ensures
        c1.nrows == c2.nrows,
        c1.ncols == c2.ncols,
        c1.indptr@ == c2.indptr@,
        c1.indices@ == c2.indices@,
        c1.data@ == c2.data@,
{
    let w = g[0].len() as int;
    assert forall|j: int| 0 <= j < c1.indptr@.len() implies c1.indptr@[j] == c2.indptr@[j] by {
        lemma_csc_unique_prefix(c1, c2, g, j);
    }
    assert(c1.indptr@ =~= c2.indptr@);
    lemma_csc_unique_prefix(c1, c2, g, w);
    assert(c1.indices@.take(c1.indices@.len() as int) =~= c1.indices@);
    assert(c2.indices@.take(c2.indices@.len() as int) =~= c2.indices@);
    assert(c1.data@.take(c1.data@.len() as int) =~= c1.data@);
    assert(c2.data@.take(c2.data@.len() as int) =~= c2.data@);
}

/// Builds a matrix from explicit rows.
pub fn into_dynamic(entries: &Vec<Vec<i64>>) -> (m: Matrix)
    requires
        entries@.len() >= 1,
        entries@[0]@.len() >= 1,
        entries@.len() * entries@[0]@.len() <= usize::MAX,
        forall|i: int|
            0 <= i < entries@.len() ==> (#[trigger] entries@[i])@.len() == entries@[0]@.len(),
    ensures
        m.wf(),
        is_grid(m@),
        m@.len() == entries@.len(),
        m@[0].len() == entries@[0]@.len(),
        forall|r: int, c: int|
            0 <= r < entries@.len() && 0 <= c < entries@[0]@.len() ==> #[trigger] m@[r][c]
                == entries@[r]@[c],
{
    let rows = entries.len();
    let cols = entries[0].len();
    let f = |r: usize, c: usize| -> (v: i64)
        requires
            r < entries@.len(),
            c < entries@[0]@.len(),
        ensures
            v == entries@[r as int]@[c as int],
        { entries[r][c] };
    build_matrix(rows, cols, f)
}

} // verus!
