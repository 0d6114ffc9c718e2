//! Tests of the dense-matrix assembly utilities and the sparse
//! conversion.

use unicycle_mpc::fixed::FX_ONE;
use unicycle_mpc::math::diagonal_block_matrix;
use unicycle_mpc::math::horizontal_stack;
use unicycle_mpc::math::identity;
use unicycle_mpc::math::into_dynamic;
use unicycle_mpc::math::into_sparse;
use unicycle_mpc::math::tile;
use unicycle_mpc::math::vertical_stack;
use unicycle_mpc::math::zeros;
use unicycle_mpc::math::Matrix;

fn mat(rows: &[&[i64]]) -> Matrix {
    let mut v: Vec<Vec<i64>> = Vec::new();
    for r in rows {
        v.push(r.to_vec());
    }
    into_dynamic(&v)
}

fn entries(m: &Matrix) -> Vec<Vec<i64>> {
    let mut v: Vec<Vec<i64>> = Vec::new();
    for r in 0..m.nrows() {
        let mut row: Vec<i64> = Vec::new();
        for c in 0..m.ncols() {
            row.push(m.get(r, c));
        }
        v.push(row);
    }
    v
}

#[test]
fn into_dynamic_keeps_every_entry() {
    let m = mat(&[&[1, 2, 3], &[4, 5, 6]]);
    assert_eq!(m.nrows(), 2);
    assert_eq!(m.ncols(), 3);
    assert_eq!(entries(&m), vec![vec![1, 2, 3], vec![4, 5, 6]]);
}

#[test]
fn zeros_and_identity_have_expected_entries() {
    let z = zeros(2, 3);
    assert_eq!(entries(&z), vec![vec![0, 0, 0], vec![0, 0, 0]]);
    let i = identity(2);
    assert_eq!(entries(&i), vec![vec![FX_ONE, 0], vec![0, FX_ONE]]);
}

#[test]
fn block_diagonal_assembles_blocks_and_zeros() {
    // Sizes (1, 2) and (2, 1): the result must be 3 by 3, the blocks
    // bit-for-bit on the diagonal, zero elsewhere.
    let a = mat(&[&[7, 8]]);
    let b = mat(&[&[9], &[10]]);
    let d = diagonal_block_matrix(&vec![a, b]);
    assert_eq!(
        entries(&d),
        vec![vec![7, 8, 0], vec![0, 0, 9], vec![0, 0, 10]]
    );
}

#[test]
fn block_diagonal_of_three_blocks() {
    let a = mat(&[&[1]]);
    let b = mat(&[&[2, 3], &[4, 5]]);
    let c = mat(&[&[6]]);
    let d = diagonal_block_matrix(&vec![a, b, c]);
    assert_eq!(
        entries(&d),
        vec![
            vec![1, 0, 0, 0],
            vec![0, 2, 3, 0],
            vec![0, 4, 5, 0],
            vec![0, 0, 0, 6],
        ]
    );
}

#[test]
fn tile_round_trip_reproduces_every_block() {
    let m = mat(&[&[1, 2], &[3, 4]]);
    let t = tile(&m, 2, 3);
    assert_eq!(t.nrows(), 4);
    assert_eq!(t.ncols(), 6);
    for bi in 0..2 {
        for bj in 0..3 {
            for r in 0..2 {
                for c in 0..2 {
                    assert_eq!(t.get(bi * 2 + r, bj * 2 + c), m.get(r, c));
                }
            }
        }
    }
}

#[test]
fn horizontal_stack_concatenates_columns() {
    let a = mat(&[&[1], &[4]]);
    let b = mat(&[&[2, 3], &[5, 6]]);
    let h = horizontal_stack(&vec![a, b]);
    assert_eq!(entries(&h), vec![vec![1, 2, 3], vec![4, 5, 6]]);
}

#[test]
fn vertical_stack_concatenates_rows() {
    let a = mat(&[&[1, 2]]);
    let b = mat(&[&[3, 4], &[5, 6]]);
    let v = vertical_stack(&vec![a, b]);
    assert_eq!(entries(&v), vec![vec![1, 2], vec![3, 4], vec![5, 6]]);
}

#[test]
fn matmul_matches_hand_computation() {
    // [[1, 2], [3, 4]] * [[5, 6], [7, 8]] == [[19, 22], [43, 50]]
    let a = mat(&[&[1_000_000, 2_000_000], &[3_000_000, 4_000_000]]);
    let b = mat(&[&[5_000_000, 6_000_000], &[7_000_000, 8_000_000]]);
    let p = a.matmul(&b);
    assert_eq!(
        entries(&p),
        vec![
            vec![19_000_000, 22_000_000],
            vec![43_000_000, 50_000_000],
        ]
    );
}

#[test]
fn matmul_by_identity_is_exact() {
    let a = mat(&[&[123, -456], &[789_123, -1]]);
    let i = identity(2);
    assert_eq!(entries(&a.matmul(&i)), entries(&a));
    assert_eq!(entries(&i.matmul(&a)), entries(&a));
}

#[test]
fn transpose_swaps_indices() {
    let a = mat(&[&[1, 2, 3], &[4, 5, 6]]);
    let t = a.transpose();
    assert_eq!(entries(&t), vec![vec![1, 4], vec![2, 5], vec![3, 6]]);
}

#[test]
fn mat_sub_and_scale_work_entrywise() {
    let a = mat(&[&[5_000_000, 1_000_000]]);
    let b = mat(&[&[2_000_000, 4_000_000]]);
    let d = a.mat_sub(&b);
    assert_eq!(entries(&d), vec![vec![3_000_000, -3_000_000]]);
    let s = a.scale(2_000_000);
    assert_eq!(entries(&s), vec![vec![10_000_000, 2_000_000]]);
}

#[test]
fn upper_triangle_zeroes_below_the_diagonal() {
    let a = mat(&[&[1, 2, 3], &[4, 5, 6], &[7, 8, 9]]);
    let u = a.upper_triangle();
    assert_eq!(
        entries(&u),
        vec![vec![1, 2, 3], vec![0, 5, 6], vec![0, 0, 9]]
    );
}

#[test]
fn column_extracts_one_column() {
    let a = mat(&[&[1, 2], &[3, 4], &[5, 6]]);
    let c = a.column(1);
    assert_eq!(entries(&c), vec![vec![2], vec![4], vec![6]]);
}

#[test]
fn as_row_and_as_col_flatten() {
    let r = mat(&[&[9, 8, 7]]);
    assert_eq!(r.as_row(), vec![9, 8, 7]);
    let c = mat(&[&[1], &[2], &[3]]);
    assert_eq!(c.as_col(), vec![1, 2, 3]);
}

#[test]
fn into_sparse_drops_zeros_and_reconstructs() {
    let m = mat(&[&[1, 0, 2], &[0, 0, 3], &[4, 0, 0]]);
    let s = into_sparse(&m);
    assert_eq!(s.nrows, 3);
    assert_eq!(s.ncols, 3);
    assert_eq!(s.indptr, vec![0, 2, 2, 4]);
    assert_eq!(s.indices, vec![0, 2, 0, 1]);
    assert_eq!(s.data, vec![1, 4, 2, 3]);
    // Reconstruct the dense matrix from the sparse form.
    let mut dense = vec![vec![0i64; 3]; 3];
    for c in 0..s.ncols {
        for k in s.indptr[c]..s.indptr[c + 1] {
            dense[s.indices[k]][c] = s.data[k];
        }
    }
    assert_eq!(dense, entries(&m));
}

#[test]
fn into_sparse_of_all_zero_matrix_is_empty() {
    let m = zeros(2, 2);
    let s = into_sparse(&m);
    assert_eq!(s.indptr, vec![0, 0, 0]);
    assert_eq!(s.indices, Vec::<usize>::new());
    assert_eq!(s.data, Vec::<i64>::new());
}
