use full_pivoting::compute::{lu_in_place, lu_in_place_req, lu_in_place_unblocked};
use full_pivoting::permutation::{permutation_from_transpositions, PermutationIndicesRef};
use full_pivoting::scratch::SizeOverflow;
use full_pivoting::solve::Parallelism;
use full_pivoting::view::MatView;
use rand::random;
use rand::rngs::StdRng;
use rand::{Rng, SeedableRng};

fn inv(x: u64) -> u64 {
    (1.0 / f64::from_bits(x)).to_bits()
}

fn times(a: u64, b: u64) -> u64 {
    (f64::from_bits(a) * f64::from_bits(b)).to_bits()
}

fn mul_add(a: u64, b: u64, c: u64) -> u64 {
    f64::from_bits(a).mul_add(f64::from_bits(b), f64::from_bits(c)).to_bits()
}

fn bits(values: &[f64]) -> Vec<u64> {
    values.iter().map(|x| x.to_bits()).collect()
}

fn floats(patterns: &[u64]) -> Vec<f64> {
    patterns.iter().map(|x| f64::from_bits(*x)).collect()
}

struct Factored {
    data: Vec<f64>,
    row_perm: Vec<usize>,
    row_perm_inv: Vec<usize>,
    col_perm: Vec<usize>,
    col_perm_inv: Vec<usize>,
    n_transpositions: usize,
}

fn factor(view: MatView, values: &[f64], lane_count: usize) -> Factored {
    let mut buf = bits(values);
    let mut row_perm = vec![0usize; view.nrows];
    let mut row_perm_inv = vec![0usize; view.nrows];
    let mut col_perm = vec![0usize; view.ncols];
    let mut col_perm_inv = vec![0usize; view.ncols];
    let mut scratch = vec![usize::MAX; view.nrows + view.ncols];
    let n_transpositions = lu_in_place(
        &mut buf,
        view,
        &mut row_perm,
        &mut row_perm_inv,
        &mut col_perm,
        &mut col_perm_inv,
        lane_count,
        &inv,
        &times,
        &mul_add,
        &mut scratch,
    );
    Factored {
        data: floats(&buf),
        row_perm,
        row_perm_inv,
        col_perm,
        col_perm_inv,
        n_transpositions,
    }
}

fn at(view: MatView, data: &[f64], i: usize, j: usize) -> f64 {
    let p = view.offset as isize + i as isize * view.row_stride + j as isize * view.col_stride;
    data[p as usize]
}

/// Entry `(i, j)` of the product of the unit lower and the upper factor.
fn reconstructed(view: MatView, lu: &[f64], i: usize, j: usize) -> f64 {
    let size = view.nrows.min(view.ncols);
    let mut sum = 0.0;
    for k in 0..size {
        let l = if k < i {
            at(view, lu, i, k)
        } else if k == i {
            1.0
        } else {
            0.0
        };
        let u = if k <= j { at(view, lu, k, j) } else { 0.0 };
        sum += l * u;
    }
    sum
}

/// The largest difference between an entry of the permuted given and the
/// same entry of the product of the factors.
fn reconstruction_error(view: MatView, given: &[f64], f: &Factored) -> f64 {
    let mut worst: f64 = 0.0;
    for i in 0..view.nrows {
        for j in 0..view.ncols {
            let want = at(view, given, f.row_perm[i], f.col_perm[j]);
            let got = reconstructed(view, &f.data, i, j);
            worst = worst.max((want - got).abs());
        }
    }
    worst
}

fn random_values(len: usize) -> Vec<f64> {
    (0..len).map(|_| random::<f64>()).collect()
}

/// Uniform values in `[0, 1)`, the same on every run.
fn seeded_values(seed: u64, len: usize) -> Vec<f64> {
    let mut rng = StdRng::seed_from_u64(seed);
    (0..len).map(|_| rng.gen::<f64>()).collect()
}

fn is_inverse_pair(p: &[usize], q: &[usize]) -> bool {
    p.len() == q.len()
        && (0..p.len()).all(|i| p[i] < p.len() && q[p[i]] == i)
        && (0..q.len()).all(|j| q[j] < q.len() && p[q[j]] == j)
}

#[test]
fn compute_lu() {
    for (m, n) in [
        (2, 2),
        (4, 2),
        (2, 1),
        (4, 4),
        (20, 20),
        (20, 2),
        (2, 4),
        (2, 20),
        (40, 20),
        (20, 40),
    ] {
        let view = MatView::col_major(m, n).unwrap();
        let given = random_values(m * n);
        let f = factor(view, &given, 1);
        for i in 0..m {
            for j in 0..n {
                let want = at(view, &given, f.row_perm[i], f.col_perm[j]);
                let got = reconstructed(view, &f.data, i, j);
                assert!((want - got).abs() < 1.0e-6);
            }
        }
    }
}

#[test]
fn two_by_two_brings_the_largest_entry_to_the_corner() {
    // [[1, 2], [3, 4]], column after column
    let view = MatView::col_major(2, 2).unwrap();
    for lane_count in [1, 2, 4, 8] {
        let f = factor(view, &[1.0, 3.0, 2.0, 4.0], lane_count);
        assert_eq!(f.n_transpositions, 2);
        assert_eq!(f.row_perm, vec![1, 0]);
        assert_eq!(f.col_perm, vec![1, 0]);
        assert_eq!(f.row_perm_inv, vec![1, 0]);
        assert_eq!(f.col_perm_inv, vec![1, 0]);
        // L = [[1, 0], [0.5, 1]], U = [[4, 3], [0, -0.5]]
        assert_eq!(f.data, vec![4.0, 0.5, 3.0, -0.5]);
        assert_eq!(reconstruction_error(view, &[1.0, 3.0, 2.0, 4.0], &f), 0.0);
    }
}

#[test]
fn two_by_two_records_its_pivots() {
    let view = MatView::col_major(2, 2).unwrap();
    let mut buf = bits(&[1.0, 3.0, 2.0, 4.0]);
    let mut rows = vec![0usize, 1];
    let mut cols = vec![0usize, 1];
    let n = lu_in_place_unblocked(&mut buf, view, &mut rows, &mut cols, 2, &inv, &times, &mul_add);
    assert_eq!(n, 2);
    assert_eq!(rows, vec![1, 1]);
    assert_eq!(cols, vec![1, 1]);
}

#[test]
fn single_column_exchanges_rows_only() {
    let view = MatView::col_major(2, 1).unwrap();
    let mut buf = bits(&[0.0, 5.0]);
    let mut rows = vec![0usize, 1];
    let mut cols = vec![0usize];
    let n = lu_in_place_unblocked(&mut buf, view, &mut rows, &mut cols, 4, &inv, &times, &mul_add);
    assert_eq!(n, 1);
    assert_eq!(rows, vec![1, 1]);
    assert_eq!(cols, vec![0]);
    // U = [[5]], and below it the multiplier 0 / 5
    assert_eq!(floats(&buf), vec![5.0, 0.0]);
}

#[test]
fn tall_random_matrix_is_reconstructed() {
    let (m, n) = (40, 20);
    let view = MatView::col_major(m, n).unwrap();
    for lane_count in [1, 2, 4, 8] {
        let given = seeded_values(1, m * n);
        let f = factor(view, &given, lane_count);
        assert!(reconstruction_error(view, &given, &f) < 1.0e-12);
    }
}

#[test]
fn identity_needs_no_exchange() {
    let n = 10;
    let mut values = vec![0.0; n * n];
    for i in 0..n {
        values[i + i * n] = 1.0;
    }
    let view = MatView::col_major(n, n).unwrap();
    let f = factor(view, &values, 4);
    assert_eq!(f.n_transpositions, 0);
    assert_eq!(f.data, values);
    assert_eq!(f.row_perm, (0..n).collect::<Vec<_>>());
    assert_eq!(f.col_perm, (0..n).collect::<Vec<_>>());
}

#[test]
fn singular_matrix_ends_in_a_zero_pivot() {
    let n = 5;
    let mut values = seeded_values(2, n * n);
    for i in 0..n {
        values[i + 4 * n] = values[i];
    }
    let view = MatView::col_major(n, n).unwrap();
    let f = factor(view, &values, 4);
    for k in 0..4 {
        assert!(at(view, &f.data, k, k).abs() > 1.0e-8);
    }
    assert!(at(view, &f.data, 4, 4).abs() < 1.0e-14);
}

#[test]
fn equal_entries_keep_the_first() {
    let view = MatView::col_major(4, 4).unwrap();
    for lane_count in [1, 2, 4, 8] {
        let mut buf = bits(&[1.0; 16]);
        let mut rows: Vec<usize> = (0..4).collect();
        let mut cols: Vec<usize> = (0..4).collect();
        lu_in_place_unblocked(
            &mut buf,
            view,
            &mut rows,
            &mut cols,
            lane_count,
            &inv,
            &times,
            &mul_add,
        );
        assert_eq!(rows[0], 0);
        assert_eq!(cols[0], 0);
    }
}

#[test]
fn empty_matrix_touches_nothing() {
    for (m, n) in [(0, 3), (3, 0), (0, 0)] {
        let view = MatView::col_major(m, n).unwrap();
        let mut buf = bits(&[7.0, 8.0]);
        let mut rows = vec![9usize; m];
        let mut cols = vec![9usize; n];
        let count =
            lu_in_place_unblocked(&mut buf, view, &mut rows, &mut cols, 4, &inv, &times, &mul_add);
        assert_eq!(count, 0);
        assert_eq!(floats(&buf), vec![7.0, 8.0]);
        assert_eq!(rows, vec![9usize; m]);
        assert_eq!(cols, vec![9usize; n]);
    }
}

#[test]
fn empty_matrix_has_identity_permutations() {
    let view = MatView::col_major(0, 3).unwrap();
    let f = factor(view, &[], 4);
    assert_eq!(f.n_transpositions, 0);
    assert_eq!(f.col_perm, vec![0, 1, 2]);
    assert_eq!(f.col_perm_inv, vec![0, 1, 2]);
    assert!(f.row_perm.is_empty());
}

#[test]
fn permutations_are_inverse_pairs() {
    for (m, n) in [(7, 7), (12, 5), (5, 12), (1, 1)] {
        let view = MatView::col_major(m, n).unwrap();
        let f = factor(view, &seeded_values(3, m * n), 4);
        assert!(is_inverse_pair(&f.row_perm, &f.row_perm_inv));
        assert!(is_inverse_pair(&f.col_perm, &f.col_perm_inv));
        assert!(PermutationIndicesRef::new_checked(&f.row_perm, &f.row_perm_inv).is_some());
        assert!(PermutationIndicesRef::new_checked(&f.col_perm, &f.col_perm_inv).is_some());
    }
}

#[test]
fn every_pivot_outweighs_its_row() {
    let (m, n) = (9, 13);
    let view = MatView::col_major(m, n).unwrap();
    let f = factor(view, &seeded_values(4, m * n), 8);
    for k in 0..m.min(n) {
        for j in k..n {
            assert!(at(view, &f.data, k, j).abs() <= at(view, &f.data, k, k).abs());
        }
    }
}

#[test]
fn lane_count_does_not_change_the_factors() {
    let (m, n) = (23, 17);
    let view = MatView::col_major(m, n).unwrap();
    let given = seeded_values(5, m * n);
    let reference = factor(view, &given, 1);
    for lane_count in [2, 4, 8, 3] {
        let f = factor(view, &given, lane_count);
        assert_eq!(bits(&f.data), bits(&reference.data));
        assert_eq!(f.row_perm, reference.row_perm);
        assert_eq!(f.col_perm, reference.col_perm);
        assert_eq!(f.n_transpositions, reference.n_transpositions);
    }
}

#[test]
fn row_major_matrix_is_reconstructed() {
    let (m, n) = (11, 14);
    let view = MatView::row_major(m, n).unwrap();
    let given = seeded_values(6, m * n);
    let f = factor(view, &given, 4);
    assert!(reconstruction_error(view, &given, &f) < 1.0e-12);
}

#[test]
fn row_major_ties_go_to_the_first_row() {
    // [[1, 2, 1], [2, 1, 2]]: with contiguous rows, (0, 1) is met before (1, 0)
    let view = MatView::row_major(2, 3).unwrap();
    let mut buf = bits(&[1.0, 2.0, 1.0, 2.0, 1.0, 2.0]);
    let mut rows = vec![0usize, 1];
    let mut cols = vec![0usize, 1, 2];
    lu_in_place_unblocked(&mut buf, view, &mut rows, &mut cols, 4, &inv, &times, &mul_add);
    assert_eq!((rows[0], cols[0]), (0, 1));

    // the same entries with contiguous columns: (1, 0) is met first
    let view = MatView::col_major(2, 3).unwrap();
    let mut buf = bits(&[1.0, 2.0, 2.0, 1.0, 1.0, 2.0]);
    let mut rows = vec![0usize, 1];
    let mut cols = vec![0usize, 1, 2];
    lu_in_place_unblocked(&mut buf, view, &mut rows, &mut cols, 4, &inv, &times, &mul_add);
    assert_eq!((rows[0], cols[0]), (1, 0));
}

#[test]
fn strided_matrix_is_reconstructed_and_its_gaps_are_kept() {
    // every second element of every second run
    let (m, n) = (6, 5);
    let len = 2 * m * 2 * n + 3;
    let view = MatView::from_parts(len, 3, m, n, 2, (4 * m) as isize).unwrap();
    let given = seeded_values(7, len);
    let f = factor(view, &given, 4);
    assert!(reconstruction_error(view, &given, &f) < 1.0e-12);
    let mut covered = vec![false; len];
    for i in 0..m {
        for j in 0..n {
            covered[3 + 2 * i + 4 * m * j] = true;
        }
    }
    for p in 0..len {
        if !covered[p] {
            assert_eq!(f.data[p].to_bits(), given[p].to_bits());
        }
    }
}

#[test]
fn nan_is_never_a_pivot() {
    let view = MatView::col_major(2, 2).unwrap();
    let mut buf = bits(&[f64::NAN, 1.0, 2.0, -f64::NAN]);
    let mut rows = vec![0usize, 1];
    let mut cols = vec![0usize, 1];
    lu_in_place_unblocked(&mut buf, view, &mut rows, &mut cols, 2, &inv, &times, &mul_add);
    assert_eq!((rows[0], cols[0]), (0, 1));
}

#[test]
fn transpositions_compose_in_order() {
    let t = [2usize, 2, 3, 3];
    let mut perm = vec![0usize; 4];
    let mut perm_inv = vec![0usize; 4];
    permutation_from_transpositions(&t, &mut perm, &mut perm_inv);
    // identity, then 0 <-> 2, then 1 <-> 2, then 2 <-> 3
    assert_eq!(perm, vec![2, 0, 3, 1]);
    assert_eq!(perm_inv, vec![1, 3, 0, 2]);
}

#[test]
fn checked_permutation_refuses_what_is_no_inverse() {
    assert!(PermutationIndicesRef::new_checked(&[1, 0, 2], &[1, 0, 2]).is_some());
    assert!(PermutationIndicesRef::new_checked(&[1, 2, 0], &[1, 2, 0]).is_none());
    assert!(PermutationIndicesRef::new_checked(&[1, 2, 0], &[2, 0, 1]).is_some());
    assert!(PermutationIndicesRef::new_checked(&[0, 0], &[0, 0]).is_none());
    assert!(PermutationIndicesRef::new_checked(&[0, 3], &[0, 1]).is_none());
    assert!(PermutationIndicesRef::new_checked(&[0], &[0, 1]).is_none());
    let p = PermutationIndicesRef::new_checked(&[1, 2, 0], &[2, 0, 1]).unwrap();
    assert_eq!(p.len(), 3);
    assert_eq!(p.inverse().into_arrays().0, &[2, 0, 1]);
    assert_eq!(p.into_arrays().1, &[2, 0, 1]);
}

#[test]
fn scratch_of_a_factorization() {
    let word = std::mem::size_of::<usize>();
    assert_eq!(lu_in_place_req(3, 4, Parallelism::Sequential), Ok(7 * word));
    assert_eq!(lu_in_place_req(0, 0, Parallelism::Rayon(0)), Ok(0));
    assert_eq!(lu_in_place_req(usize::MAX, 1, Parallelism::Sequential), Err(SizeOverflow));
    assert_eq!(lu_in_place_req(usize::MAX / word, 1, Parallelism::Sequential), Err(SizeOverflow));
}

#[test]
fn first_row_of_the_upper_factor_is_a_row_of_the_matrix() {
    for (m, n, view) in [
        (7, 9, MatView::col_major(7, 9).unwrap()),
        (9, 7, MatView::row_major(9, 7).unwrap()),
        (5, 5, MatView::col_major(5, 5).unwrap()),
    ] {
        let given = seeded_values(8, m * n);
        let f = factor(view, &given, 4);
        for j in 0..n {
            let want = at(view, &given, f.row_perm[0], f.col_perm[j]);
            assert_eq!(at(view, &f.data, 0, j).to_bits(), want.to_bits());
        }
    }
}

#[test]
fn no_exchange_means_identity_permutations() {
    // a dominant diagonal that decreases: every pivot is already in place
    let n = 6;
    let mut values = vec![0.0; n * n];
    for j in 0..n {
        for i in 0..n {
            values[i + j * n] = if i == j { 100.0 - 10.0 * i as f64 } else { 0.5 };
        }
    }
    let view = MatView::col_major(n, n).unwrap();
    let f = factor(view, &values, 8);
    assert_eq!(f.n_transpositions, 0);
    assert_eq!(f.row_perm, (0..n).collect::<Vec<_>>());
    assert_eq!(f.col_perm_inv, (0..n).collect::<Vec<_>>());
    assert!(reconstruction_error(view, &values, &f) < 1.0e-12);
}
