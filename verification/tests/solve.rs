use full_pivoting::compute::lu_in_place;
use full_pivoting::permutation::PermutationIndicesRef;
use full_pivoting::scratch::SizeOverflow;
use full_pivoting::solve::{
    permute_rows, solve_in_place, solve_req, solve_to, Conj, Parallelism,
};
use full_pivoting::view::MatView;
use rand::rngs::StdRng;
use rand::{Rng, SeedableRng};

fn inv(x: u64) -> u64 {
    (1.0 / f64::from_bits(x)).to_bits()
}

fn times(a: u64, b: u64) -> u64 {
    (f64::from_bits(a) * f64::from_bits(b)).to_bits()
}

fn mul_add(a: u64, b: u64, c: u64) -> u64 {
    f64::from_bits(a).mul_add(f64::from_bits(b), f64::from_bits(c)).to_bits()
}

fn bits(values: &[f64]) -> Vec<u64> {
    values.iter().map(|x| x.to_bits()).collect()
}

fn floats(patterns: &[u64]) -> Vec<f64> {
    patterns.iter().map(|x| f64::from_bits(*x)).collect()
}

fn entry(view: MatView, buf: &[u64], i: usize, j: usize) -> f64 {
    let p = view.offset as isize + i as isize * view.row_stride + j as isize * view.col_stride;
    f64::from_bits(buf[p as usize])
}

/// Forward substitution with the unit lower triangle of `lu`, on a
/// right-hand side stored column after column.
fn solve_unit_lower(
    lu: &[u64],
    lu_view: MatView,
    _conj_lhs: Conj,
    temp: Vec<u64>,
    temp_view: MatView,
    _conj_rhs: Conj,
    _parallelism: Parallelism,
) -> Vec<u64> {
    let n = lu_view.ncols;
    let mut x = floats(&temp);
    let k = temp_view.ncols;
    assert_eq!(temp_view.nrows, n);
    assert_eq!((temp_view.offset, temp_view.row_stride), (0, 1));
    for c in 0..k {
        for j in 0..n {
            let xj = x[j + c * n];
            for i in j + 1..n {
                x[i + c * n] -= entry(lu_view, lu, i, j) * xj;
            }
        }
    }
    bits(&x)
}

/// Back substitution with the upper triangle of `lu`.
fn solve_upper(
    lu: &[u64],
    lu_view: MatView,
    _conj_lhs: Conj,
    temp: Vec<u64>,
    temp_view: MatView,
    _conj_rhs: Conj,
    _parallelism: Parallelism,
) -> Vec<u64> {
    let n = lu_view.ncols;
    let mut x = floats(&temp);
    let k = temp_view.ncols;
    assert_eq!(temp_view.nrows, n);
    assert_eq!((temp_view.offset, temp_view.row_stride), (0, 1));
    for c in 0..k {
        for j in (0..n).rev() {
            let xj = x[j + c * n] / entry(lu_view, lu, j, j);
            x[j + c * n] = xj;
            for i in 0..j {
                x[i + c * n] -= entry(lu_view, lu, i, j) * xj;
            }
        }
    }
    bits(&x)
}

/// Uniform values in `[0, 1)`.
fn random_values(rng: &mut StdRng, len: usize) -> Vec<f64> {
    (0..len).map(|_| rng.gen::<f64>()).collect()
}

/// Factors a random `n` by `n` matrix, solves for `k` random right-hand
/// sides, and returns the largest entry of `A X - B`.
fn residual_of_solve_to(
    rng: &mut StdRng,
    n: usize,
    k: usize,
    conj_lhs: Conj,
    conj_rhs: Conj,
) -> f64 {
    let a = random_values(rng, n * n);
    let a_view = MatView::col_major(n, n).unwrap();
    let mut lu = bits(&a);
    let rhs = random_values(rng, n * k);
    let rhs_view = MatView::col_major(n, k).unwrap();
    let mut sol = vec![0u64; n * k];

    let mut row_perm = vec![0usize; n];
    let mut row_perm_inv = vec![0usize; n];
    let mut col_perm = vec![0usize; n];
    let mut col_perm_inv = vec![0usize; n];
    let parallelism = Parallelism::Rayon(0);

    lu_in_place(
        &mut lu,
        a_view,
        &mut row_perm,
        &mut row_perm_inv,
        &mut col_perm,
        &mut col_perm_inv,
        4,
        &inv,
        &times,
        &mul_add,
        &mut vec![0usize; 2 * n],
    );
    assert!(solve_req(n, n, k, parallelism).is_ok());
    solve_to(
        &mut sol,
        rhs_view,
        &lu,
        a_view,
        conj_lhs,
        PermutationIndicesRef::new_checked(&row_perm, &row_perm_inv).unwrap(),
        PermutationIndicesRef::new_checked(&col_perm, &col_perm_inv).unwrap(),
        &bits(&rhs),
        rhs_view,
        conj_rhs,
        parallelism,
        &solve_unit_lower,
        &solve_upper,
        vec![0u64; n * k],
    );

    let x = floats(&sol);
    let mut worst: f64 = 0.0;
    for j in 0..k {
        for i in 0..n {
            let mut sum = 0.0;
            for p in 0..n {
                sum += a[i + p * n] * x[p + j * n];
            }
            // the conjugate of a real entry is the entry
            let target = rhs[i + j * n];
            worst = worst.max((sum - target).abs());
        }
    }
    worst
}

#[test]
fn test_solve_to_f64() {
    // a fixed seed: a draw close to singular would not meet the bound
    let mut rng = StdRng::seed_from_u64(0);
    (0..32).chain((1..16).map(|i| i * 32)).for_each(|n| {
        for conj_lhs in [Conj::No, Conj::Yes] {
            for conj_rhs in [Conj::No, Conj::Yes] {
                assert!(residual_of_solve_to(&mut rng, n, 32, conj_lhs, conj_rhs) < 1e-10_f64);
            }
        }
    });
}

#[test]
fn solve_of_sixty_four_unknowns() {
    let mut rng = StdRng::seed_from_u64(64);
    assert!(residual_of_solve_to(&mut rng, 64, 5, Conj::No, Conj::No) < 1e-10);
}

#[test]
fn solve_in_place_agrees_with_solve_to() {
    let (n, k) = (9, 3);
    let a_view = MatView::col_major(n, n).unwrap();
    let rhs_view = MatView::col_major(n, k).unwrap();
    let mut rng = StdRng::seed_from_u64(9);
    let mut lu = bits(&random_values(&mut rng, n * n));
    let rhs = bits(&random_values(&mut rng, n * k));
    let mut row_perm = vec![0usize; n];
    let mut row_perm_inv = vec![0usize; n];
    let mut col_perm = vec![0usize; n];
    let mut col_perm_inv = vec![0usize; n];
    lu_in_place(
        &mut lu,
        a_view,
        &mut row_perm,
        &mut row_perm_inv,
        &mut col_perm,
        &mut col_perm_inv,
        2,
        &inv,
        &times,
        &mul_add,
        &mut vec![0usize; 2 * n],
    );
    let rows = PermutationIndicesRef::new_checked(&row_perm, &row_perm_inv).unwrap();
    let cols = PermutationIndicesRef::new_checked(&col_perm, &col_perm_inv).unwrap();
    let mut sol = vec![0u64; n * k];
    solve_to(
        &mut sol,
        rhs_view,
        &lu,
        a_view,
        Conj::No,
        rows,
        cols,
        &rhs,
        rhs_view,
        Conj::No,
        Parallelism::Sequential,
        &solve_unit_lower,
        &solve_upper,
        vec![0u64; n * k],
    );
    let mut in_place = rhs.clone();
    solve_in_place(
        &lu,
        a_view,
        Conj::No,
        rows,
        cols,
        &mut in_place,
        rhs_view,
        Conj::No,
        Parallelism::Sequential,
        &solve_unit_lower,
        &solve_upper,
        vec![0u64; n * k + 3],
    );
    assert_eq!(in_place, sol);
}

#[test]
fn solve_hands_its_flags_on() {
    // the two solves only record what they were given
    let lower = |_: &[u64], _: MatView, l: Conj, mut t: Vec<u64>, _: MatView, r: Conj, p: Parallelism| {
        t[0] = 100 + 10 * (l == Conj::Yes) as u64 + (r == Conj::Yes) as u64;
        t[1] = match p {
            Parallelism::Sequential => 0,
            Parallelism::Rayon(n) => 1 + n as u64,
        };
        t
    };
    let upper = |_: &[u64], _: MatView, l: Conj, mut t: Vec<u64>, _: MatView, r: Conj, p: Parallelism| {
        t[2] = 200 + 10 * (l == Conj::Yes) as u64 + (r == Conj::Yes) as u64;
        t[3] = match p {
            Parallelism::Sequential => 0,
            Parallelism::Rayon(n) => 1 + n as u64,
        };
        t
    };
    let n = 4;
    let view = MatView::col_major(n, 1).unwrap();
    let lu_view = MatView::col_major(n, n).unwrap();
    let lu = vec![0u64; n * n];
    let id: Vec<usize> = (0..n).collect();
    let perm = PermutationIndicesRef::new_checked(&id, &id).unwrap();
    for (l, r) in [(Conj::No, Conj::No), (Conj::Yes, Conj::No), (Conj::No, Conj::Yes), (Conj::Yes, Conj::Yes)] {
        let mut dst = vec![0u64; n];
        solve_to(
            &mut dst,
            view,
            &lu,
            lu_view,
            l,
            perm,
            perm,
            &[0, 0, 0, 0],
            view,
            r,
            Parallelism::Rayon(6),
            &lower,
            &upper,
            vec![0u64; n],
        );
        let lhs = 10 * (l == Conj::Yes) as u64;
        assert_eq!(dst, vec![100 + lhs + (r == Conj::Yes) as u64, 7, 200 + lhs, 7]);
    }
}

#[test]
fn solve_permutes_rows_before_and_after() {
    // solves that change nothing leave the two permutations to be seen
    let same = |_: &[u64], _: MatView, _: Conj, t: Vec<u64>, _: MatView, _: Conj, _: Parallelism| t;
    let n = 3;
    let view = MatView::col_major(n, 2).unwrap();
    let lu_view = MatView::col_major(n, n).unwrap();
    let lu = vec![0u64; n * n];
    let row_fwd = [1usize, 2, 0];
    let row_inv = [2usize, 0, 1];
    let col_fwd = [0usize, 2, 1];
    let col_inv = [0usize, 2, 1];
    let rows = PermutationIndicesRef::new_checked(&row_fwd, &row_inv).unwrap();
    let cols = PermutationIndicesRef::new_checked(&col_fwd, &col_inv).unwrap();
    let rhs = [10u64, 11, 12, 20, 21, 22];
    let mut dst = vec![0u64; 6];
    let returned = solve_to(
        &mut dst,
        view,
        &lu,
        lu_view,
        Conj::No,
        rows,
        cols,
        &rhs,
        view,
        Conj::No,
        Parallelism::Sequential,
        &same,
        &same,
        vec![9u64; 8],
    );
    // scratch row i is row row_fwd[i]: 11, 12, 10; row i of the result is
    // scratch row col_inv[i]: 11, 10, 12
    assert_eq!(dst, vec![11, 10, 12, 21, 20, 22]);
    // the scratch comes back with the scratch matrix at its start
    assert_eq!(returned, vec![11, 12, 10, 21, 22, 20, 9, 9]);
}

#[test]
fn solve_without_right_hand_sides_does_nothing() {
    let never = |_: &[u64], _: MatView, _: Conj, _: Vec<u64>, _: MatView, _: Conj, _: Parallelism| -> Vec<u64> {
        panic!("no solve is due")
    };
    let n = 2;
    let view = MatView::col_major(n, 0).unwrap();
    let lu_view = MatView::col_major(n, n).unwrap();
    let id: Vec<usize> = (0..n).collect();
    let perm = PermutationIndicesRef::new_checked(&id, &id).unwrap();
    let mut dst = vec![5u64, 6];
    let returned = solve_to(
        &mut dst,
        view,
        &[0; 4],
        lu_view,
        Conj::No,
        perm,
        perm,
        &[],
        view,
        Conj::No,
        Parallelism::Sequential,
        &never,
        &never,
        vec![3u64, 4],
    );
    assert_eq!(dst, vec![5, 6]);
    assert_eq!(returned, vec![3, 4]);
}

#[test]
fn rows_are_copied_in_the_order_of_the_permutation() {
    let src_view = MatView::row_major(3, 2).unwrap();
    let dst_view = MatView::col_major(3, 2).unwrap();
    let src = [1u64, 2, 3, 4, 5, 6];
    let mut dst = vec![0u64; 6];
    permute_rows(&mut dst, dst_view, &src, src_view, &[2, 0, 1]);
    assert_eq!(dst, vec![5, 1, 3, 6, 2, 4]);
}

#[test]
fn scratch_of_a_solve() {
    assert_eq!(solve_req(4, 4, 3, Parallelism::Sequential), Ok(96));
    assert_eq!(solve_req(4, 9, 0, Parallelism::Rayon(2)), Ok(0));
    assert_eq!(solve_req(usize::MAX, 4, 2, Parallelism::Sequential), Err(SizeOverflow));
    assert_eq!(solve_req(usize::MAX / 8 + 1, 1, 1, Parallelism::Sequential), Err(SizeOverflow));
    assert_eq!(solve_req(usize::MAX / 8, 1, 1, Parallelism::Sequential), Ok(usize::MAX / 8 * 8));
}

