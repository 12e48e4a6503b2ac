use full_pivoting::norm_max::{
    next_power_of_two, norm_max, norm_max_complex, norm_max_complex_scalar, norm_max_scalar,
    norm_max_simd, norm_max_simd_pairwise_cols, norm_max_simd_pairwise_rows, split_point,
};
use full_pivoting::view::MatView;

fn bits(values: &[f64]) -> Vec<u64> {
    values.iter().map(|x| x.to_bits()).collect()
}

fn col_major(m: usize, n: usize, f: impl Fn(usize, usize) -> f64) -> Vec<f64> {
    let mut values = vec![0.0; m * n];
    for j in 0..n {
        for i in 0..m {
            values[i + j * m] = f(i, j);
        }
    }
    values
}

#[test]
fn test_norm_max() {
    let relative_err = |a: f64, b: f64| (a - b).abs() / f64::max(a.abs(), b.abs());

    for (m, n) in [(9, 10), (1023, 5), (42, 1)] {
        for factor in [0.0, 1.0, 1e30, 1e250, 1e-30, 1e-250] {
            let mat = col_major(m, n, |i, j| factor * ((i + j) as f64));
            let mut target = 0.0;
            for x in mat.iter() {
                target = f64::max(target, x.abs());
            }
            let view = MatView::col_major(m, n).unwrap();
            let got = f64::from_bits(norm_max(4, &bits(&mat), view));

            if factor == 0.0 {
                assert!(got == target);
            } else {
                assert!(relative_err(got, target) < 1e-14);
            }
        }
    }
}

#[test]
fn norm_max_of_scaled_index_sums() {
    let (m, n) = (9, 10);
    let values = col_major(m, n, |i, j| 1e250 * ((i + j) as f64));
    let view = MatView::col_major(m, n).unwrap();
    let got = f64::from_bits(norm_max(4, &bits(&values), view));
    let want = 1e250 * 17.0;
    assert!(((got - want) / want).abs() < 1e-14);
    assert_eq!(got, want);
}

#[test]
fn norm_max_is_the_same_for_every_layout_and_lane_count() {
    let (m, n) = (37, 300);
    let values = col_major(m, n, |i, j| ((i * 7 + j * 13) % 101) as f64 - 50.5);
    let buf = bits(&values);
    let want = 50.5f64.to_bits();
    let col = MatView::col_major(m, n).unwrap();
    let as_rows = MatView::row_major(n, m).unwrap();
    let strided = MatView::from_parts(buf.len(), 1, m / 2, n / 3, 2, (3 * m) as isize).unwrap();
    let mut strided_want: f64 = 0.0;
    for j in 0..n / 3 {
        for i in 0..m / 2 {
            strided_want = strided_want.max(values[1 + 2 * i + 3 * m * j].abs());
        }
    }
    for lane_count in [1, 2, 4, 8, 5] {
        assert_eq!(norm_max(lane_count, &buf, col), want);
        assert_eq!(norm_max(lane_count, &buf, as_rows), want);
        assert_eq!(norm_max(lane_count, &buf, col.transpose()), want);
        assert_eq!(norm_max(lane_count, &buf, col.reverse_rows()), want);
        assert_eq!(norm_max(lane_count, &buf, as_rows.reverse_rows()), want);
        assert_eq!(norm_max(lane_count, &buf, strided), strided_want.to_bits());
        assert_eq!(norm_max_simd_pairwise_cols(lane_count, &buf, col), want);
    }
    assert_eq!(norm_max_scalar(&buf, col), want);
}

#[test]
fn norm_max_of_nothing_is_zero() {
    for (m, n) in [(0, 0), (0, 4), (4, 0)] {
        let view = MatView::col_major(m, n).unwrap();
        assert_eq!(norm_max(4, &[], view), 0);
    }
    assert_eq!(norm_max_simd_pairwise_rows(4, &[]), 0);
}

#[test]
fn norm_max_of_a_complex_matrix() {
    // 2 by 2 complex, column after column, each entry as (re, im)
    let z = bits(&[1.0, -2.0, 0.5, 0.25, -7.5, 3.0, 4.0, -9.0]);
    let by_cols = MatView::col_major(2, 2).unwrap();
    let by_rows = MatView::row_major(2, 2).unwrap();
    for lane_count in [1, 2, 4, 8] {
        assert_eq!(f64::from_bits(norm_max_complex(lane_count, &z, by_cols)), 9.0);
        assert_eq!(f64::from_bits(norm_max_complex(lane_count, &z, by_rows)), 9.0);
        assert_eq!(f64::from_bits(norm_max_complex(lane_count, &z, by_cols.reverse_rows())), 9.0);
        // the first column only: 1 - 2i and 0.5 + 0.25i
        let first = by_cols.submatrix(0, 0, 2, 1);
        assert_eq!(f64::from_bits(norm_max_complex(lane_count, &z, first)), 2.0);
        // the second row only: 0.5 + 0.25i and 4 - 9i
        let second = by_cols.submatrix(1, 0, 1, 2);
        assert_eq!(f64::from_bits(norm_max_complex(lane_count, &z, second)), 9.0);
        // the first row only: 1 - 2i and -7.5 + 3i
        let top = by_cols.submatrix(0, 0, 1, 2);
        assert_eq!(f64::from_bits(norm_max_complex(lane_count, &z, top)), 7.5);
    }
    assert_eq!(f64::from_bits(norm_max_complex_scalar(&z, by_cols)), 9.0);
    assert_eq!(norm_max_complex(4, &[], MatView::col_major(0, 0).unwrap()), 0);
}

#[test]
fn norm_max_of_a_large_complex_matrix() {
    let (m, n) = (300, 7);
    let mut z = vec![0.0; 2 * m * n];
    let mut want: f64 = 0.0;
    for p in 0..m * n {
        z[2 * p] = ((p * 17) % 257) as f64 - 100.0;
        z[2 * p + 1] = -(((p * 29) % 263) as f64);
        want = want.max(z[2 * p].abs()).max(z[2 * p + 1].abs());
    }
    let view = MatView::col_major(m, n).unwrap();
    for lane_count in [1, 2, 4, 8] {
        assert_eq!(f64::from_bits(norm_max_complex(lane_count, &bits(&z), view)), want);
        assert_eq!(
            f64::from_bits(norm_max_complex(lane_count, &bits(&z), view.transpose())),
            want
        );
    }
}

#[test]
fn norm_max_ignores_nan_and_takes_infinity() {
    let view = MatView::col_major(3, 1).unwrap();
    assert_eq!(f64::from_bits(norm_max(4, &bits(&[1.0, f64::NAN, -3.0]), view)), 3.0);
    assert_eq!(
        f64::from_bits(norm_max(4, &bits(&[1.0, f64::NEG_INFINITY, -3.0]), view)),
        f64::INFINITY
    );
}

#[test]
fn long_runs_are_split_and_short_runs_are_not() {
    for len in [0usize, 1, 7, 127, 128, 129, 255, 256, 257, 1000, 4097] {
        let values: Vec<f64> = (0..len).map(|i| -(((i * 31) % 977) as f64)).collect();
        let mut want: f64 = 0.0;
        for x in values.iter() {
            want = want.max(x.abs());
        }
        for lane_count in [1, 2, 4, 8] {
            assert_eq!(norm_max_simd_pairwise_rows(lane_count, &bits(&values)), want.to_bits());
            assert_eq!(norm_max_simd(lane_count, &bits(&values)), want.to_bits());
        }
    }
}

#[test]
fn the_largest_entry_is_found_in_every_position() {
    for len in 1..40usize {
        for at in 0..len {
            let mut values = vec![1.0; len];
            values[at] = -2.0;
            for lane_count in [1, 2, 4, 8] {
                assert_eq!(norm_max_simd(lane_count, &bits(&values)), 2.0f64.to_bits());
            }
        }
    }
}

#[test]
fn runs_are_split_at_a_power_of_two() {
    assert_eq!(split_point(2), 1);
    assert_eq!(split_point(3), 2);
    assert_eq!(split_point(4), 2);
    assert_eq!(split_point(5), 4);
    assert_eq!(split_point(129), 128);
    assert_eq!(split_point(256), 128);
    assert_eq!(split_point(257), 256);
    assert_eq!(split_point(1023), 512);
    assert_eq!(next_power_of_two(0), 1);
    assert_eq!(next_power_of_two(1), 1);
    assert_eq!(next_power_of_two(2), 2);
    assert_eq!(next_power_of_two(3), 4);
    assert_eq!(next_power_of_two(65), 128);
    assert_eq!(next_power_of_two(usize::MAX / 2 + 1), usize::MAX / 2 + 1);
}
