use full_pivoting::column::{
    best_f64, best_f64_scalar, best_in_col_f64, best_in_col_f64x2, best_in_col_f64x4,
    best_in_col_f64x8, fold_f64, reduce, update_and_best_in_col_f64,
};
use full_pivoting::pivot::{
    best_in_matrix, best_in_matrix_f64, leading, rank_one_update,
    rank_one_update_and_best_in_matrix, update_and_best_in_matrix_f64,
};
use full_pivoting::scalar::{negate, weigh, INFINITY_BITS, MAGNITUDE_MASK, SIGN_BIT};
use full_pivoting::view::MatView;

fn mul_add(a: u64, b: u64, c: u64) -> u64 {
    f64::from_bits(a).mul_add(f64::from_bits(b), f64::from_bits(c)).to_bits()
}

fn bits(values: &[f64]) -> Vec<u64> {
    values.iter().map(|x| x.to_bits()).collect()
}

fn floats(patterns: &[u64]) -> Vec<f64> {
    patterns.iter().map(|x| f64::from_bits(*x)).collect()
}

/// The largest magnitude and the first position that has it.
fn naive_best(values: &[f64]) -> (f64, usize) {
    let mut best = (0.0, 0);
    for (i, x) in values.iter().enumerate() {
        if x.abs() > best.0 {
            best = (x.abs(), i);
        }
    }
    best
}

#[test]
fn weights_order_as_magnitudes() {
    assert_eq!(weigh(1.5f64.to_bits()), 1.5f64.to_bits());
    assert_eq!(weigh((-1.5f64).to_bits()), 1.5f64.to_bits());
    assert_eq!(weigh((-0.0f64).to_bits()), 0);
    assert_eq!(weigh(f64::NAN.to_bits()), 0);
    assert_eq!(weigh((-f64::NAN).to_bits()), 0);
    assert_eq!(weigh(f64::NEG_INFINITY.to_bits()), INFINITY_BITS);
    assert_eq!(INFINITY_BITS, f64::INFINITY.to_bits());
    assert_eq!(SIGN_BIT | MAGNITUDE_MASK, u64::MAX);
    let ladder = [0.0, 5e-324, 1e-300, 0.5, 1.0, 1.0000000000000002, 3.0, 1e300, f64::INFINITY];
    for pair in ladder.windows(2) {
        assert!(weigh((-pair[0]).to_bits()) < weigh(pair[1].to_bits()));
    }
}

#[test]
fn negation_flips_the_sign() {
    assert_eq!(f64::from_bits(negate(2.5f64.to_bits())), -2.5);
    assert_eq!(f64::from_bits(negate((-2.5f64).to_bits())), 2.5);
    assert_eq!(negate(0.0f64.to_bits()), (-0.0f64).to_bits());
}

#[test]
fn a_scan_step_keeps_the_first_of_equals() {
    assert_eq!(best_f64_scalar(0, 0, 2.0f64.to_bits(), 5), (2.0f64.to_bits(), 5));
    assert_eq!(best_f64_scalar(2.0f64.to_bits(), 5, (-2.0f64).to_bits(), 6), (2.0f64.to_bits(), 5));
    assert_eq!(best_f64_scalar(2.0f64.to_bits(), 5, (-3.0f64).to_bits(), 6), (3.0f64.to_bits(), 6));
    assert_eq!(best_f64_scalar(2.0f64.to_bits(), 5, f64::NAN.to_bits(), 6), (2.0f64.to_bits(), 5));
    let (v, i) = best_f64::<2>(
        bits(&[1.0, 4.0]).try_into().unwrap(),
        [3, 4],
        bits(&[-1.0, -5.0]).try_into().unwrap(),
        [7, 8],
    );
    assert_eq!(floats(&v), vec![1.0, 5.0]);
    assert_eq!(i, [3, 8]);
}

#[test]
fn a_fold_prefers_the_smaller_index_among_equals() {
    let (v, i) = fold_f64::<3>([5, 5, 5], [9, 2, 4], [5, 6, 4], [3, 8, 1]);
    assert_eq!(v, [5, 6, 5]);
    assert_eq!(i, [3, 8, 4]);
    assert_eq!(reduce::<2>(7, 10, &[7, 3], &[4, 0]), (7, 4));
    assert_eq!(reduce::<2>(7, 10, &[6, 8], &[4, 0]), (8, 0));
    assert_eq!(reduce::<2>(0, 0, &[0, 0], &[0, 0]), (0, 0));
}

#[test]
fn the_first_of_equal_maxima_wins_in_every_lane_count() {
    // the two largest entries fall in different lanes and accumulators
    for len in 1..60usize {
        for first in 0..len {
            for second in first..len {
                let mut values = vec![1.0; len];
                values[first] = -3.0;
                values[second] = 3.0;
                let data = bits(&values);
                let want = (3.0f64.to_bits(), first);
                for lane_count in [1, 2, 4, 8, 0, 3] {
                    assert_eq!(best_in_col_f64(lane_count, &data), want);
                }
                assert_eq!(best_in_col_f64x2(&data), want);
                assert_eq!(best_in_col_f64x4(&data), want);
                assert_eq!(best_in_col_f64x8(&data), want);
            }
        }
    }
}

#[test]
fn a_column_of_zeros_has_its_best_at_the_top() {
    for lane_count in [1, 2, 4, 8] {
        assert_eq!(best_in_col_f64(lane_count, &bits(&[0.0; 19])), (0, 0));
        assert_eq!(best_in_col_f64(lane_count, &bits(&[-0.0, f64::NAN, 0.0])), (0, 0));
        assert_eq!(best_in_col_f64(lane_count, &[]), (0, 0));
    }
}

#[test]
fn update_and_scan_agree_with_two_passes() {
    for len in 0..45usize {
        let lhs: Vec<f64> = (0..len).map(|i| ((i * 37) % 11) as f64 - 5.0).collect();
        let dst: Vec<f64> = (0..len).map(|i| ((i * 53) % 17) as f64 * 0.25 - 2.0).collect();
        let rhs = -1.5f64;
        let want: Vec<f64> = (0..len).map(|i| lhs[i].mul_add(rhs, dst[i])).collect();
        let (value, index) = naive_best(&want);
        for lane_count in [1, 2, 4, 8] {
            for offset in [0, 1, 3, 7, len, len + 5] {
                let mut buf = bits(&dst);
                let got = update_and_best_in_col_f64(
                    lane_count,
                    &mul_add,
                    &mut buf,
                    &bits(&lhs),
                    rhs.to_bits(),
                    offset,
                );
                assert_eq!(buf, bits(&want));
                assert_eq!(got, (value.to_bits(), index));
            }
        }
    }
}

#[test]
fn leading_elements_reach_the_next_vector() {
    assert_eq!(leading(0, 4), 0);
    assert_eq!(leading(1, 4), 3);
    assert_eq!(leading(6, 4), 2);
    assert_eq!(leading(7, 8), 1);
    assert_eq!(leading(9, 2), 1);
    assert_eq!(leading(9, 1), 0);
    assert_eq!(leading(9, 0), 0);
}

#[test]
fn pivot_of_a_matrix_by_layout() {
    // [[1, -4, 4], [4, 2, 0]]
    let col = bits(&[1.0, 4.0, -4.0, 2.0, 4.0, 0.0]);
    let row = bits(&[1.0, -4.0, 4.0, 4.0, 2.0, 0.0]);
    let by_cols = MatView::col_major(2, 3).unwrap();
    let by_rows = MatView::row_major(2, 3).unwrap();
    for lane_count in [1, 2, 4, 8] {
        assert_eq!(best_in_matrix(lane_count, &col, by_cols), (1, 0));
        assert_eq!(best_in_matrix_f64(lane_count, &col, by_cols), (1, 0));
        assert_eq!(best_in_matrix(lane_count, &row, by_rows), (0, 1));
    }
    // neither rows nor columns contiguous: column after column
    let mut wide = vec![0u64; 12];
    for j in 0..3 {
        for i in 0..2 {
            wide[2 * i + 4 * j] = col[i + 2 * j];
        }
    }
    let strided = MatView::from_parts(12, 0, 2, 3, 2, 4).unwrap();
    assert_eq!(best_in_matrix(4, &wide, strided), (1, 0));
    let empty = MatView::col_major(0, 3).unwrap();
    assert_eq!(best_in_matrix(4, &col, empty), (0, 0));
}

#[test]
fn rank_one_update_by_layout() {
    // dst = [[1, 2], [3, 4]], lhs = (1, 2), rhs = (10, 20):
    // dst - lhs rhs = [[-9, -18], [-17, -36]]
    let want = [[-9.0, -18.0], [-17.0, -36.0]];
    // buffer: lhs, rhs, then dst
    let by_cols: Vec<f64> = vec![1.0, 2.0, 10.0, 20.0, 1.0, 3.0, 2.0, 4.0];
    let by_rows: Vec<f64> = vec![1.0, 2.0, 10.0, 20.0, 1.0, 2.0, 3.0, 4.0];
    let lhs = MatView::from_parts(8, 0, 2, 1, 1, 1).unwrap();
    let rhs = MatView::from_parts(8, 2, 1, 2, 1, 1).unwrap();
    for (values, dst) in [
        (by_cols, MatView::from_parts(8, 4, 2, 2, 1, 2).unwrap()),
        (by_rows, MatView::from_parts(8, 4, 2, 2, 2, 1).unwrap()),
    ] {
        for lane_count in [1, 2, 4, 8] {
            let mut buf = bits(&values);
            let pivot =
                rank_one_update_and_best_in_matrix(lane_count, &mul_add, &mut buf, dst, lhs, rhs);
            assert_eq!(pivot, (1, 1));
            let out = floats(&buf);
            assert_eq!(&out[..4], &values[..4]);
            for i in 0..2 {
                for j in 0..2 {
                    let p = 4 + i * dst.row_stride as usize + j * dst.col_stride as usize;
                    assert_eq!(out[p], want[i][j]);
                }
            }
        }
    }
    // a layout with gaps, which are kept
    let mut buf = bits(&[1.0, 2.0, 10.0, 20.0, 1.0, 7.0, 3.0, 7.0, 2.0, 7.0, 4.0, 7.0]);
    let dst = MatView::from_parts(12, 4, 2, 2, 2, 4).unwrap();
    let pivot = rank_one_update_and_best_in_matrix(4, &mul_add, &mut buf, dst, lhs, rhs);
    assert_eq!(pivot, (1, 1));
    assert_eq!(
        floats(&buf),
        vec![1.0, 2.0, 10.0, 20.0, -9.0, 7.0, -17.0, 7.0, -18.0, 7.0, -36.0, 7.0]
    );
}

#[test]
fn fused_matrix_update_finds_the_first_of_equals() {
    // lhs = (1, 1, 1), rhs = (-2, 2), dst = 0: every entry gets magnitude 2
    let mut buf = bits(&[1.0, 1.0, 1.0, -2.0, 2.0, 0.0, 0.0, 0.0, 0.0, 0.0, 0.0]);
    let lhs = MatView::from_parts(11, 0, 3, 1, 1, 1).unwrap();
    let rhs = MatView::from_parts(11, 3, 1, 2, 1, 1).unwrap();
    let dst = MatView::from_parts(11, 5, 3, 2, 1, 3).unwrap();
    let pivot = update_and_best_in_matrix_f64(4, &mul_add, &mut buf, dst, lhs, rhs);
    assert_eq!(pivot, (0, 0));
    assert_eq!(
        floats(&buf),
        vec![1.0, 1.0, 1.0, -2.0, 2.0, 2.0, 2.0, 2.0, -2.0, -2.0, -2.0]
    );
}

#[test]
fn fused_matrix_update_with_the_left_factor_behind_the_matrix() {
    // dst = [[1, 2], [3, 4]] first, then rhs = (10, 20), then lhs = (1, 2)
    let mut buf = bits(&[1.0, 3.0, 2.0, 4.0, 10.0, 20.0, 1.0, 2.0]);
    let dst = MatView::from_parts(8, 0, 2, 2, 1, 2).unwrap();
    let rhs = MatView::from_parts(8, 4, 1, 2, 1, 1).unwrap();
    let lhs = MatView::from_parts(8, 6, 2, 1, 1, 1).unwrap();
    for lane_count in [1, 2, 4, 8] {
        let mut work = buf.clone();
        let pivot = update_and_best_in_matrix_f64(lane_count, &mul_add, &mut work, dst, lhs, rhs);
        assert_eq!(pivot, (1, 1));
        assert_eq!(floats(&work), vec![-9.0, -17.0, -18.0, -36.0, 10.0, 20.0, 1.0, 2.0]);
    }
    rank_one_update(&mul_add, &mut buf, dst, lhs, rhs);
    assert_eq!(floats(&buf), vec![-9.0, -17.0, -18.0, -36.0, 10.0, 20.0, 1.0, 2.0]);
}

#[test]
fn views_are_checked() {
    assert!(MatView::col_major(3, 4).is_some());
    assert!(MatView::col_major(usize::MAX, 2).is_none());
    assert!(MatView::col_major(usize::MAX, 0).is_none());
    assert!(MatView::col_major(0, usize::MAX).is_some());
    assert!(MatView::row_major(2, usize::MAX).is_none());
    let v = MatView::row_major(3, 4).unwrap();
    assert_eq!((v.nrows, v.ncols, v.row_stride, v.col_stride, v.offset), (3, 4, 4, 1, 0));
    // interleaved columns
    assert!(MatView::from_parts(100, 0, 3, 3, 2, 3).is_none());
    // a stride of zero along a direction with several entries
    assert!(MatView::from_parts(100, 0, 3, 1, 0, 1).is_none());
    assert!(MatView::from_parts(100, 0, 1, 1, 0, 0).is_some());
    // out of the buffer at either end
    assert!(MatView::from_parts(12, 0, 3, 4, 1, 3).is_some());
    assert!(MatView::from_parts(11, 0, 3, 4, 1, 3).is_none());
    assert!(MatView::from_parts(12, 1, 3, 4, -1, 3).is_none());
    assert!(MatView::from_parts(12, 2, 3, 4, -1, 3).is_some());
    assert!(MatView::from_parts(12, 0, 3, 4, isize::MIN, 3).is_none());
    assert!(MatView::from_parts(0, 5, 0, 4, 1, 3).is_some());
}

#[test]
fn views_of_views() {
    let buf: Vec<u64> = (0..12).collect();
    let v = MatView::col_major(3, 4).unwrap();
    assert_eq!(v.get(&buf, 2, 3), 11);
    assert_eq!(v.position(1, 2), 7);
    let t = v.transpose();
    assert_eq!(t.get(&buf, 3, 2), 11);
    let r = v.reverse_rows();
    assert_eq!(r.get(&buf, 0, 0), 2);
    assert_eq!(r.get(&buf, 2, 3), 9);
    let b = v.submatrix(1, 2, 2, 2);
    assert_eq!(b.get(&buf, 0, 0), 7);
    assert_eq!(b.get(&buf, 1, 1), 11);
    let mut out = buf.clone();
    b.set(&mut out, 1, 0, 99);
    assert_eq!(out[8], 99);
}
