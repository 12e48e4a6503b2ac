//! The max-norm of a matrix: the largest weight among its entries.
//!
//! The reduction splits a matrix with contiguous columns in halves, first
//! by columns down to single columns and then by rows down to short runs,
//! and reduces each run lane by lane with four accumulators. A complex
//! matrix whose columns are contiguous is reduced as the real matrix of
//! twice as many rows that its real and imaginary parts make in memory.

use crate::column::load;
use crate::pivot::comes_before;
use crate::scalar::{weigh, weight};
use crate::view::MatView;
use vstd::prelude::*;
use vstd::slice::slice_subrange;

verus! {

/// A run no longer than this is reduced in one sweep.
pub const LINEAR_IMPL_THRESHOLD: usize = 128;

/// `v` is the largest weight among the elements of `data`, and 0 if there
/// are none.
pub open spec fn is_max_weight(data: Seq<u64>, v: u64) -> bool {
    &&& forall|i: int| 0 <= i < data.len() ==> weight(#[trigger] data[i]) <= v
    &&& v == 0 || exists|i: int| 0 <= i < data.len() && weight(#[trigger] data[i]) == v
}

/// `v` is the largest weight among the entries of the view, and 0 if there
/// are none.
pub open spec fn is_norm_max(buf: Seq<u64>, view: MatView, v: u64) -> bool {
    &&& forall|i: int, j: int| view.has(i, j) ==> weight(#[trigger] view.at(buf, i, j)) <= v
    &&& v == 0 || exists|i: int, j: int| view.has(i, j) && weight(#[trigger] view.at(buf, i, j)) == v
}

/// The largest of the values in `s`, and 0 if there are none.
pub open spec fn peak(s: Seq<u64>) -> u64
    decreases s.len(),
{
    if s.len() == 0 {
        0
    } else if s.last() > peak(s.drop_last()) {
        s.last()
    } else {
        peak(s.drop_last())
    }
}

/// The peak is above every value and is one of them, or 0.
pub proof fn lemma_peak(s: Seq<u64>)
    ensures
        forall|i: int| 0 <= i < s.len() ==> #[trigger] s[i] <= peak(s),
        peak(s) == 0 || exists|i: int| 0 <= i < s.len() && #[trigger] s[i] == peak(s),
    decreases s.len(),
{
    if s.len() > 0 {
        let t = s.drop_last();
        lemma_peak(t);
        assert forall|i: int| 0 <= i < s.len() implies #[trigger] s[i] <= peak(s) by {
            if i < t.len() {
                assert(t[i] == s[i]);
            }
        }
        if peak(s) != 0 {
            if s.last() > peak(t) {
                assert(s[s.len() - 1] == peak(s));
            } else {
                let i = choose|i: int| 0 <= i < t.len() && #[trigger] t[i] == peak(t);
                assert(s[i] == peak(s));
            }
        }
    }
}

/// Raising values raises the peak.
pub proof fn lemma_peak_grows(s: Seq<u64>, t: Seq<u64>)
    requires
        s.len() == t.len(),
        forall|i: int| 0 <= i < s.len() ==> s[i] <= t[i],
    ensures
        peak(s) <= peak(t),
{
    lemma_peak(s);
    lemma_peak(t);
    if peak(s) != 0 {
        let i = choose|i: int| 0 <= i < s.len() && #[trigger] s[i] == peak(s);
        assert(t[i] <= peak(t));
    }
}

/// `v` is 0 or the weight of an element of `data`.
pub open spec fn attained(data: Seq<u64>, v: u64) -> bool {
    v == 0 || exists|i: int| 0 <= i < data.len() && weight(#[trigger] data[i]) == v
}

/// Every lane holds 0 or the weight of an element of `data`.
pub open spec fn lanes_attained(data: Seq<u64>, acc: Seq<u64>) -> bool {
    forall|l: int| 0 <= l < acc.len() ==> attained(data, #[trigger] acc[l])
}

/// The larger of `a` and the weight of `x`, in every lane.
pub fn abs_max<const L: usize>(acc: [u64; L], x: [u64; L]) -> (r: [u64; L])
    ensures
        forall|l: int|
            0 <= l < L ==> #[trigger] r[l] == (if weight(x[l]) > acc[l] {
                weight(x[l])
            } else {
                acc[l]
            }),
{
    let mut r = acc;
    let mut l: usize = 0;
    while l < L
        invariant
            l <= L,
            forall|k: int|
                0 <= k < l ==> #[trigger] r[k] == (if weight(x[k]) > acc[k] {
                    weight(x[k])
                } else {
                    acc[k]
                }),
            forall|k: int| l <= k < L ==> r[k] == acc[k],
        decreases L - l,
    {
        let w = weigh(x[l]);
        if w > r[l] {
            r[l] = w;
        }
        l += 1;
    }
    r
}

/// The larger of `a` and `b`, in every lane.
pub fn max_lanes<const L: usize>(a: [u64; L], b: [u64; L]) -> (r: [u64; L])
    ensures
        forall|l: int|
            0 <= l < L ==> #[trigger] r[l] == (if b[l] > a[l] {
                b[l]
            } else {
                a[l]
            }),
{
    let mut r = a;
    let mut l: usize = 0;
    while l < L
        invariant
            l <= L,
            forall|k: int|
                0 <= k < l ==> #[trigger] r[k] == (if b[k] > a[k] {
                    b[k]
                } else {
                    a[k]
                }),
            forall|k: int| l <= k < L ==> r[k] == a[k],
        decreases L - l,
    {
        if b[l] > r[l] {
            r[l] = b[l];
        }
        l += 1;
    }
    r
}

/// The largest value among the lanes.
pub fn reduce_max<const L: usize>(acc: [u64; L]) -> (r: u64)
    ensures
        r == peak(acc@),
{
    let mut r: u64 = 0;
    let mut l: usize = 0;
    while l < L
        invariant
            l <= L,
            r == peak(acc@.take(l as int)),
        decreases L - l,
    {
        proof {
            assert(acc@.take(l + 1).drop_last() =~= acc@.take(l as int));
        }
        if acc[l] > r {
            r = acc[l];
        }
        l += 1;
    }
    proof {
        assert(acc@.take(L as int) =~= acc@);
    }
    r
}

/// The last, partial vector of `data`: the elements from `base` on, and 0
/// in the lanes past the end.
pub fn load_partial<const L: usize>(data: &[u64], base: usize) -> (v: [u64; L])
    requires
        base <= data.len(),
        data.len() - base < L,
    ensures
        forall|l: int|
            0 <= l < L ==> #[trigger] v[l] == (if base + l < data.len() {
                data[base + l]
            } else {
                0
            }),
{
    let mut v = [0u64; L];
    let count = data.len() - base;
    let mut l: usize = 0;
    while l < count
        invariant
            l <= count,
            count == data.len() - base,
            count < L,
            forall|k: int| 0 <= k < l ==> #[trigger] v[k] == data[base + k],
            forall|k: int| l <= k < L ==> v[k] == 0,
        decreases count - l,
    {
        v[l] = data[base + l];
        l += 1;
    }
    v
}

/// The accumulator after the vector `x`, which holds the elements of
/// `data` from `base` on, has been folded in: it is above the weights of
/// those elements and still holds weights of elements only.
pub proof fn lemma_abs_max(data: Seq<u64>, acc: Seq<u64>, x: Seq<u64>, after: Seq<u64>, base: int)
    requires
        acc.len() == x.len(),
        after.len() == x.len(),
        0 <= base,
        lanes_attained(data, acc),
        forall|l: int|
            0 <= l < x.len() ==> #[trigger] x[l] == (if base + l < data.len() {
                data[base + l]
            } else {
                0
            }),
        forall|l: int|
            0 <= l < x.len() ==> #[trigger] after[l] == (if weight(x[l]) > acc[l] {
                weight(x[l])
            } else {
                acc[l]
            }),
    ensures
        lanes_attained(data, after),
        peak(acc) <= peak(after),
        forall|j: int|
            base <= j < base + x.len() && j < data.len() ==> weight(#[trigger] data[j]) <= peak(
                after,
            ),
{
    lemma_peak(after);
    lemma_peak_grows(acc, after);
    assert forall|l: int| 0 <= l < after.len() implies attained(data, #[trigger] after[l]) by {
        assert(attained(data, acc[l]));
        if weight(x[l]) > acc[l] {
            assert(base + l < data.len()) by {
                if base + l >= data.len() {
                    assert(x[l] == 0);
                    assert(weight(0u64) == 0) by {
                        assert(0u64 & crate::scalar::MAGNITUDE_MASK == 0) by (bit_vector);
                    }
                }
            }
            assert(weight(data[base + l]) == after[l]);
        }
    }
    assert forall|j: int| base <= j < base + x.len() && j < data.len() implies weight(
        #[trigger] data[j],
    ) <= peak(after) by {
        let l = j - base;
        assert(x[l] == data[j]);
        assert(after[l] <= peak(after));
    }
}

/// Folding two accumulators keeps what each knew.
pub proof fn lemma_max_lanes(data: Seq<u64>, a: Seq<u64>, b: Seq<u64>, r: Seq<u64>)
    requires
        a.len() == b.len(),
        r.len() == a.len(),
        lanes_attained(data, a),
        lanes_attained(data, b),
        forall|l: int|
            0 <= l < r.len() ==> #[trigger] r[l] == (if b[l] > a[l] {
                b[l]
            } else {
                a[l]
            }),
    ensures
        lanes_attained(data, r),
        peak(a) <= peak(r),
        peak(b) <= peak(r),
{
    lemma_peak_grows(a, r);
    lemma_peak_grows(b, r);
    assert forall|l: int| 0 <= l < r.len() implies attained(data, #[trigger] r[l]) by {
        assert(attained(data, a[l]));
        assert(attained(data, b[l]));
    }
}

/// The largest of four values.
pub open spec fn max4(a: u64, b: u64, c: u64, d: u64) -> u64 {
    let ab = if a > b {
        a
    } else {
        b
    };
    let cd = if c > d {
        c
    } else {
        d
    };
    if ab > cd {
        ab
    } else {
        cd
    }
}

/// The largest weight in a run, `L` lanes at a time: the whole vectors
/// four at a time into four accumulators, then one at a time, then the
/// partial vector at the end, and at last the fold of the accumulators and
/// of their lanes.
pub fn norm_max_simd_lanes<const L: usize>(data: &[u64]) -> (r: u64)
    requires
        L > 0,
    ensures
        is_max_weight(data@, r),
{
    let n = data.len();
    let head = n / L;
    let rounds = head / 4;
    let ghost col = data@;
    let ghost lanes = L as int;

    let mut acc0 = [0u64; L];
    let mut acc1 = [0u64; L];
    let mut acc2 = [0u64; L];
    let mut acc3 = [0u64; L];

    let mut t: usize = 0;
    proof {
        assert((4 * 0) * lanes == 0);
    }
    while t < rounds
        invariant
            L > 0,
            lanes == L,
            col == data@,
            n == data.len(),
            head == n / L,
            rounds == head / 4,
            t <= rounds,
            0 <= (4 * t) * lanes <= n,
            lanes_attained(col, acc0@),
            lanes_attained(col, acc1@),
            lanes_attained(col, acc2@),
            lanes_attained(col, acc3@),
            forall|j: int|
                0 <= j < (4 * t) * lanes ==> weight(#[trigger] col[j]) <= max4(
                    peak(acc0@),
                    peak(acc1@),
                    peak(acc2@),
                    peak(acc3@),
                ),
        decreases rounds - t,
    {
        proof {
            crate::column::lemma_vector_fits(n as int, lanes, 4 * t);
            crate::column::lemma_vector_fits(n as int, lanes, 4 * t + 1);
            crate::column::lemma_vector_fits(n as int, lanes, 4 * t + 2);
            crate::column::lemma_vector_fits(n as int, lanes, 4 * t + 3);
            assert((4 * t + 4) * lanes == (4 * (t + 1)) * lanes) by (nonlinear_arith);
        }
        let base0 = (4 * t) * L;
        let base1 = base0 + L;
        let base2 = base1 + L;
        let base3 = base2 + L;
        let x0 = load::<L>(data, base0);
        let x1 = load::<L>(data, base1);
        let x2 = load::<L>(data, base2);
        let x3 = load::<L>(data, base3);
        let n0 = abs_max(acc0, x0);
        let n1 = abs_max(acc1, x1);
        let n2 = abs_max(acc2, x2);
        let n3 = abs_max(acc3, x3);
        proof {
            lemma_abs_max(col, acc0@, x0@, n0@, base0 as int);
            lemma_abs_max(col, acc1@, x1@, n1@, base1 as int);
            lemma_abs_max(col, acc2@, x2@, n2@, base2 as int);
            lemma_abs_max(col, acc3@, x3@, n3@, base3 as int);
        }
        acc0 = n0;
        acc1 = n1;
        acc2 = n2;
        acc3 = n3;
        t += 1;
    }

    let mut q: usize = 4 * rounds;
    while q < head
        invariant
            L > 0,
            lanes == L,
            col == data@,
            n == data.len(),
            head == n / L,
            q <= head,
            0 <= q * lanes <= n,
            lanes_attained(col, acc0@),
            lanes_attained(col, acc1@),
            lanes_attained(col, acc2@),
            lanes_attained(col, acc3@),
            forall|j: int|
                0 <= j < q * lanes ==> weight(#[trigger] col[j]) <= max4(
                    peak(acc0@),
                    peak(acc1@),
                    peak(acc2@),
                    peak(acc3@),
                ),
        decreases head - q,
    {
        proof {
            crate::column::lemma_vector_fits(n as int, lanes, q as int);
        }
        let base = q * L;
        let x0 = load::<L>(data, base);
        let n0 = abs_max(acc0, x0);
        proof {
            lemma_abs_max(col, acc0@, x0@, n0@, base as int);
        }
        acc0 = n0;
        q += 1;
    }

    proof {
        crate::column::lemma_tail_short(n as int, lanes);
    }
    let base = head * L;
    if base < n {
        let x0 = load_partial::<L>(data, base);
        let n0 = abs_max(acc0, x0);
        proof {
            lemma_abs_max(col, acc0@, x0@, n0@, base as int);
        }
        acc0 = n0;
    }
    let a01 = max_lanes(acc0, acc1);
    let a23 = max_lanes(acc2, acc3);
    let all = max_lanes(a01, a23);
    proof {
        lemma_max_lanes(col, acc0@, acc1@, a01@);
        lemma_max_lanes(col, acc2@, acc3@, a23@);
        lemma_max_lanes(col, a01@, a23@, all@);
        lemma_peak(all@);
        let r = peak(all@);
        if r != 0 {
            let l = choose|l: int| 0 <= l < all@.len() && #[trigger] all@[l] == r;
            assert(attained(col, all@[l]));
        }
    }
    reduce_max(all)
}

/// The largest weight in a run, reduced `lane_count` lanes at a time where
/// that is 8, 4 or 2, and one element at a time otherwise.
pub fn norm_max_simd(lane_count: usize, data: &[u64]) -> (r: u64)
    ensures
        is_max_weight(data@, r),
{
    if lane_count == 8 {
        norm_max_simd_lanes::<8>(data)
    } else if lane_count == 4 {
        norm_max_simd_lanes::<4>(data)
    } else if lane_count == 2 {
        norm_max_simd_lanes::<2>(data)
    } else {
        norm_max_simd_lanes::<1>(data)
    }
}

/// Whether `p` is a power of two.
pub open spec fn is_power_of_two(p: int) -> bool
    decreases p,
{
    if p <= 1 {
        p == 1
    } else {
        p % 2 == 0 && is_power_of_two(p / 2)
    }
}

/// The smallest power of two that is not below `x`.
pub fn next_power_of_two(x: usize) -> (p: usize)
    requires
        x <= usize::MAX / 2 + 1,
    ensures
        is_power_of_two(p as int),
        x <= p,
        p == 1 || p / 2 < x,
{
    let mut p: usize = 1;
    while p < x
        invariant
            is_power_of_two(p as int),
            p == 1 || p / 2 < x,
            x <= usize::MAX / 2 + 1,
            1 <= p,
        decreases
                (if p < x {
                    x - p
                } else {
                    0
                }),
    {
        proof {
            assert((2 * p) / 2 == p);
            assert((2 * p) % 2 == 0);
        }
        p = 2 * p;
    }
    p
}

/// Where a run or a set of columns of `n` parts is split: at the smallest
/// power of two that is at least half of `n`, rounded up.
pub fn split_point(n: usize) -> (k: usize)
    requires
        n >= 2,
    ensures
        1 <= k < n,
        is_power_of_two(k as int),
        (n - 1) / 2 + 1 <= k,
        k == 1 || k / 2 < (n - 1) / 2 + 1,
{
    let k = next_power_of_two((n - 1) / 2 + 1);
    proof {
        if k != 1 {
            assert(k % 2 == 0);
        }
    }
    k
}

/// The largest weight in both parts of a run is the larger of the two.
pub proof fn lemma_max_weight_split(data: Seq<u64>, k: int, a: u64, b: u64)
    requires
        0 <= k <= data.len(),
        is_max_weight(data.subrange(0, k), a),
        is_max_weight(data.subrange(k, data.len() as int), b),
    ensures
        is_max_weight(
            data,
            if a > b {
                a
            } else {
                b
            },
        ),
{
    let head = data.subrange(0, k);
    let tail = data.subrange(k, data.len() as int);
    assert forall|i: int| 0 <= i < data.len() implies weight(#[trigger] data[i]) <= (if a > b {
        a
    } else {
        b
    }) by {
        if i < k {
            assert(head[i] == data[i]);
        } else {
            assert(tail[i - k] == data[i]);
        }
    }
    if a > b {
        let i = choose|i: int| 0 <= i < head.len() && weight(#[trigger] head[i]) == a;
        assert(weight(data[i]) == a);
    } else if b != 0 {
        let i = choose|i: int| 0 <= i < tail.len() && weight(#[trigger] tail[i]) == b;
        assert(weight(data[i + k]) == b);
    }
}

/// The largest weight in a contiguous run. A run longer than
/// `LINEAR_IMPL_THRESHOLD` is split at `split_point` and the two parts are
/// reduced each on its own.
pub fn norm_max_simd_pairwise_rows(lane_count: usize, data: &[u64]) -> (r: u64)
    ensures
        is_max_weight(data@, r),
    decreases data.len(),
{
    if data.len() <= LINEAR_IMPL_THRESHOLD {
        norm_max_simd(lane_count, data)
    } else {
        let split_point = split_point(data.len());
        let (head, tail) = data.split_at(split_point);
        let acc0 = norm_max_simd_pairwise_rows(lane_count, head);
        let acc1 = norm_max_simd_pairwise_rows(lane_count, tail);
        proof {
            lemma_max_weight_split(data@, split_point as int, acc0, acc1);
        }
        if acc0 > acc1 {
            acc0
        } else {
            acc1
        }
    }
}

/// The norm of a matrix of one column is the largest weight in the column.
pub proof fn lemma_norm_of_col(buf: Seq<u64>, view: MatView, col: Seq<u64>, v: u64)
    requires
        view.ncols == 1,
        col.len() == view.nrows,
        forall|i: int| 0 <= i < view.nrows ==> col[i] == view.at(buf, i, 0),
        is_max_weight(col, v),
    ensures
        is_norm_max(buf, view, v),
{
    assert forall|i: int, j: int| view.has(i, j) implies weight(#[trigger] view.at(buf, i, j))
        <= v by {
        assert(weight(col[i]) <= v);
    }
    if v != 0 {
        let i = choose|i: int| 0 <= i < col.len() && weight(#[trigger] col[i]) == v;
        assert(view.has(i, 0) && weight(view.at(buf, i, 0)) == v);
    }
}

/// The norm of a matrix cut in two by columns is the larger of the norms
/// of the two blocks.
pub proof fn lemma_norm_split_cols(
    buf: Seq<u64>,
    view: MatView,
    left: MatView,
    right: MatView,
    k: int,
    a: u64,
    b: u64,
)
    requires
        0 <= k <= view.ncols,
        left.is_block_of(view, 0, 0),
        left.nrows == view.nrows,
        left.ncols == k,
        right.is_block_of(view, 0, k),
        right.nrows == view.nrows,
        right.ncols == view.ncols - k,
        is_norm_max(buf, left, a),
        is_norm_max(buf, right, b),
    ensures
        is_norm_max(
            buf,
            view,
            if a > b {
                a
            } else {
                b
            },
        ),
{
    assert forall|i: int, j: int| view.has(i, j) implies weight(#[trigger] view.at(buf, i, j)) <= (
    if a > b {
        a
    } else {
        b
    }) by {
        if j < k {
            assert(left.has(i, j));
            assert(left.at(buf, i, j) == view.at(buf, i, j));
        } else {
            assert(right.has(i, j - k));
            assert(right.at(buf, i, j - k) == view.at(buf, i, j));
        }
    }
    if a > b {
        let (i, j) = choose|i: int, j: int|
            left.has(i, j) && weight(#[trigger] left.at(buf, i, j)) == a;
        assert(view.has(i, j) && weight(view.at(buf, i, j)) == a);
    } else if b != 0 {
        let (i, j) = choose|i: int, j: int|
            right.has(i, j) && weight(#[trigger] right.at(buf, i, j)) == b;
        assert(view.has(i, j + k) && weight(view.at(buf, i, j + k)) == b);
    }
}

/// The max-norm of a matrix with contiguous columns. A matrix of several
/// columns is split at `split_point` and the two blocks are reduced each
/// on its own; a single column is reduced as a run.
pub fn norm_max_simd_pairwise_cols(lane_count: usize, buf: &[u64], data: MatView) -> (r: u64)
    requires
        data.in_bounds(buf.len() as int),
        data.row_stride == 1,
        data.nrows > 0,
        data.ncols > 0,
    ensures
        is_norm_max(buf@, data, r),
    decreases data.ncols,
{
    if data.ncols == 1 {
        let start = data.position(0, 0);
        proof {
            crate::pivot::lemma_contiguous_col(data, 0, buf.len() as int);
        }
        let col = slice_subrange(buf, start, start + data.nrows);
        let r = norm_max_simd_pairwise_rows(lane_count, col);
        proof {
            assert forall|i: int| 0 <= i < data.nrows implies col@[i] == data.at(buf@, i, 0) by {
                assert(data.has(i, 0));
            }
            lemma_norm_of_col(buf@, data, col@, r);
        }
        r
    } else {
        let split_point = split_point(data.ncols);
        let head = data.submatrix(0, 0, data.nrows, split_point);
        let tail = data.submatrix(0, split_point, data.nrows, data.ncols - split_point);
        proof {
            lemma_block_in_bounds(data, head, 0, 0, buf.len() as int);
            lemma_block_in_bounds(data, tail, 0, split_point as int, buf.len() as int);
        }
        let acc0 = norm_max_simd_pairwise_cols(lane_count, buf, head);
        let acc1 = norm_max_simd_pairwise_cols(lane_count, buf, tail);
        proof {
            lemma_norm_split_cols(buf@, data, head, tail, split_point as int, acc0, acc1);
        }
        if acc0 > acc1 {
            acc0
        } else {
            acc1
        }
    }
}

/// A block of a view that is in bounds is in bounds.
pub proof fn lemma_block_in_bounds(view: MatView, block: MatView, r0: int, c0: int, len: int)
    requires
        view.in_bounds(len),
        block.is_block_of(view, r0, c0),
    ensures
        block.in_bounds(len),
{
    assert forall|i: int, j: int| block.has(i, j) implies 0 <= #[trigger] block.index(i, j)
        < len by {
        assert(view.has(r0 + i, c0 + j));
    }
}

/// The norm of the transpose is the norm of the matrix.
pub proof fn lemma_norm_transposed(buf: Seq<u64>, view: MatView, v: u64)
    requires
        is_norm_max(buf, view.transposed(), v),
    ensures
        is_norm_max(buf, view, v),
{
    let t = view.transposed();
    assert forall|i: int, j: int| view.has(i, j) implies weight(#[trigger] view.at(buf, i, j))
        <= v by {
        assert(t.has(j, i));
        assert(t.at(buf, j, i) == view.at(buf, i, j));
    }
    if v != 0 {
        let (a, b) = choose|a: int, b: int| t.has(a, b) && weight(#[trigger] t.at(buf, a, b)) == v;
        assert(view.has(b, a));
        assert(view.at(buf, b, a) == t.at(buf, a, b));
    }
}

/// The norm of a matrix with its rows reversed is the norm of the matrix.
pub proof fn lemma_norm_reversed(buf: Seq<u64>, view: MatView, reversed: MatView, v: u64)
    requires
        reversed.nrows == view.nrows,
        reversed.ncols == view.ncols,
        forall|i: int, j: int|
            reversed.has(i, j) ==> #[trigger] reversed.index(i, j) == view.index(
                view.nrows - 1 - i,
                j,
            ),
        is_norm_max(buf, reversed, v),
    ensures
        is_norm_max(buf, view, v),
{
    assert forall|i: int, j: int| view.has(i, j) implies weight(#[trigger] view.at(buf, i, j))
        <= v by {
        let a = view.nrows - 1 - i;
        assert(reversed.has(a, j));
        assert(reversed.index(a, j) == view.index(view.nrows - 1 - a, j));
        assert(reversed.at(buf, a, j) == view.at(buf, i, j));
    }
    if v != 0 {
        let (a, b) = choose|a: int, b: int|
            reversed.has(a, b) && weight(#[trigger] reversed.at(buf, a, b)) == v;
        assert(view.has(view.nrows - 1 - a, b));
        assert(reversed.index(a, b) == view.index(view.nrows - 1 - a, b));
        assert(view.at(buf, view.nrows - 1 - a, b) == reversed.at(buf, a, b));
    }
}

/// The max-norm of a matrix of any layout, entry by entry.
pub fn norm_max_scalar(buf: &[u64], mat: MatView) -> (r: u64)
    requires
        mat.in_bounds(buf.len() as int),
    ensures
        is_norm_max(buf@, mat, r),
{
    let m = mat.nrows;
    let n = mat.ncols;
    let mut acc: u64 = 0;
    if m == 0 {
        return 0;
    }
    let mut j: usize = 0;
    while j < n
        invariant
            mat.in_bounds(buf.len() as int),
            m == mat.nrows,
            n == mat.ncols,
            m > 0,
            j <= n,
            reduced_before(buf@, mat, 0, j as int, acc),
        decreases n - j,
    {
        let mut i: usize = 0;
        while i < m
            invariant
                mat.in_bounds(buf.len() as int),
                m == mat.nrows,
                n == mat.ncols,
                m > 0,
                j < n,
                i <= m,
                reduced_before(buf@, mat, i as int, j as int, acc),
                i == m ==> reduced_before(buf@, mat, 0, j + 1, acc),
            decreases m - i,
        {
            let val = weigh(mat.get(buf, i, j));
            proof {
                assert(mat.has(i as int, j as int));
            }
            if val > acc {
                acc = val;
            }
            i += 1;
        }
        j += 1;
    }
    acc
}

/// The max-norm of a matrix: the largest weight among its entries, and 0
/// for a matrix without entries; a NaN weighs nothing.
///
/// A matrix of several columns whose rows are contiguous is taken as its
/// transpose, and one whose rows run backwards with its rows reversed.
/// Where the columns then are contiguous the reduction is pairwise and
/// lane by lane, `lane_count` lanes at a time; any other layout is reduced
/// entry by entry.
pub fn norm_max(lane_count: usize, buf: &[u64], mat: MatView) -> (r: u64)
    requires
        mat.readable(buf.len() as int),
    ensures
        is_norm_max(buf@, mat, r),
{
    let ghost given = mat;
    let mut mat = mat;
    if mat.ncols > 1 && (mat.col_stride == 1 || mat.col_stride == -1) {
        proof {
            lemma_transposed_readable(mat, buf.len() as int);
        }
        mat = mat.transpose();
    }
    let ghost turned = mat;
    if mat.row_stride < 0 {
        let reversed = mat.reverse_rows();
        proof {
            lemma_reversed_in_bounds(mat, reversed, buf.len() as int);
        }
        mat = reversed;
    }

    let r = if mat.nrows == 0 || mat.ncols == 0 {
        0
    } else if mat.row_stride == 1 {
        norm_max_simd_pairwise_cols(lane_count, buf, mat)
    } else {
        norm_max_scalar(buf, mat)
    };
    proof {
        if mat != turned {
            lemma_norm_reversed(buf@, turned, mat, r);
        }
        if turned != given {
            lemma_norm_transposed(buf@, given, r);
        }
    }
    r
}

/// The transpose of a readable view is readable.
pub proof fn lemma_transposed_readable(view: MatView, len: int)
    requires
        view.readable(len),
    ensures
        view.transposed().readable(len),
{
    let t = view.transposed();
    view.lemma_transpose(len);
    assert forall|i: int, j: int| t.has(i, j) implies 0 <= #[trigger] t.index(i, j) < len by {
        assert(view.has(j, i));
    }
}

/// A view with its rows reversed stays in bounds.
pub proof fn lemma_reversed_in_bounds(view: MatView, reversed: MatView, len: int)
    requires
        view.in_bounds(len),
        reversed.nrows == view.nrows,
        reversed.ncols == view.ncols,
        forall|i: int, j: int|
            reversed.has(i, j) ==> #[trigger] reversed.index(i, j) == view.index(
                view.nrows - 1 - i,
                j,
            ),
    ensures
        reversed.in_bounds(len),
{
    assert forall|i: int, j: int| reversed.has(i, j) implies 0 <= #[trigger] reversed.index(i, j)
        < len by {
        assert(view.has(view.nrows - 1 - i, j));
    }
}

/// `v` is the largest weight among the entries met before `(i0, j0)`,
/// column after column, and 0 if none was met.
pub open spec fn reduced_before(buf: Seq<u64>, view: MatView, i0: int, j0: int, v: u64) -> bool {
    &&& forall|i: int, j: int|
        view.has(i, j) && comes_before(false, i, j, i0, j0) ==> weight(
            #[trigger] view.at(buf, i, j),
        ) <= v
    &&& v == 0 || exists|i: int, j: int| view.has(i, j) && weight(#[trigger] view.at(buf, i, j)) == v
}

/// The max-norm of a matrix is determined by its entries: it does not
/// depend on the lane count, nor on how the reduction was split.
pub proof fn lemma_norm_max_unique(buf: Seq<u64>, view: MatView, v0: u64, v1: u64)
    requires
        is_norm_max(buf, view, v0),
        is_norm_max(buf, view, v1),
    ensures
        v0 == v1,
{
    if v0 != 0 {
        let (i, j) = choose|i: int, j: int| view.has(i, j) && weight(#[trigger] view.at(buf, i, j)) == v0;
        assert(weight(view.at(buf, i, j)) <= v1);
    }
    if v1 != 0 {
        let (i, j) = choose|i: int, j: int| view.has(i, j) && weight(#[trigger] view.at(buf, i, j)) == v1;
        assert(weight(view.at(buf, i, j)) <= v0);
    }
}

/// The max-norm of a matrix and of its transpose are the same.
pub proof fn lemma_norm_max_transpose(buf: Seq<u64>, view: MatView, v: u64)
    ensures
        is_norm_max(buf, view, v) <==> is_norm_max(buf, view.transposed(), v),
{
    if is_norm_max(buf, view.transposed(), v) {
        lemma_norm_transposed(buf, view, v);
    }
    if is_norm_max(buf, view, v) {
        assert(view.transposed().transposed() == view);
        lemma_norm_transposed(buf, view.transposed(), v);
    }
}

/// The real part of entry `(i, j)` of a complex matrix: a complex entry is
/// two consecutive patterns, real part first, and `view` counts in entries.
pub open spec fn re_at(buf: Seq<u64>, view: MatView, i: int, j: int) -> u64 {
    buf[2 * view.index(i, j)]
}

/// The imaginary part of entry `(i, j)` of a complex matrix.
pub open spec fn im_at(buf: Seq<u64>, view: MatView, i: int, j: int) -> u64 {
    buf[2 * view.index(i, j) + 1]
}

/// Both parts of every entry of the complex matrix lie inside a buffer of
/// `len` patterns.
pub open spec fn complex_in_bounds(view: MatView, len: int) -> bool {
    forall|i: int, j: int|
        view.has(i, j) ==> 0 <= #[trigger] view.index(i, j) && 2 * view.index(i, j) + 1 < len
}

/// `v` is the largest weight among the real and imaginary parts of the
/// entries of the complex matrix, and 0 if it has none.
pub open spec fn is_norm_max_complex(buf: Seq<u64>, view: MatView, v: u64) -> bool {
    &&& forall|i: int, j: int|
        view.has(i, j) ==> weight(#[trigger] re_at(buf, view, i, j)) <= v && weight(
            im_at(buf, view, i, j),
        ) <= v
    &&& v == 0 || exists|i: int, j: int|
        view.has(i, j) && (weight(#[trigger] re_at(buf, view, i, j)) == v || weight(
            im_at(buf, view, i, j),
        ) == v)
}

/// The norm of a complex matrix with contiguous columns is the norm of the
/// real matrix of twice as many rows that its parts make in memory.
pub proof fn lemma_norm_of_parts(buf: Seq<u64>, view: MatView, parts: MatView, v: u64)
    requires
        view.row_stride == 1,
        parts.row_stride == 1,
        parts.offset == 2 * view.offset,
        parts.nrows == 2 * view.nrows,
        parts.ncols == view.ncols,
        parts.col_stride == 2 * view.col_stride,
        is_norm_max(buf, parts, v),
    ensures
        is_norm_max_complex(buf, view, v),
{
    assert forall|i: int, j: int| view.has(i, j) implies 2 * view.index(i, j) == parts.index(
        2 * i,
        j,
    ) && 2 * view.index(i, j) + 1 == parts.index(2 * i + 1, j) by {
        assert(j * (2 * view.col_stride) == 2 * (j * view.col_stride)) by (nonlinear_arith);
    }
    assert forall|i: int, j: int| view.has(i, j) implies weight(
        #[trigger] re_at(buf, view, i, j),
    ) <= v && weight(im_at(buf, view, i, j)) <= v by {
        assert(parts.has(2 * i, j) && parts.has(2 * i + 1, j));
        assert(parts.at(buf, 2 * i, j) == re_at(buf, view, i, j));
        assert(parts.at(buf, 2 * i + 1, j) == im_at(buf, view, i, j));
    }
    if v != 0 {
        let (a, j) = choose|a: int, j: int| parts.has(a, j) && weight(#[trigger] parts.at(buf, a, j)) == v;
        let i = a / 2;
        assert(view.has(i, j));
        assert(2 * view.index(i, j) == parts.index(2 * i, j));
        if a % 2 == 0 {
            assert(parts.at(buf, a, j) == re_at(buf, view, i, j));
        } else {
            assert(parts.at(buf, a, j) == im_at(buf, view, i, j));
        }
    }
}

/// `v` is the largest weight among the parts of the entries met before
/// `(i0, j0)`, column after column, and 0 if none was met.
pub open spec fn complex_reduced_before(
    buf: Seq<u64>,
    view: MatView,
    i0: int,
    j0: int,
    v: u64,
) -> bool {
    &&& forall|i: int, j: int|
        view.has(i, j) && comes_before(false, i, j, i0, j0) ==> weight(
            #[trigger] re_at(buf, view, i, j),
        ) <= v && weight(im_at(buf, view, i, j)) <= v
    &&& v == 0 || exists|i: int, j: int|
        view.has(i, j) && (weight(#[trigger] re_at(buf, view, i, j)) == v || weight(
            im_at(buf, view, i, j),
        ) == v)
}

/// The max-norm of a complex matrix of any layout, entry by entry.
pub fn norm_max_complex_scalar(buf: &[u64], mat: MatView) -> (r: u64)
    requires
        complex_in_bounds(mat, buf.len() as int),
    ensures
        is_norm_max_complex(buf@, mat, r),
{
    let m = mat.nrows;
    let n = mat.ncols;
    let mut acc: u64 = 0;
    if m == 0 {
        return 0;
    }
    proof {
        assert(mat.in_bounds(usize::MAX as int)) by {
            assert forall|i: int, j: int| mat.has(i, j) implies 0 <= #[trigger] mat.index(i, j)
                < usize::MAX by {}
        }
    }
    let mut j: usize = 0;
    while j < n
        invariant
            complex_in_bounds(mat, buf.len() as int),
            mat.addressable(),
            m == mat.nrows,
            n == mat.ncols,
            m > 0,
            j <= n,
            complex_reduced_before(buf@, mat, 0, j as int, acc),
        decreases n - j,
    {
        let mut i: usize = 0;
        while i < m
            invariant
                complex_in_bounds(mat, buf.len() as int),
                mat.addressable(),
                m == mat.nrows,
                n == mat.ncols,
                m > 0,
                j < n,
                i <= m,
                complex_reduced_before(buf@, mat, i as int, j as int, acc),
                i == m ==> complex_reduced_before(buf@, mat, 0, j + 1, acc),
            decreases m - i,
        {
            proof {
                assert(mat.has(i as int, j as int));
            }
            let p = mat.position(i, j);
            let re = weigh(buf[2 * p]);
            let im = weigh(buf[2 * p + 1]);
            proof {
                assert(re == weight(re_at(buf@, mat, i as int, j as int)));
                assert(im == weight(im_at(buf@, mat, i as int, j as int)));
            }
            let val = if re > im {
                re
            } else {
                im
            };
            if val > acc {
                acc = val;
            }
            i += 1;
        }
        j += 1;
    }
    acc
}

/// The view of the real matrix that the parts of a complex matrix with
/// contiguous columns make: twice the offset, twice the rows and twice the
/// column stride. There is such a view exactly where twice the column
/// stride can be held in an `isize`.
fn parts_of(mat: MatView, Ghost(len): Ghost<int>) -> (r: Option<MatView>)
    requires
        complex_in_bounds(mat, len),
        len <= usize::MAX,
        mat.row_stride == 1,
        mat.nrows > 0,
        mat.ncols > 0,
    ensures
        r.is_some() <==> isize::MIN <= 2 * mat.col_stride <= isize::MAX,
        r matches Some(parts) ==> {
            &&& parts.row_stride == 1
            &&& parts.offset == 2 * mat.offset
            &&& parts.nrows == 2 * mat.nrows
            &&& parts.ncols == mat.ncols
            &&& parts.col_stride == 2 * mat.col_stride
            &&& parts.in_bounds(len)
        },
{
    proof {
        assert(mat.has(0, 0));
        assert(mat.has(mat.nrows - 1, 0));
        assert(mat.index(0, 0) == mat.offset);
        assert(mat.index(mat.nrows - 1, 0) == mat.offset + (mat.nrows - 1));
    }
    match mat.col_stride.checked_mul(2) {
        None => None,
        Some(col_stride) => {
            let parts = MatView {
                offset: 2 * mat.offset,
                nrows: 2 * mat.nrows,
                ncols: mat.ncols,
                row_stride: 1,
                col_stride,
            };
            proof {
                assert forall|a: int, j: int| parts.has(a, j) implies 0 <= #[trigger] parts.index(
                    a,
                    j,
                ) < len by {
                    let i = a / 2;
                    assert(mat.has(i, j));
                    assert(j * (2 * mat.col_stride) == 2 * (j * mat.col_stride)) by (nonlinear_arith);
                    assert(parts.index(a, j) == 2 * mat.index(i, j) + a % 2);
                }
            }
            Some(parts)
        },
    }
}

/// The max-norm of a complex matrix: the largest weight among the real and
/// imaginary parts of its entries. A complex entry is two consecutive
/// patterns, real part first; the view counts in entries.
///
/// The layout is brought into shape as for a real matrix. Where the
/// columns then are contiguous, the matrix is reduced as the real matrix
/// of twice as many rows that its parts make in memory; any other layout
/// is reduced entry by entry.
pub fn norm_max_complex(lane_count: usize, buf: &[u64], mat: MatView) -> (r: u64)
    requires
        complex_in_bounds(mat, buf.len() as int),
        mat.row_stride > isize::MIN,
        mat.col_stride > isize::MIN,
    ensures
        is_norm_max_complex(buf@, mat, r),
{
    let ghost given = mat;
    let mut mat = mat;
    if mat.ncols > 1 && (mat.col_stride == 1 || mat.col_stride == -1) {
        proof {
            lemma_complex_transposed(buf@, mat, 0);
        }
        mat = mat.transpose();
    }
    let ghost turned = mat;
    if mat.row_stride < 0 {
        proof {
            assert(mat.in_bounds(usize::MAX as int)) by {
                assert forall|i: int, j: int| mat.has(i, j) implies 0 <= #[trigger] mat.index(
                    i,
                    j,
                ) < usize::MAX by {}
            }
        }
        let reversed = mat.reverse_rows();
        proof {
            lemma_complex_reversed(buf@, mat, reversed, 0);
        }
        mat = reversed;
    }

    let r = if mat.nrows == 0 || mat.ncols == 0 {
        0
    } else if mat.row_stride == 1 {
        match parts_of(mat, Ghost(buf.len() as int)) {
            Some(parts) => {
                let r = norm_max_simd_pairwise_cols(lane_count, buf, parts);
                proof {
                    lemma_norm_of_parts(buf@, mat, parts, r);
                }
                r
            },
            None => norm_max_complex_scalar(buf, mat),
        }
    } else {
        norm_max_complex_scalar(buf, mat)
    };
    proof {
        if mat != turned {
            lemma_complex_reversed(buf@, turned, mat, r);
        }
        if turned != given {
            lemma_complex_transposed(buf@, given, r);
        }
    }
    r
}

/// A complex matrix and its transpose have their parts in the same places
/// and the same norm.
pub proof fn lemma_complex_transposed(buf: Seq<u64>, view: MatView, v: u64)
    ensures
        complex_in_bounds(view, buf.len() as int) ==> complex_in_bounds(
            view.transposed(),
            buf.len() as int,
        ),
        is_norm_max_complex(buf, view.transposed(), v) ==> is_norm_max_complex(buf, view, v),
{
    let t = view.transposed();
    if complex_in_bounds(view, buf.len() as int) {
        assert forall|i: int, j: int| t.has(i, j) implies 0 <= #[trigger] t.index(i, j) && 2
            * t.index(i, j) + 1 < buf.len() by {
            assert(view.has(j, i));
            assert(t.index(i, j) == view.index(j, i));
        }
    }
    if is_norm_max_complex(buf, t, v) {
        assert forall|i: int, j: int| view.has(i, j) implies weight(
            #[trigger] re_at(buf, view, i, j),
        ) <= v && weight(im_at(buf, view, i, j)) <= v by {
            assert(t.has(j, i));
            assert(t.index(j, i) == view.index(i, j));
            assert(re_at(buf, t, j, i) == re_at(buf, view, i, j));
        }
        if v != 0 {
            let (a, b) = choose|a: int, b: int|
                t.has(a, b) && (weight(#[trigger] re_at(buf, t, a, b)) == v || weight(
                    im_at(buf, t, a, b),
                ) == v);
            assert(view.has(b, a));
            assert(t.index(a, b) == view.index(b, a));
            assert(re_at(buf, view, b, a) == re_at(buf, t, a, b));
        }
    }
}

/// A complex matrix and the same with its rows reversed have their parts
/// in the same places and the same norm.
pub proof fn lemma_complex_reversed(buf: Seq<u64>, view: MatView, reversed: MatView, v: u64)
    requires
        reversed.nrows == view.nrows,
        reversed.ncols == view.ncols,
        forall|i: int, j: int|
            reversed.has(i, j) ==> #[trigger] reversed.index(i, j) == view.index(
                view.nrows - 1 - i,
                j,
            ),
    ensures
        complex_in_bounds(view, buf.len() as int) ==> complex_in_bounds(
            reversed,
            buf.len() as int,
        ),
        is_norm_max_complex(buf, reversed, v) ==> is_norm_max_complex(buf, view, v),
{
    if complex_in_bounds(view, buf.len() as int) {
        assert forall|i: int, j: int| reversed.has(i, j) implies 0 <= #[trigger] reversed.index(
            i,
            j,
        ) && 2 * reversed.index(i, j) + 1 < buf.len() by {
            assert(view.has(view.nrows - 1 - i, j));
        }
    }
    if is_norm_max_complex(buf, reversed, v) {
        assert forall|i: int, j: int| view.has(i, j) implies weight(
            #[trigger] re_at(buf, view, i, j),
        ) <= v && weight(im_at(buf, view, i, j)) <= v by {
            let a = view.nrows - 1 - i;
            assert(reversed.has(a, j));
            assert(reversed.index(a, j) == view.index(view.nrows - 1 - a, j));
            assert(re_at(buf, reversed, a, j) == re_at(buf, view, i, j));
        }
        if v != 0 {
            assert(exists|a: int, b: int|
                reversed.has(a, b) && (weight(#[trigger] re_at(buf, reversed, a, b)) == v || weight(
                    im_at(buf, reversed, a, b),
                ) == v));
            let (a, b) = choose|a: int, b: int|
                reversed.has(a, b) && (weight(#[trigger] re_at(buf, reversed, a, b)) == v || weight(
                    im_at(buf, reversed, a, b),
                ) == v);
            let i = view.nrows - 1 - a;
            assert(0 <= a < reversed.nrows && 0 <= b < reversed.ncols);
            assert(view.has(i, b));
            assert(reversed.index(a, b) == view.index(i, b));
            assert(re_at(buf, view, i, b) == re_at(buf, reversed, a, b));
            assert(im_at(buf, view, i, b) == im_at(buf, reversed, a, b));
        }
    }
}

} // verus!
