//! The search for the entry of largest weight in a matrix, alone or fused
//! with a rank-one update.

use crate::column::{best_in_col_f64, total3, update_and_best_in_col_f64, updated_col};
use crate::cover::is_best_in_col;
use crate::scalar::{negate, negated, weigh, weight};
use crate::view::MatView;
use vstd::prelude::*;
use vstd::slice::slice_subrange;

verus! {

/// Whether `(i, j)` is met before `(r, c)`: column after column, each from
/// the top, or, where `by_rows` is set, row after row, each from the left.
pub open spec fn comes_before(by_rows: bool, i: int, j: int, r: int, c: int) -> bool {
    if by_rows {
        i < r || (i == r && j < c)
    } else {
        j < c || (j == c && i < r)
    }
}

/// `(r, c)` is the pivot of the view: an entry of largest weight, and among
/// those the one that the scan meets first. In a view without entries it is
/// `(0, 0)`.
pub open spec fn is_pivot(buf: Seq<u64>, view: MatView, by_rows: bool, r: int, c: int) -> bool {
    if view.is_empty() {
        r == 0 && c == 0
    } else {
        &&& view.has(r, c)
        &&& forall|i: int, j: int|
            view.has(i, j) ==> weight(#[trigger] view.at(buf, i, j)) <= weight(view.at(buf, r, c))
        &&& forall|i: int, j: int|
            view.has(i, j) && comes_before(by_rows, i, j, r, c) ==> weight(
                #[trigger] view.at(buf, i, j),
            ) < weight(view.at(buf, r, c))
    }
}

/// A view is scanned row after row where its rows are contiguous and its
/// columns are not, and column after column otherwise.
pub open spec fn scans_by_rows(view: MatView) -> bool {
    view.row_stride != 1 && view.col_stride == 1
}

/// The running winner `(v, r, c)` of a scan, column after column, that has
/// met every entry before `(i0, j0)`.
pub open spec fn best_before(
    buf: Seq<u64>,
    view: MatView,
    i0: int,
    j0: int,
    v: u64,
    r: int,
    c: int,
) -> bool {
    &&& forall|i: int, j: int|
        view.has(i, j) && comes_before(false, i, j, i0, j0) ==> weight(
            #[trigger] view.at(buf, i, j),
        ) <= v
    &&& forall|i: int, j: int|
        view.has(i, j) && comes_before(false, i, j, i0, j0) && comes_before(false, i, j, r, c)
            ==> weight(#[trigger] view.at(buf, i, j)) < v
    &&& if v == 0 {
        r == 0 && c == 0
    } else {
        view.has(r, c) && comes_before(false, r, c, i0, j0) && weight(view.at(buf, r, c)) == v
    }
}

/// The running winner after the first `upto` columns.
pub open spec fn best_upto(buf: Seq<u64>, view: MatView, upto: int, v: u64, r: int, c: int) -> bool {
    best_before(buf, view, 0, upto, v, r, c)
}

/// A running winner that has seen every column is the pivot.
pub proof fn lemma_best_upto_all(buf: Seq<u64>, view: MatView, v: u64, r: int, c: int)
    requires
        best_upto(buf, view, view.ncols as int, v, r, c),
    ensures
        is_pivot(buf, view, false, r, c),
{
    if !view.is_empty() && v == 0 {
        assert(view.has(0, 0));
        assert(weight(view.at(buf, 0, 0)) <= v);
    }
}

/// The winner after one more column, whose best entry is `(cv, ci)`.
pub proof fn lemma_best_upto_next(
    buf: Seq<u64>,
    view: MatView,
    upto: int,
    v: u64,
    r: int,
    c: int,
    col: Seq<u64>,
    cv: u64,
    ci: int,
)
    requires
        0 <= upto < view.ncols,
        view.nrows > 0,
        best_upto(buf, view, upto, v, r, c),
        col.len() == view.nrows,
        forall|i: int| 0 <= i < view.nrows ==> col[i] == view.at(buf, i, upto),
        is_best_in_col(col, cv, ci),
    ensures
        cv > v ==> best_upto(buf, view, upto + 1, cv, ci, upto),
        cv <= v ==> best_upto(buf, view, upto + 1, v, r, c),
{
    assert forall|i: int, j: int| view.has(i, j) && j == upto implies weight(
        #[trigger] view.at(buf, i, j),
    ) <= cv by {
        assert(weight(col[i]) <= cv);
    }
    if cv > v {
        assert forall|i: int, j: int|
            view.has(i, j) && j < upto + 1 && comes_before(false, i, j, ci, upto) implies weight(
                #[trigger] view.at(buf, i, j),
            ) < cv by {
            if j == upto {
                assert(weight(col[i]) < cv);
            }
        }
    }
}

/// The pivot of a matrix whose columns are contiguous, found column by
/// column, each column `lane_count` lanes at a time.
pub fn best_in_matrix_f64(lane_count: usize, buf: &[u64], matrix: MatView) -> (r: (usize, usize))
    requires
        matrix.in_bounds(buf.len() as int),
        matrix.row_stride == 1,
    ensures
        is_pivot(buf@, matrix, false, r.0 as int, r.1 as int),
{
    let m = matrix.nrows;
    let n = matrix.ncols;
    let mut best_row: usize = 0;
    let mut best_col: usize = 0;
    let mut best_value: u64 = 0;
    if m == 0 {
        return (0, 0);
    }
    let mut j: usize = 0;
    while j < n
        invariant
            matrix.in_bounds(buf.len() as int),
            matrix.row_stride == 1,
            m == matrix.nrows,
            n == matrix.ncols,
            m > 0,
            j <= n,
            best_upto(buf@, matrix, j as int, best_value, best_row as int, best_col as int),
        decreases n - j,
    {
        let start = matrix.position(0, j);
        proof {
            lemma_contiguous_col(matrix, j as int, buf.len() as int);
        }
        let col = slice_subrange(buf, start, start + m);
        let (best_value_in_col, best_index_in_col) = best_in_col_f64(lane_count, col);
        proof {
            assert forall|i: int| 0 <= i < m implies col@[i] == matrix.at(buf@, i, j as int) by {
                assert(matrix.has(i, j as int));
            }
            lemma_best_upto_next(
                buf@,
                matrix,
                j as int,
                best_value,
                best_row as int,
                best_col as int,
                col@,
                best_value_in_col,
                best_index_in_col as int,
            );
        }
        if best_value_in_col > best_value {
            best_value = best_value_in_col;
            best_row = best_index_in_col;
            best_col = j;
        }
        j += 1;
    }
    proof {
        lemma_best_upto_all(buf@, matrix, best_value, best_row as int, best_col as int);
    }
    (best_row, best_col)
}

/// Where rows follow one another in memory, column `j` is the run of
/// `nrows` elements that starts at its first entry.
pub proof fn lemma_contiguous_col(view: MatView, j: int, len: int)
    requires
        view.in_bounds(len),
        view.row_stride == 1,
        view.nrows > 0,
        0 <= j < view.ncols,
    ensures
        0 <= view.index(0, j),
        view.index(0, j) + view.nrows <= len,
        forall|i: int| 0 <= i < view.nrows ==> #[trigger] view.index(i, j) == view.index(0, j) + i,
{
    assert(view.has(0, j));
    assert(view.has(view.nrows - 1, j));
    assert(view.index(view.nrows - 1, j) == view.index(0, j) + view.nrows - 1);
}

/// The winner after one more entry, met with a strict `>`.
pub proof fn lemma_best_before_next(
    buf: Seq<u64>,
    view: MatView,
    i0: int,
    j0: int,
    v: u64,
    r: int,
    c: int,
)
    requires
        view.has(i0, j0),
        best_before(buf, view, i0, j0, v, r, c),
    ensures
        weight(view.at(buf, i0, j0)) > v ==> best_before(
            buf,
            view,
            i0 + 1,
            j0,
            weight(view.at(buf, i0, j0)),
            i0,
            j0,
        ),
        weight(view.at(buf, i0, j0)) <= v ==> best_before(buf, view, i0 + 1, j0, v, r, c),
        i0 + 1 == view.nrows ==> forall|w: u64, a: int, b: int|
            best_before(buf, view, i0 + 1, j0, w, a, b) ==> #[trigger] best_before(
                buf,
                view,
                0,
                j0 + 1,
                w,
                a,
                b,
            ),
{
}

/// The pivot of a transposed view, found column after column, is the
/// pivot of the view itself found row after row, with its two indices
/// exchanged.
pub proof fn lemma_pivot_transposed(buf: Seq<u64>, view: MatView, r: int, c: int)
    requires
        is_pivot(buf, view.transposed(), false, r, c),
    ensures
        is_pivot(buf, view, true, c, r),
{
    let t = view.transposed();
    view.lemma_transpose(0);
    if !view.is_empty() {
        assert(t.has(r, c));
        assert(t.at(buf, r, c) == view.at(buf, c, r));
        assert forall|i: int, j: int| view.has(i, j) implies weight(
            #[trigger] view.at(buf, i, j),
        ) <= weight(view.at(buf, c, r)) by {
            assert(t.has(j, i));
            assert(t.at(buf, j, i) == view.at(buf, i, j));
        }
        assert forall|i: int, j: int|
            view.has(i, j) && comes_before(true, i, j, c, r) implies weight(
                #[trigger] view.at(buf, i, j),
            ) < weight(view.at(buf, c, r)) by {
            assert(t.has(j, i));
            assert(t.at(buf, j, i) == view.at(buf, i, j));
            assert(comes_before(false, j, i, r, c));
        }
    }
}

/// The pivot of a matrix: an entry of largest weight, the first that the
/// scan meets. Contiguous columns are scanned `lane_count` lanes at a time;
/// a matrix with contiguous rows is scanned as its transpose, row after
/// row; any other layout is scanned entry by entry, column after column.
pub fn best_in_matrix(lane_count: usize, buf: &[u64], matrix: MatView) -> (r: (usize, usize))
    requires
        matrix.in_bounds(buf.len() as int),
    ensures
        is_pivot(buf@, matrix, scans_by_rows(matrix), r.0 as int, r.1 as int),
{
    let is_col_major = matrix.row_stride == 1;
    let is_row_major = matrix.col_stride == 1;

    if is_col_major {
        best_in_matrix_f64(lane_count, buf, matrix)
    } else if is_row_major {
        proof {
            matrix.lemma_transpose(buf.len() as int);
            assert(matrix.transposed().in_bounds(buf.len() as int)) by {
                assert forall|i: int, j: int| matrix.transposed().has(i, j) implies 0
                    <= #[trigger] matrix.transposed().index(i, j) < buf.len() by {
                    assert(matrix.has(j, i));
                }
            }
        }
        let (col, row) = best_in_matrix_f64(lane_count, buf, matrix.transpose());
        proof {
            lemma_pivot_transposed(buf@, matrix, col as int, row as int);
        }
        (row, col)
    } else {
        let m = matrix.nrows;
        let n = matrix.ncols;

        let mut max: u64 = 0;
        let mut max_row: usize = 0;
        let mut max_col: usize = 0;

        if m == 0 {
            return (0, 0);
        }
        let mut j: usize = 0;
        while j < n
            invariant
                matrix.in_bounds(buf.len() as int),
                m == matrix.nrows,
                n == matrix.ncols,
                m > 0,
                j <= n,
                best_before(buf@, matrix, 0, j as int, max, max_row as int, max_col as int),
            decreases n - j,
        {
            let mut i: usize = 0;
            while i < m
                invariant
                    matrix.in_bounds(buf.len() as int),
                    m == matrix.nrows,
                    n == matrix.ncols,
                    j < n,
                    i <= m,
                    m > 0,
                    best_before(
                        buf@,
                        matrix,
                        i as int,
                        j as int,
                        max,
                        max_row as int,
                        max_col as int,
                    ),
                    i == m ==> best_before(
                        buf@,
                        matrix,
                        0,
                        j + 1,
                        max,
                        max_row as int,
                        max_col as int,
                    ),
                decreases m - i,
            {
                proof {
                    lemma_best_before_next(
                        buf@,
                        matrix,
                        i as int,
                        j as int,
                        max,
                        max_row as int,
                        max_col as int,
                    );
                }
                let abs = weigh(matrix.get(buf, i, j));
                if abs > max {
                    max_row = i;
                    max_col = j;
                    max = abs;
                }
                i += 1;
            }
            j += 1;
        }
        proof {
            lemma_best_upto_all(buf@, matrix, max, max_row as int, max_col as int);
        }
        (max_row, max_col)
    }
}

/// The three operands that the update hands to `mul_add` for an entry that
/// holds `d`, in a row of the left factor `l` and a column of the right
/// factor `r`: `l * (-r) + d`, and with the two factors exchanged,
/// `r * (-l) + d`, where the matrix is worked on as its transpose.
pub open spec fn operands(by_rows: bool, l: u64, r: u64, d: u64) -> (u64, u64, u64) {
    if by_rows {
        (r, negated(l), d)
    } else {
        (l, negated(r), d)
    }
}

/// `after` is `before` with the product of the column `lhs` and the row
/// `rhs` subtracted from the entries of `view`: each entry is what
/// `mul_add` has returned for its operands, and no element of the buffer
/// outside the view has changed.
pub open spec fn rank_one_updated<F: Fn(u64, u64, u64) -> u64>(
    mul_add: &F,
    view: MatView,
    by_rows: bool,
    lhs: Seq<u64>,
    rhs: Seq<u64>,
    before: Seq<u64>,
    after: Seq<u64>,
) -> bool {
    &&& after.len() == before.len()
    &&& forall|i: int, j: int|
        view.has(i, j) ==> mul_add.ensures(
            operands(by_rows, lhs[i], rhs[j], view.at(before, i, j)),
            #[trigger] view.at(after, i, j),
        )
    &&& forall|p: int|
        0 <= p < before.len() && !view.covers(p) ==> #[trigger] after[p] == before[p]
}

/// A running winner is not touched by a change to entries it has not met.
pub proof fn lemma_best_before_agree(
    buf0: Seq<u64>,
    buf1: Seq<u64>,
    view: MatView,
    i0: int,
    j0: int,
    v: u64,
    r: int,
    c: int,
)
    requires
        best_before(buf0, view, i0, j0, v, r, c),
        forall|i: int, j: int|
            view.has(i, j) && comes_before(false, i, j, i0, j0) ==> #[trigger] view.at(buf0, i, j)
                == view.at(buf1, i, j),
    ensures
        best_before(buf1, view, i0, j0, v, r, c),
{
    assert forall|i: int, j: int|
        view.has(i, j) && comes_before(false, i, j, i0, j0) implies weight(
        #[trigger] view.at(buf1, i, j),
    ) <= v by {
        assert(weight(view.at(buf0, i, j)) <= v);
    }
    assert forall|i: int, j: int|
        view.has(i, j) && comes_before(false, i, j, i0, j0) && comes_before(
            false,
            i,
            j,
            r,
            c,
        ) implies weight(#[trigger] view.at(buf1, i, j)) < v by {
        assert(weight(view.at(buf0, i, j)) < v);
    }
    if v != 0 {
        assert(view.at(buf0, r, c) == view.at(buf1, r, c));
    }
}

/// The number of elements from position `start` to the next position that
/// is a multiple of the lane count: what a kernel takes one at a time
/// before its first whole vector.
pub fn leading(start: usize, lane_count: usize) -> (k: usize)
    ensures
        k == (if lane_count == 8 || lane_count == 4 || lane_count == 2 {
            (lane_count - start % lane_count) % (lane_count as int)
        } else {
            0
        }),
{
    if lane_count == 8 || lane_count == 4 || lane_count == 2 {
        (lane_count - start % lane_count) % lane_count
    } else {
        0
    }
}

/// No entry of `a` shares its position with an entry of `b`.
pub open spec fn apart(a: MatView, b: MatView) -> bool {
    forall|i: int, j: int, i2: int, j2: int|
        a.has(i, j) && b.has(i2, j2) ==> #[trigger] a.index(i, j) != #[trigger] b.index(i2, j2)
}

/// The entries of the first column of `view`, from the top.
pub open spec fn col_of(buf: Seq<u64>, view: MatView) -> Seq<u64> {
    Seq::new(view.nrows as nat, |i: int| view.at(buf, i, 0))
}

/// The entries of the first row of `view`, from the left.
pub open spec fn row_of(buf: Seq<u64>, view: MatView) -> Seq<u64> {
    Seq::new(view.ncols as nat, |j: int| view.at(buf, 0, j))
}

/// A change that leaves alone what lies outside `view` leaves alone every
/// entry of a view that is apart from it.
pub proof fn lemma_apart_kept(view: MatView, other: MatView, before: Seq<u64>, after: Seq<u64>)
    requires
        apart(view, other),
        other.in_bounds(before.len() as int),
        forall|p: int|
            0 <= p < before.len() && !view.covers(p) ==> #[trigger] after[p] == before[p],
    ensures
        forall|i: int, j: int|
            other.has(i, j) ==> #[trigger] other.at(after, i, j) == other.at(before, i, j),
{
    assert forall|i: int, j: int| other.has(i, j) implies #[trigger] other.at(after, i, j)
        == other.at(before, i, j) by {
        let p = other.index(i, j);
        if view.covers(p) {
            let (a, b) = choose|a: int, b: int| view.has(a, b) && #[trigger] view.index(a, b) == p;
            assert(view.index(a, b) != other.index(i, j));
        }
    }
}

/// Updates the run of `len` elements of `buf` that starts at `start`, with
/// the run of as many elements that starts at `lhs_start` as the left
/// factor, and finds its best entry.
pub fn update_and_best_in_run<F: Fn(u64, u64, u64) -> u64>(
    lane_count: usize,
    mul_add: &F,
    buf: &mut [u64],
    start: usize,
    lhs_start: usize,
    len: usize,
    rhs: u64,
) -> (r: (u64, usize))
    requires
        total3(mul_add),
        start + len <= old(buf).len(),
        lhs_start + len <= old(buf).len(),
        lhs_start + len <= start || start + len <= lhs_start,
    ensures
        final(buf).len() == old(buf).len(),
        updated_col(
            mul_add,
            old(buf)@.subrange(lhs_start as int, lhs_start + len),
            rhs,
            old(buf)@.subrange(start as int, start + len),
            final(buf)@.subrange(start as int, start + len),
        ),
        is_best_in_col(final(buf)@.subrange(start as int, start + len), r.0, r.1 as int),
        forall|p: int|
            0 <= p < start || start + len <= p < old(buf).len() ==> #[trigger] final(buf)[p]
                == old(buf)[p],
{
    let offset = leading(start, lane_count);
    let ghost before = buf@;
    if lhs_start + len <= start {
        let (left, right) = buf.split_at_mut(start);
        let (col, _) = right.split_at_mut(len);
        let lhs = slice_subrange(left, lhs_start, lhs_start + len);
        let ghost col_before = col@;
        let r = update_and_best_in_col_f64(lane_count, mul_add, col, lhs, rhs, offset);
        proof {
            assert(lhs@ =~= before.subrange(lhs_start as int, lhs_start + len));
            assert(col_before =~= before.subrange(start as int, start + len));
            assert(col@ =~= buf@.subrange(start as int, start + len));
        }
        r
    } else {
        let (left, right) = buf.split_at_mut(lhs_start);
        let (_, rest) = left.split_at_mut(start);
        let (col, _) = rest.split_at_mut(len);
        let lhs = slice_subrange(right, 0, len);
        let ghost col_before = col@;
        let r = update_and_best_in_col_f64(lane_count, mul_add, col, lhs, rhs, offset);
        proof {
            assert(lhs@ =~= before.subrange(lhs_start as int, lhs_start + len));
            assert(col_before =~= before.subrange(start as int, start + len));
            assert(col@ =~= buf@.subrange(start as int, start + len));
        }
        r
    }
}

/// Two contiguous columns that are apart do not overlap as runs.
pub proof fn lemma_runs_apart(matrix: MatView, j: int, lhs: MatView, len: int)
    requires
        matrix.in_bounds(len),
        lhs.in_bounds(len),
        matrix.row_stride == 1,
        lhs.row_stride == 1,
        matrix.nrows > 0,
        lhs.nrows == matrix.nrows,
        lhs.ncols == 1,
        0 <= j < matrix.ncols,
        apart(matrix, lhs),
    ensures
        lhs.index(0, 0) + lhs.nrows <= matrix.index(0, j) || matrix.index(0, j) + matrix.nrows
            <= lhs.index(0, 0),
{
    let a = matrix.index(0, j);
    let b = lhs.index(0, 0);
    let m = matrix.nrows as int;
    if !(b + m <= a || a + m <= b) {
        let p = if a >= b {
            a
        } else {
            b
        };
        assert(matrix.has(p - a, j) && lhs.has(p - b, 0));
        assert(matrix.index(p - a, j) == p);
        assert(lhs.index(p - b, 0) == p);
    }
}

/// Subtracts the product of the column `lhs` and the row `rhs` from a
/// matrix whose columns are contiguous, and finds the pivot of the result
/// in the same sweep. The column `lhs` is contiguous too, and neither
/// factor lies inside the matrix.
pub fn update_and_best_in_matrix_f64<F: Fn(u64, u64, u64) -> u64>(
    lane_count: usize,
    mul_add: &F,
    buf: &mut [u64],
    matrix: MatView,
    lhs: MatView,
    rhs: MatView,
) -> (r: (usize, usize))
    requires
        total3(mul_add),
        matrix.wf(old(buf).len() as int),
        matrix.row_stride == 1,
        lhs.in_bounds(old(buf).len() as int),
        lhs.row_stride == 1,
        lhs.nrows == matrix.nrows,
        lhs.ncols == 1,
        rhs.in_bounds(old(buf).len() as int),
        rhs.nrows == 1,
        rhs.ncols == matrix.ncols,
        apart(matrix, lhs),
        apart(matrix, rhs),
    ensures
        rank_one_updated(
            mul_add,
            matrix,
            false,
            col_of(old(buf)@, lhs),
            row_of(old(buf)@, rhs),
            old(buf)@,
            final(buf)@,
        ),
        is_pivot(final(buf)@, matrix, false, r.0 as int, r.1 as int),
{
    let m = matrix.nrows;
    let n = matrix.ncols;
    let mut best_row: usize = 0;
    let mut best_col: usize = 0;
    let mut best_value: u64 = 0;
    let ghost before = buf@;
    let ghost left = col_of(before, lhs);
    let ghost right = row_of(before, rhs);
    if m == 0 {
        return (0, 0);
    }
    let lhs_start = lhs.position(0, 0);
    let mut j: usize = 0;
    while j < n
        invariant
            total3(mul_add),
            before == old(buf)@,
            left == col_of(before, lhs),
            right == row_of(before, rhs),
            buf.len() == before.len(),
            matrix.wf(buf.len() as int),
            matrix.row_stride == 1,
            lhs.in_bounds(buf.len() as int),
            lhs.row_stride == 1,
            lhs.nrows == m,
            lhs.ncols == 1,
            rhs.in_bounds(buf.len() as int),
            rhs.nrows == 1,
            rhs.ncols == n,
            apart(matrix, lhs),
            apart(matrix, rhs),
            lhs_start == lhs.index(0, 0),
            m == matrix.nrows,
            n == matrix.ncols,
            m > 0,
            j <= n,
            forall|i: int, c: int|
                matrix.has(i, c) && c < j ==> mul_add.ensures(
                    (left[i], negated(right[c]), matrix.at(before, i, c)),
                    #[trigger] matrix.at(buf@, i, c),
                ),
            forall|i: int, c: int|
                matrix.has(i, c) && c >= j ==> #[trigger] matrix.at(buf@, i, c) == matrix.at(
                    before,
                    i,
                    c,
                ),
            forall|p: int|
                0 <= p < before.len() && !matrix.covers(p) ==> #[trigger] buf[p] == before[p],
            best_upto(buf@, matrix, j as int, best_value, best_row as int, best_col as int),
        decreases n - j,
    {
        let ghost was = buf@;
        proof {
            lemma_apart_kept(matrix, lhs, before, was);
            lemma_apart_kept(matrix, rhs, before, was);
            assert(rhs.has(0, j as int));
            lemma_contiguous_col(matrix, j as int, buf.len() as int);
            lemma_contiguous_col(lhs, 0, buf.len() as int);
            lemma_runs_apart(matrix, j as int, lhs, buf.len() as int);
        }
        let rhs_j = negate(rhs.get(buf, 0, j));
        let start = matrix.position(0, j);
        let (best_value_in_col, best_index_in_col) = update_and_best_in_run(
            lane_count,
            mul_add,
            buf,
            start,
            lhs_start,
            m,
            rhs_j,
        );
        proof {
            let col = buf@.subrange(start as int, start + m);
            let col_was = was.subrange(start as int, start + m);
            let lhs_was = was.subrange(lhs_start as int, lhs_start + m);
            assert forall|i: int, c: int| matrix.has(i, c) && c != j implies #[trigger] matrix.at(
                buf@,
                i,
                c,
            ) == matrix.at(was, i, c) by {
                let p = matrix.index(i, c);
                if start <= p < start + m {
                    assert(matrix.has(p - start, j as int));
                    assert(matrix.index(p - start, j as int) == p);
                }
            }
            assert forall|i: int| 0 <= i < m implies col[i] == #[trigger] matrix.at(
                buf@,
                i,
                j as int,
            ) && col_was[i] == matrix.at(before, i, j as int) && lhs_was[i] == left[i] by {
                assert(matrix.has(i, j as int));
                assert(col_was[i] == was[start + i]);
                assert(matrix.at(was, i, j as int) == matrix.at(before, i, j as int));
                assert(lhs.has(i, 0));
                assert(lhs_was[i] == was[lhs_start + i]);
                assert(lhs.at(was, i, 0) == lhs.at(before, i, 0));
            }
            assert forall|i: int, c: int| matrix.has(i, c) && c < j + 1 implies mul_add.ensures(
                (left[i], negated(right[c]), matrix.at(before, i, c)),
                #[trigger] matrix.at(buf@, i, c),
            ) by {
                if c == j {
                    assert(mul_add.ensures((lhs_was[i], rhs_j, col_was[i]), col[i]));
                    assert(rhs.at(was, 0, j as int) == rhs.at(before, 0, j as int));
                } else {
                    assert(matrix.at(buf@, i, c) == matrix.at(was, i, c));
                }
            }
            assert forall|p: int| 0 <= p < before.len() && !matrix.covers(p) implies #[trigger] buf[p]
                == before[p] by {
                if start <= p < start + m {
                    assert(matrix.has(p - start, j as int));
                    assert(matrix.index(p - start, j as int) == p);
                }
            }
            lemma_best_before_agree(
                was,
                buf@,
                matrix,
                0,
                j as int,
                best_value,
                best_row as int,
                best_col as int,
            );
            lemma_best_upto_next(
                buf@,
                matrix,
                j as int,
                best_value,
                best_row as int,
                best_col as int,
                col,
                best_value_in_col,
                best_index_in_col as int,
            );
        }
        if best_value_in_col > best_value {
            best_value = best_value_in_col;
            best_row = best_index_in_col;
            best_col = j;
        }
        j += 1;
    }
    proof {
        lemma_best_upto_all(buf@, matrix, best_value, best_row as int, best_col as int);
    }
    (best_row, best_col)
}

/// An update of the transposed view, with the two factors exchanged, is
/// the update of the view itself worked row after row.
pub proof fn lemma_updated_transposed<F: Fn(u64, u64, u64) -> u64>(
    mul_add: &F,
    view: MatView,
    lhs: Seq<u64>,
    rhs: Seq<u64>,
    before: Seq<u64>,
    after: Seq<u64>,
)
    requires
        rank_one_updated(mul_add, view.transposed(), false, rhs, lhs, before, after),
    ensures
        rank_one_updated(mul_add, view, true, lhs, rhs, before, after),
{
    let t = view.transposed();
    view.lemma_transpose(0);
    assert forall|i: int, j: int| view.has(i, j) implies mul_add.ensures(
        operands(true, lhs[i], rhs[j], view.at(before, i, j)),
        #[trigger] view.at(after, i, j),
    ) by {
        assert(t.has(j, i));
        assert(t.at(after, j, i) == view.at(after, i, j));
        assert(t.at(before, j, i) == view.at(before, i, j));
    }
    assert forall|p: int| 0 <= p < before.len() && !view.covers(p) implies #[trigger] after[p]
        == before[p] by {
        if t.covers(p) {
            let (a, b) = choose|a: int, b: int| t.has(a, b) && #[trigger] t.index(a, b) == p;
            assert(view.has(b, a) && view.index(b, a) == p);
        }
    }
}

/// Whether the update works on the matrix as its transpose, with the two
/// factors exchanged: where the rows of the matrix and the row `rhs` are
/// contiguous, unless the columns and the column `lhs` are.
pub open spec fn updates_by_rows(dst: MatView, lhs: MatView, rhs: MatView) -> bool {
    !(dst.row_stride == 1 && lhs.row_stride == 1) && dst.col_stride == 1 && rhs.col_stride == 1
}

/// Whether the search that goes with the update meets the entries row
/// after row: where the update works by rows, and, where the update works
/// entry by entry, where the search on its own would.
pub open spec fn update_scans_by_rows(dst: MatView, lhs: MatView, rhs: MatView) -> bool {
    if dst.row_stride == 1 && lhs.row_stride == 1 {
        false
    } else if dst.col_stride == 1 && rhs.col_stride == 1 {
        true
    } else {
        scans_by_rows(dst)
    }
}

/// The transposes of two views that are apart are apart, and the
/// transpose of a view in bounds is in bounds.
pub proof fn lemma_transposed_apart(a: MatView, b: MatView, len: int)
    requires
        apart(a, b),
        b.in_bounds(len),
    ensures
        apart(a.transposed(), b.transposed()),
        b.transposed().in_bounds(len),
{
    let at = a.transposed();
    let bt = b.transposed();
    assert forall|i: int, j: int, i2: int, j2: int| at.has(i, j) && bt.has(i2, j2) implies #[trigger] at.index(
        i,
        j,
    ) != #[trigger] bt.index(i2, j2) by {
        assert(a.has(j, i) && b.has(j2, i2));
        assert(a.index(j, i) != b.index(j2, i2));
    }
    assert forall|i: int, j: int| bt.has(i, j) implies 0 <= #[trigger] bt.index(i, j) < len by {
        assert(b.has(j, i));
        assert(bt.index(i, j) == b.index(j, i));
    }
}

/// The update of a matrix of any layout, entry by entry.
pub fn rank_one_update<F: Fn(u64, u64, u64) -> u64>(
    mul_add: &F,
    buf: &mut [u64],
    dst: MatView,
    lhs: MatView,
    rhs: MatView,
)
    requires
        total3(mul_add),
        dst.wf(old(buf).len() as int),
        lhs.in_bounds(old(buf).len() as int),
        rhs.in_bounds(old(buf).len() as int),
        lhs.nrows == dst.nrows,
        lhs.ncols == 1,
        rhs.nrows == 1,
        rhs.ncols == dst.ncols,
        apart(dst, lhs),
        apart(dst, rhs),
    ensures
        rank_one_updated(
            mul_add,
            dst,
            false,
            col_of(old(buf)@, lhs),
            row_of(old(buf)@, rhs),
            old(buf)@,
            final(buf)@,
        ),
{
    let m = dst.nrows;
    let n = dst.ncols;
    let ghost before = buf@;
    let ghost left = col_of(before, lhs);
    let ghost right = row_of(before, rhs);
    let mut j: usize = 0;
    while j < n
        invariant
            total3(mul_add),
            before == old(buf)@,
            left == col_of(before, lhs),
            right == row_of(before, rhs),
            buf.len() == before.len(),
            dst.wf(buf.len() as int),
            lhs.in_bounds(buf.len() as int),
            rhs.in_bounds(buf.len() as int),
            lhs.nrows == m,
            lhs.ncols == 1,
            rhs.nrows == 1,
            rhs.ncols == n,
            apart(dst, lhs),
            apart(dst, rhs),
            m == dst.nrows,
            n == dst.ncols,
            j <= n,
            forall|i: int, c: int|
                dst.has(i, c) && c < j ==> mul_add.ensures(
                    (left[i], negated(right[c]), dst.at(before, i, c)),
                    #[trigger] dst.at(buf@, i, c),
                ),
            forall|i: int, c: int|
                dst.has(i, c) && c >= j ==> #[trigger] dst.at(buf@, i, c) == dst.at(before, i, c),
            forall|p: int|
                0 <= p < before.len() && !dst.covers(p) ==> #[trigger] buf[p] == before[p],
        decreases n - j,
    {
        proof {
            lemma_apart_kept(dst, rhs, before, buf@);
            assert(rhs.has(0, j as int));
        }
        let rhs_j = negate(rhs.get(buf, 0, j));
        let mut i: usize = 0;
        while i < m
            invariant
                total3(mul_add),
                before == old(buf)@,
                left == col_of(before, lhs),
                right == row_of(before, rhs),
                buf.len() == before.len(),
                dst.wf(buf.len() as int),
                lhs.in_bounds(buf.len() as int),
                lhs.nrows == m,
                lhs.ncols == 1,
                apart(dst, lhs),
                m == dst.nrows,
                n == dst.ncols,
                right.len() == n,
                j < n,
                i <= m,
                rhs_j == negated(right[j as int]),
                forall|a: int, c: int|
                    dst.has(a, c) && comes_before(false, a, c, i as int, j as int)
                        ==> mul_add.ensures(
                        (left[a], negated(right[c]), dst.at(before, a, c)),
                        #[trigger] dst.at(buf@, a, c),
                    ),
                forall|a: int, c: int|
                    dst.has(a, c) && !comes_before(false, a, c, i as int, j as int)
                        ==> #[trigger] dst.at(buf@, a, c) == dst.at(before, a, c),
                forall|p: int|
                    0 <= p < before.len() && !dst.covers(p) ==> #[trigger] buf[p] == before[p],
            decreases m - i,
        {
            let ghost was = buf@;
            proof {
                lemma_apart_kept(dst, lhs, before, was);
                assert(lhs.has(i as int, 0));
            }
            let x = mul_add(lhs.get(buf, i, 0), rhs_j, dst.get(buf, i, j));
            dst.set(buf, i, j, x);
            proof {
                assert(dst.has(i as int, j as int));
                let q = dst.index(i as int, j as int);
                assert forall|a: int, c: int|
                    dst.has(a, c) && !(a == i && c == j) implies #[trigger] dst.at(buf@, a, c)
                    == dst.at(was, a, c) by {
                    assert(dst.index(a, c) != q);
                }
                assert(dst.at(buf@, i as int, j as int) == x);
                assert(dst.covers(q));
            }
            i += 1;
        }
        j += 1;
    }
}

/// Subtracts the product of the column `lhs` and the row `rhs` from the
/// entries of `dst`, and returns the pivot of the result. Each entry
/// `(i, j)` becomes what `mul_add` returns for `lhs[i]`, the negation of
/// `rhs[j]` and the entry; where `dst` is worked on as its transpose, the
/// two factors change places. Contiguous layouts do update and search in
/// one sweep over each column, `lane_count` lanes at a time; any other
/// layout is updated first and searched after. Neither factor lies inside
/// `dst`.
pub fn rank_one_update_and_best_in_matrix<F: Fn(u64, u64, u64) -> u64>(
    lane_count: usize,
    mul_add: &F,
    buf: &mut [u64],
    dst: MatView,
    lhs: MatView,
    rhs: MatView,
) -> (r: (usize, usize))
    requires
        total3(mul_add),
        dst.wf(old(buf).len() as int),
        lhs.in_bounds(old(buf).len() as int),
        rhs.in_bounds(old(buf).len() as int),
        lhs.nrows == dst.nrows,
        lhs.ncols == 1,
        rhs.nrows == 1,
        rhs.ncols == dst.ncols,
        apart(dst, lhs),
        apart(dst, rhs),
    ensures
        rank_one_updated(
            mul_add,
            dst,
            updates_by_rows(dst, lhs, rhs),
            col_of(old(buf)@, lhs),
            row_of(old(buf)@, rhs),
            old(buf)@,
            final(buf)@,
        ),
        is_pivot(
            final(buf)@,
            dst,
            update_scans_by_rows(dst, lhs, rhs),
            r.0 as int,
            r.1 as int,
        ),
{
    let is_col_major = dst.row_stride == 1 && lhs.row_stride == 1;
    let is_row_major = dst.col_stride == 1 && rhs.col_stride == 1;
    let ghost before = buf@;

    if is_col_major {
        update_and_best_in_matrix_f64(lane_count, mul_add, buf, dst, lhs, rhs)
    } else if is_row_major {
        proof {
            dst.lemma_transpose(buf.len() as int);
            lhs.lemma_transpose(buf.len() as int);
            rhs.lemma_transpose(buf.len() as int);
            lemma_transposed_apart(dst, lhs, buf.len() as int);
            lemma_transposed_apart(dst, rhs, buf.len() as int);
            assert(col_of(before, rhs.transposed()) =~= row_of(before, rhs));
            assert(row_of(before, lhs.transposed()) =~= col_of(before, lhs));
        }
        let (col, row) = update_and_best_in_matrix_f64(
            lane_count,
            mul_add,
            buf,
            dst.transpose(),
            rhs.transpose(),
            lhs.transpose(),
        );
        proof {
            lemma_updated_transposed(
                mul_add,
                dst,
                col_of(before, lhs),
                row_of(before, rhs),
                before,
                buf@,
            );
            lemma_pivot_transposed(buf@, dst, col as int, row as int);
        }
        (row, col)
    } else {
        rank_one_update(mul_add, buf, dst, lhs, rhs);
        best_in_matrix(lane_count, buf, dst)
    }
}

/// The pivot of a matrix is determined by its entries and the order of the
/// scan: two searches that both return a pivot return the same one,
/// whatever their lane counts.
pub proof fn lemma_pivot_unique(
    buf: Seq<u64>,
    view: MatView,
    by_rows: bool,
    r0: int,
    c0: int,
    r1: int,
    c1: int,
)
    requires
        is_pivot(buf, view, by_rows, r0, c0),
        is_pivot(buf, view, by_rows, r1, c1),
    ensures
        r0 == r1,
        c0 == c1,
{
    if !view.is_empty() {
        assert(weight(view.at(buf, r0, c0)) <= weight(view.at(buf, r1, c1)));
        assert(weight(view.at(buf, r1, c1)) <= weight(view.at(buf, r0, c0)));
        if comes_before(by_rows, r0, c0, r1, c1) {
            assert(weight(view.at(buf, r0, c0)) < weight(view.at(buf, r1, c1)));
        }
        if comes_before(by_rows, r1, c1, r0, c0) {
            assert(weight(view.at(buf, r1, c1)) < weight(view.at(buf, r0, c0)));
        }
    }
}

} // verus!
