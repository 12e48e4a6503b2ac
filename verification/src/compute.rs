//! The factorization itself: pivoted elimination in place, and the
//! permutations that its exchanges compose.

use crate::column::total3;
use crate::permutation::{
    composed, lemma_composed_first, lemma_composed_rest, lemma_composed_step, mutually_inverse,
    permutation_from_transpositions,
};
use crate::pivot::{
    best_in_matrix, col_of, comes_before, is_pivot, operands, rank_one_update_and_best_in_matrix,
    rank_one_updated, row_of, scans_by_rows,
};
use crate::scalar::weight;
use crate::scratch::{array_req, SizeOverflow};
use crate::solve::Parallelism;
use crate::view::MatView;
use vstd::prelude::*;

verus! {

/// The index that an exchange of `a` and `b` puts in the place of `i`.
pub open spec fn exchange(a: int, b: int, i: int) -> int {
    if i == a {
        b
    } else if i == b {
        a
    } else {
        i
    }
}

/// `after` is `before` with the columns `a` and `b` of the view exchanged.
pub open spec fn cols_swapped(view: MatView, before: Seq<u64>, after: Seq<u64>, a: int, b: int) -> bool {
    &&& after.len() == before.len()
    &&& forall|i: int, j: int|
        view.has(i, j) ==> #[trigger] view.at(after, i, j) == view.at(before, i, exchange(a, b, j))
    &&& forall|p: int|
        0 <= p < before.len() && !view.covers(p) ==> #[trigger] after[p] == before[p]
}

/// `after` is `before` with the rows `a` and `b` of the view exchanged.
pub open spec fn rows_swapped(view: MatView, before: Seq<u64>, after: Seq<u64>, a: int, b: int) -> bool {
    &&& after.len() == before.len()
    &&& forall|i: int, j: int|
        view.has(i, j) ==> #[trigger] view.at(after, i, j) == view.at(before, exchange(a, b, i), j)
    &&& forall|p: int|
        0 <= p < before.len() && !view.covers(p) ==> #[trigger] after[p] == before[p]
}

/// Exchanges the columns `a` and `b` of the matrix, entry by entry.
pub fn swap_cols(buf: &mut [u64], matrix: MatView, a: usize, b: usize)
    requires
        matrix.wf(old(buf).len() as int),
        a < matrix.ncols,
        b < matrix.ncols,
    ensures
        cols_swapped(matrix, old(buf)@, final(buf)@, a as int, b as int),
{
    let m = matrix.nrows;
    let ghost before = buf@;
    let mut k: usize = 0;
    while k < m
        invariant
            before == old(buf)@,
            buf.len() == before.len(),
            matrix.wf(buf.len() as int),
            m == matrix.nrows,
            a < matrix.ncols,
            b < matrix.ncols,
            k <= m,
            forall|i: int, j: int|
                matrix.has(i, j) && i < k ==> #[trigger] matrix.at(buf@, i, j) == matrix.at(
                    before,
                    i,
                    exchange(a as int, b as int, j),
                ),
            forall|i: int, j: int|
                matrix.has(i, j) && i >= k ==> #[trigger] matrix.at(buf@, i, j) == matrix.at(
                    before,
                    i,
                    j,
                ),
            forall|p: int|
                0 <= p < before.len() && !matrix.covers(p) ==> #[trigger] buf[p] == before[p],
        decreases m - k,
    {
        let ghost was = buf@;
        let x = matrix.get(buf, k, a);
        let y = matrix.get(buf, k, b);
        matrix.set(buf, k, a, y);
        matrix.set(buf, k, b, x);
        proof {
            let pa = matrix.index(k as int, a as int);
            let pb = matrix.index(k as int, b as int);
            assert(matrix.has(k as int, a as int) && matrix.has(k as int, b as int));
            assert(matrix.covers(pa) && matrix.covers(pb));
            assert forall|i: int, j: int|
                matrix.has(i, j) && !(i == k && (j == a || j == b)) implies #[trigger] matrix.at(
                buf@,
                i,
                j,
            ) == matrix.at(was, i, j) by {
                assert(matrix.index(i, j) != pa);
                assert(matrix.index(i, j) != pb);
            }
            assert(matrix.at(buf@, k as int, b as int) == x);
            if a != b {
                assert(pa != pb);
                assert(matrix.at(buf@, k as int, a as int) == y);
            }
        }
        k += 1;
    }
}

/// Exchanges the rows `a` and `b` of the matrix: the columns `a` and `b`
/// of its transpose.
pub fn swap_rows(buf: &mut [u64], matrix: MatView, a: usize, b: usize)
    requires
        matrix.wf(old(buf).len() as int),
        a < matrix.nrows,
        b < matrix.nrows,
    ensures
        rows_swapped(matrix, old(buf)@, final(buf)@, a as int, b as int),
{
    let ghost before = buf@;
    proof {
        matrix.lemma_transpose(buf.len() as int);
    }
    swap_cols(buf, matrix.transpose(), a, b);
    proof {
        let t = matrix.transposed();
        assert forall|i: int, j: int| matrix.has(i, j) implies #[trigger] matrix.at(buf@, i, j)
            == matrix.at(before, exchange(a as int, b as int, i), j) by {
            assert(t.has(j, i));
            assert(t.at(buf@, j, i) == matrix.at(buf@, i, j));
            assert(t.at(before, j, exchange(a as int, b as int, i)) == matrix.at(
                before,
                exchange(a as int, b as int, i),
                j,
            ));
        }
        assert forall|p: int| 0 <= p < before.len() && !matrix.covers(p) implies #[trigger] buf[p]
            == before[p] by {
            if t.covers(p) {
                let (x, y) = choose|x: int, y: int| t.has(x, y) && #[trigger] t.index(x, y) == p;
                assert(matrix.has(y, x) && matrix.index(y, x) == p);
            }
        }
    }
}

/// `times` accepts every pair of patterns.
pub open spec fn total2<M: Fn(u64, u64) -> u64>(times: &M) -> bool {
    forall|x: u64, y: u64| times.requires((x, y))
}

/// `inv` accepts every pattern.
pub open spec fn total1<I: Fn(u64) -> u64>(inv: &I) -> bool {
    forall|x: u64| inv.requires((x,))
}

/// `after` is `before` with the entries of column `k` below the diagonal
/// multiplied by `factor`, as `times` computes it.
pub open spec fn scaled<M: Fn(u64, u64) -> u64>(
    times: &M,
    view: MatView,
    k: int,
    factor: u64,
    before: Seq<u64>,
    after: Seq<u64>,
) -> bool {
    &&& after.len() == before.len()
    &&& forall|i: int|
        k < i < view.nrows ==> times.ensures(
            (view.at(before, i, k), factor),
            #[trigger] view.at(after, i, k),
        )
    &&& forall|i: int, j: int|
        view.has(i, j) && !(j == k && i > k) ==> #[trigger] view.at(after, i, j) == view.at(
            before,
            i,
            j,
        )
    &&& forall|p: int|
        0 <= p < before.len() && !view.covers(p) ==> #[trigger] after[p] == before[p]
}

/// Multiplies the entries of column `k` below the diagonal by `factor`.
pub fn scale_below<M: Fn(u64, u64) -> u64>(
    times: &M,
    buf: &mut [u64],
    matrix: MatView,
    k: usize,
    factor: u64,
)
    requires
        total2(times),
        matrix.wf(old(buf).len() as int),
        k < matrix.nrows,
        k < matrix.ncols,
    ensures
        scaled(times, matrix, k as int, factor, old(buf)@, final(buf)@),
{
    let m = matrix.nrows;
    let ghost before = buf@;
    let mut i: usize = k + 1;
    while i < m
        invariant
            total2(times),
            before == old(buf)@,
            buf.len() == before.len(),
            matrix.wf(buf.len() as int),
            m == matrix.nrows,
            k < matrix.ncols,
            k < i <= m,
            forall|a: int|
                k < a < i ==> times.ensures(
                    (matrix.at(before, a, k as int), factor),
                    #[trigger] matrix.at(buf@, a, k as int),
                ),
            forall|a: int, j: int|
                matrix.has(a, j) && !(j == k && k < a < i) ==> #[trigger] matrix.at(buf@, a, j)
                    == matrix.at(before, a, j),
            forall|p: int|
                0 <= p < before.len() && !matrix.covers(p) ==> #[trigger] buf[p] == before[p],
        decreases m - i,
    {
        let ghost was = buf@;
        let elem = times(matrix.get(buf, i, k), factor);
        matrix.set(buf, i, k, elem);
        proof {
            let q = matrix.index(i as int, k as int);
            assert(matrix.has(i as int, k as int));
            assert(matrix.covers(q));
            assert forall|a: int, j: int|
                matrix.has(a, j) && !(a == i && j == k) implies #[trigger] matrix.at(buf@, a, j)
                == matrix.at(was, a, j) by {
                assert(matrix.index(a, j) != q);
            }
            assert(matrix.at(buf@, i as int, k as int) == elem);
        }
        i += 1;
    }
}

/// `(r, c)` is the pivot of the part of the view from `(k, k)` on: an
/// entry of largest weight there, the first that the scan meets.
pub open spec fn is_pivot_from(
    buf: Seq<u64>,
    view: MatView,
    by_rows: bool,
    k: int,
    r: int,
    c: int,
) -> bool {
    &&& k <= r < view.nrows
    &&& k <= c < view.ncols
    &&& forall|i: int, j: int|
        view.has(i, j) && i >= k && j >= k ==> weight(#[trigger] view.at(buf, i, j)) <= weight(
            view.at(buf, r, c),
        )
    &&& forall|i: int, j: int|
        view.has(i, j) && i >= k && j >= k && comes_before(by_rows, i, j, r, c) ==> weight(
            #[trigger] view.at(buf, i, j),
        ) < weight(view.at(buf, r, c))
}

/// `after` is `before` with row `k` exchanged with row `r` and column `k`
/// with column `c`: the pivot `(r, c)` has come to `(k, k)`.
pub open spec fn pivoted(
    view: MatView,
    before: Seq<u64>,
    after: Seq<u64>,
    k: int,
    r: int,
    c: int,
) -> bool {
    &&& after.len() == before.len()
    &&& forall|i: int, j: int|
        view.has(i, j) ==> #[trigger] view.at(after, i, j) == view.at(
            before,
            exchange(k, r, i),
            exchange(k, c, j),
        )
    &&& forall|p: int|
        0 <= p < before.len() && !view.covers(p) ==> #[trigger] after[p] == before[p]
}

/// `after` is `before` after step `k` of the elimination, the pivot being
/// in place at `(k, k)`. The entries of column `k` below the pivot are each
/// multiplied, by `times`, with what `inv` has returned for the pivot. Every
/// entry below and right of the pivot has the product of its row's new
/// entry in column `k` and its column's entry in row `k` subtracted from
/// it, by `mul_add`. Rows down to `k` and columns left of `k` stay as they
/// are.
pub open spec fn eliminated<I: Fn(u64) -> u64, M: Fn(u64, u64) -> u64, F: Fn(u64, u64, u64) -> u64>(
    inv: &I,
    times: &M,
    mul_add: &F,
    view: MatView,
    k: int,
    before: Seq<u64>,
    after: Seq<u64>,
) -> bool {
    &&& after.len() == before.len()
    &&& exists|factor: u64|
        #[trigger] inv.ensures((view.at(before, k, k),), factor) && forall|i: int|
            k < i < view.nrows ==> times.ensures(
                (view.at(before, i, k), factor),
                #[trigger] view.at(after, i, k),
            )
    &&& forall|i: int, j: int|
        view.has(i, j) && i > k && j > k ==> mul_add.ensures(
            operands(
                scans_by_rows(view),
                view.at(after, i, k),
                view.at(before, k, j),
                view.at(before, i, j),
            ),
            #[trigger] view.at(after, i, j),
        )
    &&& forall|i: int, j: int|
        view.has(i, j) && (i <= k || j < k) ==> #[trigger] view.at(after, i, j) == view.at(
            before,
            i,
            j,
        )
    &&& forall|p: int|
        0 <= p < before.len() && !view.covers(p) ==> #[trigger] after[p] == before[p]
}

/// `after` is `before` after step `k` of the elimination and the exchanges
/// that bring the next pivot, `(r, c)`, to `(k + 1, k + 1)`.
pub open spec fn advanced<I: Fn(u64) -> u64, M: Fn(u64, u64) -> u64, F: Fn(u64, u64, u64) -> u64>(
    inv: &I,
    times: &M,
    mul_add: &F,
    view: MatView,
    k: int,
    before: Seq<u64>,
    after: Seq<u64>,
    r: int,
    c: int,
) -> bool {
    exists|mid: Seq<u64>|
        {
            &&& #[trigger] eliminated(inv, times, mul_add, view, k, before, mid)
            &&& is_pivot_from(mid, view, scans_by_rows(view), k + 1, r, c)
            &&& pivoted(view, mid, after, k + 1, r, c)
        }
}

/// `state` is the matrix at the start of step `k`: `initial` after the
/// steps before `k`, with the pivot of step `k`, which `rows[k]` and
/// `cols[k]` name, brought to `(k, k)`.
pub open spec fn reaches<I: Fn(u64) -> u64, M: Fn(u64, u64) -> u64, F: Fn(u64, u64, u64) -> u64>(
    inv: &I,
    times: &M,
    mul_add: &F,
    view: MatView,
    initial: Seq<u64>,
    rows: Seq<usize>,
    cols: Seq<usize>,
    k: int,
    state: Seq<u64>,
) -> bool
    decreases k,
{
    if k <= 0 {
        &&& is_pivot_from(initial, view, scans_by_rows(view), 0, rows[0] as int, cols[0] as int)
        &&& pivoted(view, initial, state, 0, rows[0] as int, cols[0] as int)
    } else {
        exists|prev: Seq<u64>|
            {
                &&& reaches(inv, times, mul_add, view, initial, rows, cols, k - 1, prev)
                &&& #[trigger] advanced(
                    inv,
                    times,
                    mul_add,
                    view,
                    k - 1,
                    prev,
                    state,
                    rows[k] as int,
                    cols[k] as int,
                )
            }
    }
}

/// The number of steps of the elimination.
pub open spec fn steps(view: MatView) -> int {
    if view.nrows <= view.ncols {
        view.nrows as int
    } else {
        view.ncols as int
    }
}

/// `result` is the factored form of `initial`: the matrix after every step
/// of the elimination, the pivots being those that `rows` and `cols` name.
pub open spec fn factored<I: Fn(u64) -> u64, M: Fn(u64, u64) -> u64, F: Fn(u64, u64, u64) -> u64>(
    inv: &I,
    times: &M,
    mul_add: &F,
    view: MatView,
    initial: Seq<u64>,
    rows: Seq<usize>,
    cols: Seq<usize>,
    result: Seq<u64>,
) -> bool {
    exists|last: Seq<u64>|
        {
            &&& reaches(inv, times, mul_add, view, initial, rows, cols, steps(view) - 1, last)
            &&& #[trigger] eliminated(inv, times, mul_add, view, steps(view) - 1, last, result)
        }
}

/// How many of the first `upto` entries of `t` name an exchange of two
/// different indices.
pub open spec fn moved(t: Seq<usize>, upto: int) -> int
    decreases upto,
{
    if upto <= 0 {
        0
    } else {
        moved(t, upto - 1) + if t[upto - 1] != upto - 1 {
            1int
        } else {
            0int
        }
    }
}

/// The count of exchanges looks at the entries before `upto` only.
pub proof fn lemma_moved_agree(t0: Seq<usize>, t1: Seq<usize>, upto: int)
    requires
        forall|i: int| 0 <= i < upto ==> t0[i] == t1[i],
    ensures
        moved(t0, upto) == moved(t1, upto),
        0 <= moved(t0, upto),
        upto >= 0 ==> moved(t0, upto) <= upto,
    decreases upto,
{
    if upto > 0 {
        lemma_moved_agree(t0, t1, upto - 1);
    }
}

/// The state at the start of step `k` depends on the pivots up to `k` only.
pub proof fn lemma_reaches_agree<
    I: Fn(u64) -> u64,
    M: Fn(u64, u64) -> u64,
    F: Fn(u64, u64, u64) -> u64,
>(
    inv: &I,
    times: &M,
    mul_add: &F,
    view: MatView,
    initial: Seq<u64>,
    rows0: Seq<usize>,
    cols0: Seq<usize>,
    rows1: Seq<usize>,
    cols1: Seq<usize>,
    k: int,
    state: Seq<u64>,
)
    requires
        reaches(inv, times, mul_add, view, initial, rows0, cols0, k, state),
        forall|i: int| 0 <= i <= k ==> rows0[i] == rows1[i] && cols0[i] == cols1[i],
        0 <= k,
    ensures
        reaches(inv, times, mul_add, view, initial, rows1, cols1, k, state),
    decreases k,
{
    if k > 0 {
        let prev = choose|prev: Seq<u64>|
            {
                &&& reaches(inv, times, mul_add, view, initial, rows0, cols0, k - 1, prev)
                &&& #[trigger] advanced(
                    inv,
                    times,
                    mul_add,
                    view,
                    k - 1,
                    prev,
                    state,
                    rows0[k] as int,
                    cols0[k] as int,
                )
            };
        lemma_reaches_agree(
            inv,
            times,
            mul_add,
            view,
            initial,
            rows0,
            cols0,
            rows1,
            cols1,
            k - 1,
            prev,
        );
        assert(advanced(
            inv,
            times,
            mul_add,
            view,
            k - 1,
            prev,
            state,
            rows1[k] as int,
            cols1[k] as int,
        ));
    }
}

/// One more step: from the start of step `k` to the start of step `k + 1`.
pub proof fn lemma_reaches_next<
    I: Fn(u64) -> u64,
    M: Fn(u64, u64) -> u64,
    F: Fn(u64, u64, u64) -> u64,
>(
    inv: &I,
    times: &M,
    mul_add: &F,
    view: MatView,
    initial: Seq<u64>,
    rows0: Seq<usize>,
    cols0: Seq<usize>,
    rows1: Seq<usize>,
    cols1: Seq<usize>,
    k: int,
    state_a: Seq<u64>,
    mid: Seq<u64>,
    state_b: Seq<u64>,
)
    requires
        0 <= k,
        reaches(inv, times, mul_add, view, initial, rows0, cols0, k, state_a),
        forall|i: int| 0 <= i <= k ==> rows0[i] == rows1[i] && cols0[i] == cols1[i],
        eliminated(inv, times, mul_add, view, k, state_a, mid),
        is_pivot_from(mid, view, scans_by_rows(view), k + 1, rows1[k + 1] as int, cols1[k + 1] as int),
        pivoted(view, mid, state_b, k + 1, rows1[k + 1] as int, cols1[k + 1] as int),
    ensures
        reaches(inv, times, mul_add, view, initial, rows1, cols1, k + 1, state_b),
{
    lemma_reaches_agree(inv, times, mul_add, view, initial, rows0, cols0, rows1, cols1, k, state_a);
    let next = k + 1;
    assert(eliminated(inv, times, mul_add, view, next - 1, state_a, mid));
    assert(advanced(
        inv,
        times,
        mul_add,
        view,
        next - 1,
        state_a,
        state_b,
        rows1[next] as int,
        cols1[next] as int,
    ));
    assert(reaches(inv, times, mul_add, view, initial, rows1, cols1, next - 1, state_a));
}

/// The pivot of the block that starts at `(k, k)` is, counted from the
/// corner of the whole view, the pivot of the view from `(k, k)` on.
pub proof fn lemma_pivot_block(buf: Seq<u64>, view: MatView, block: MatView, k: int, r: int, c: int)
    requires
        block.is_block_of(view, k, k),
        block.nrows == view.nrows - k,
        block.ncols == view.ncols - k,
        !block.is_empty(),
        is_pivot(buf, block, scans_by_rows(block), r, c),
    ensures
        is_pivot_from(buf, view, scans_by_rows(view), k, r + k, c + k),
{
    let by_rows = scans_by_rows(view);
    assert(block.has(r, c));
    assert(block.at(buf, r, c) == view.at(buf, r + k, c + k));
    assert forall|i: int, j: int| view.has(i, j) && i >= k && j >= k implies weight(
        #[trigger] view.at(buf, i, j),
    ) <= weight(view.at(buf, r + k, c + k)) by {
        assert(block.has(i - k, j - k));
        assert(block.at(buf, i - k, j - k) == view.at(buf, i, j));
    }
    assert forall|i: int, j: int|
        view.has(i, j) && i >= k && j >= k && comes_before(by_rows, i, j, r + k, c + k) implies weight(
        #[trigger] view.at(buf, i, j),
    ) < weight(view.at(buf, r + k, c + k)) by {
        assert(block.has(i - k, j - k));
        assert(block.at(buf, i - k, j - k) == view.at(buf, i, j));
        assert(comes_before(by_rows, i - k, j - k, r, c));
    }
}

/// A change that leaves everything outside a block alone leaves alone the
/// entries of the view outside that block, and what lies outside the view.
pub proof fn lemma_block_frame(
    view: MatView,
    block: MatView,
    r0: int,
    c0: int,
    before: Seq<u64>,
    after: Seq<u64>,
)
    requires
        view.wf(before.len() as int),
        block.is_block_of(view, r0, c0),
        after.len() == before.len(),
        forall|p: int|
            0 <= p < before.len() && !block.covers(p) ==> #[trigger] after[p] == before[p],
    ensures
        forall|i: int, j: int|
            view.has(i, j) && !(r0 <= i < r0 + block.nrows && c0 <= j < c0 + block.ncols)
                ==> #[trigger] view.at(after, i, j) == view.at(before, i, j),
        forall|p: int|
            0 <= p < before.len() && !view.covers(p) ==> #[trigger] after[p] == before[p],
{
    assert forall|i: int, j: int|
        view.has(i, j) && !(r0 <= i < r0 + block.nrows && c0 <= j < c0 + block.ncols) implies #[trigger] view.at(
        after,
        i,
        j,
    ) == view.at(before, i, j) by {
        let p = view.index(i, j);
        if block.covers(p) {
            let (a, b) = choose|a: int, b: int| block.has(a, b) && #[trigger] block.index(a, b) == p;
            assert(view.has(r0 + a, c0 + b));
            assert(view.index(r0 + a, c0 + b) == p);
        }
    }
    assert forall|p: int| 0 <= p < before.len() && !view.covers(p) implies #[trigger] after[p]
        == before[p] by {
        if block.covers(p) {
            let (a, b) = choose|a: int, b: int| block.has(a, b) && #[trigger] block.index(a, b) == p;
            assert(view.has(r0 + a, c0 + b));
            assert(view.index(r0 + a, c0 + b) == p);
        }
    }
}

/// Scaling column `k` and then updating the block below and right of the
/// pivot is one step of the elimination.
pub proof fn lemma_eliminated<I: Fn(u64) -> u64, M: Fn(u64, u64) -> u64, F: Fn(u64, u64, u64) -> u64>(
    inv: &I,
    times: &M,
    mul_add: &F,
    view: MatView,
    k: int,
    factor: u64,
    dst: MatView,
    lhs: MatView,
    rhs: MatView,
    state_a: Seq<u64>,
    state_b: Seq<u64>,
    state_c: Seq<u64>,
)
    requires
        view.wf(state_a.len() as int),
        0 <= k,
        k + 1 < view.nrows,
        k + 1 < view.ncols,
        inv.ensures((view.at(state_a, k, k),), factor),
        scaled(times, view, k, factor, state_a, state_b),
        dst.is_block_of(view, k + 1, k + 1),
        dst.nrows == view.nrows - k - 1,
        dst.ncols == view.ncols - k - 1,
        lhs.is_block_of(view, k + 1, k),
        lhs.nrows == dst.nrows,
        lhs.ncols == 1,
        rhs.is_block_of(view, k, k + 1),
        rhs.nrows == 1,
        rhs.ncols == dst.ncols,
        rank_one_updated(
            mul_add,
            dst,
            scans_by_rows(dst),
            col_of(state_b, lhs),
            row_of(state_b, rhs),
            state_b,
            state_c,
        ),
    ensures
        eliminated(inv, times, mul_add, view, k, state_a, state_c),
{
    lemma_block_frame(view, dst, k + 1, k + 1, state_b, state_c);
    assert forall|i: int| k < i < view.nrows implies times.ensures(
        (view.at(state_a, i, k), factor),
        #[trigger] view.at(state_c, i, k),
    ) by {
        assert(view.has(i, k));
        assert(view.at(state_c, i, k) == view.at(state_b, i, k));
    }
    assert forall|i: int, j: int| view.has(i, j) && i > k && j > k implies mul_add.ensures(
        operands(scans_by_rows(view), view.at(state_c, i, k), view.at(state_a, k, j), view.at(state_a, i, j)),
        #[trigger] view.at(state_c, i, j),
    ) by {
        let a = i - k - 1;
        let b = j - k - 1;
        assert(dst.has(a, b));
        assert(dst.at(state_c, a, b) == view.at(state_c, i, j));
        assert(dst.at(state_b, a, b) == view.at(state_b, i, j));
        assert(view.at(state_b, i, j) == view.at(state_a, i, j));
        assert(lhs.has(a, 0));
        assert(col_of(state_b, lhs)[a] == lhs.at(state_b, a, 0));
        assert(lhs.at(state_b, a, 0) == view.at(state_b, i, k));
        assert(view.has(i, k));
        assert(view.at(state_c, i, k) == view.at(state_b, i, k));
        assert(rhs.has(0, b));
        assert(row_of(state_b, rhs)[b] == rhs.at(state_b, 0, b));
        assert(rhs.at(state_b, 0, b) == view.at(state_b, k, j));
        assert(view.has(k, j));
        assert(view.at(state_b, k, j) == view.at(state_a, k, j));
    }
    assert forall|i: int, j: int| view.has(i, j) && (i <= k || j < k) implies #[trigger] view.at(
        state_c,
        i,
        j,
    ) == view.at(state_a, i, j) by {
        assert(view.at(state_c, i, j) == view.at(state_b, i, j));
    }
}

/// The last step of the elimination has nothing below or nothing right of
/// the pivot: scaling column `k` is the whole step.
pub proof fn lemma_eliminated_last<
    I: Fn(u64) -> u64,
    M: Fn(u64, u64) -> u64,
    F: Fn(u64, u64, u64) -> u64,
>(
    inv: &I,
    times: &M,
    mul_add: &F,
    view: MatView,
    k: int,
    factor: u64,
    state_a: Seq<u64>,
    state_b: Seq<u64>,
)
    requires
        0 <= k,
        k + 1 == steps(view),
        inv.ensures((view.at(state_a, k, k),), factor),
        scaled(times, view, k, factor, state_a, state_b),
    ensures
        eliminated(inv, times, mul_add, view, k, state_a, state_b),
{
}

/// Exchanging two rows and then two columns brings the pivot into place.
pub proof fn lemma_pivoted(
    view: MatView,
    state_a: Seq<u64>,
    state_b: Seq<u64>,
    state_c: Seq<u64>,
    k: int,
    r: int,
    c: int,
)
    requires
        0 <= k <= r < view.nrows,
        k <= c < view.ncols,
        rows_swapped(view, state_a, state_b, k, r),
        cols_swapped(view, state_b, state_c, k, c),
    ensures
        pivoted(view, state_a, state_c, k, r, c),
{
    assert forall|i: int, j: int| view.has(i, j) implies #[trigger] view.at(state_c, i, j) == view.at(
        state_a,
        exchange(k, r, i),
        exchange(k, c, j),
    ) by {
        assert(view.has(i, exchange(k, c, j)));
        assert(view.at(state_c, i, j) == view.at(state_b, i, exchange(k, c, j)));
    }
}

/// An exchange of an index with itself changes nothing.
pub proof fn lemma_swapped_same(view: MatView, s: Seq<u64>, k: int)
    ensures
        rows_swapped(view, s, s, k, k),
        cols_swapped(view, s, s, k, k),
{
}

/// A view with at least two rows and two columns lies over a buffer of at
/// least twice as many elements as the elimination has steps.
pub proof fn lemma_two_per_step(view: MatView, len: int)
    requires
        view.wf(len),
        view.nrows >= 2,
        view.ncols >= 2,
    ensures
        2 * steps(view) <= len,
{
    let s = steps(view);
    let rs = view.row_stride as int;
    let cs = view.col_stride as int;
    let o = view.offset as int;
    assert(view.has(0, 0) && view.has(s - 1, 0) && view.has(0, 1) && view.has(s - 1, 1));
    assert(view.has(1, 0));
    let a = view.index(0, 0);
    let b = view.index(s - 1, 0);
    let c = view.index(0, 1);
    let d = view.index(s - 1, 1);
    assert(a == o);
    assert(b == o + (s - 1) * rs);
    assert(c == o + cs);
    assert(d == o + (s - 1) * rs + cs);
    assert(view.index(1, 0) == o + rs);
    assert(rs != 0) by {
        if rs == 0 {
            assert(view.index(1, 0) == view.index(0, 0));
        }
    }
    assert(cs != 0) by {
        if cs == 0 {
            assert(view.index(0, 1) == view.index(0, 0));
        }
    }
    // Where consecutive rows are one element apart, a column cannot start
    // inside the run of another.
    if rs == 1 || rs == -1 {
        if -s < cs < s {
            if (rs == 1 && cs >= 0) || (rs == -1 && cs < 0) {
                let h = if cs >= 0 {
                    cs
                } else {
                    -cs
                };
                assert(view.has(h, 0));
                assert(h * rs == cs) by (nonlinear_arith)
                    requires
                        (rs == 1 && h == cs) || (rs == -1 && h == -cs),
                ;
                assert(view.index(h, 0) == view.index(0, 1));
            } else {
                let h = if cs >= 0 {
                    cs
                } else {
                    -cs
                };
                assert(view.has(h, 1));
                assert(h * rs == -cs) by (nonlinear_arith)
                    requires
                        (rs == 1 && h == -cs) || (rs == -1 && h == cs),
                ;
                assert(view.index(h, 1) == view.index(0, 0));
            }
            assert(false);
        }
    }
    let w = (s - 1) * rs;
    assert((rs >= 2 ==> w >= 2 * (s - 1)) && (rs <= -2 ==> w <= -2 * (s - 1)) && (rs == 1 ==> w
        == s - 1) && (rs == -1 ==> w == 1 - s)) by (nonlinear_arith)
        requires
            w == (s - 1) * rs,
            s >= 2,
    ;
}

/// Brings the pivot `(r, c)` of step `k` to `(k, k)` and records it in the
/// two transposition arrays. Returns how many of the two exchanges moved
/// anything.
pub fn bring_pivot(
    buf: &mut [u64],
    matrix: MatView,
    row_transpositions: &mut [usize],
    col_transpositions: &mut [usize],
    k: usize,
    r: usize,
    c: usize,
) -> (count: usize)
    requires
        matrix.wf(old(buf).len() as int),
        old(row_transpositions).len() == matrix.nrows,
        old(col_transpositions).len() == matrix.ncols,
        k <= r < matrix.nrows,
        k <= c < matrix.ncols,
    ensures
        pivoted(matrix, old(buf)@, final(buf)@, k as int, r as int, c as int),
        final(row_transpositions)@ == old(row_transpositions)@.update(k as int, r),
        final(col_transpositions)@ == old(col_transpositions)@.update(k as int, c),
        count == (if r != k {
            1int
        } else {
            0int
        }) + (if c != k {
            1int
        } else {
            0int
        }),
{
    let ghost state_a = buf@;
    let mut count: usize = 0;
    row_transpositions[k] = r;
    col_transpositions[k] = c;

    if r != k {
        count += 1;
        swap_rows(buf, matrix, k, r);
    } else {
        proof {
            lemma_swapped_same(matrix, state_a, k as int);
        }
    }
    let ghost state_b = buf@;
    if c != k {
        count += 1;
        swap_cols(buf, matrix, k, c);
    } else {
        proof {
            lemma_swapped_same(matrix, state_b, k as int);
        }
    }
    proof {
        lemma_pivoted(matrix, state_a, state_b, buf@, k as int, r as int, c as int);
    }
    count
}

/// Step `k` of the elimination, not the last: divides the column below the
/// pivot by it, subtracts from the block below and right of the pivot the
/// product of that column and the pivot's row, and returns the pivot of
/// the next step.
pub fn eliminate<I: Fn(u64) -> u64, M: Fn(u64, u64) -> u64, F: Fn(u64, u64, u64) -> u64>(
    buf: &mut [u64],
    matrix: MatView,
    k: usize,
    lane_count: usize,
    inv: &I,
    times: &M,
    mul_add: &F,
) -> (r: (usize, usize))
    requires
        total1(inv),
        total2(times),
        total3(mul_add),
        matrix.wf(old(buf).len() as int),
        k + 1 < steps(matrix),
    ensures
        eliminated(inv, times, mul_add, matrix, k as int, old(buf)@, final(buf)@),
        is_pivot_from(
            final(buf)@,
            matrix,
            scans_by_rows(matrix),
            k + 1,
            r.0 as int,
            r.1 as int,
        ),
{
    let m = matrix.nrows;
    let n = matrix.ncols;
    let ghost state_a = buf@;

    let factor = inv(matrix.get(buf, k, k));
    scale_below(times, buf, matrix, k, factor);
    let ghost state_b = buf@;

    let bottom_right = matrix.submatrix(k + 1, k + 1, m - k - 1, n - k - 1);
    let bottom_left = matrix.submatrix(k + 1, k, m - k - 1, 1);
    let top_right = matrix.submatrix(k, k + 1, 1, n - k - 1);

    let (block_row, block_col) = rank_one_update_and_best_in_matrix(
        lane_count,
        mul_add,
        buf,
        bottom_right,
        bottom_left,
        top_right,
    );
    proof {
        lemma_eliminated(
            inv,
            times,
            mul_add,
            matrix,
            k as int,
            factor,
            bottom_right,
            bottom_left,
            top_right,
            state_a,
            state_b,
            buf@,
        );
        lemma_pivot_block(buf@, matrix, bottom_right, k + 1, block_row as int, block_col as int);
    }
    (block_row + k + 1, block_col + k + 1)
}

/// The last step of the elimination: divides the column below the pivot
/// by it.
pub fn eliminate_last<I: Fn(u64) -> u64, M: Fn(u64, u64) -> u64, F: Fn(u64, u64, u64) -> u64>(
    buf: &mut [u64],
    matrix: MatView,
    k: usize,
    inv: &I,
    times: &M,
    mul_add: &F,
)
    requires
        total1(inv),
        total2(times),
        matrix.wf(old(buf).len() as int),
        k + 1 == steps(matrix),
    ensures
        eliminated(inv, times, mul_add, matrix, k as int, old(buf)@, final(buf)@),
{
    let ghost state_a = buf@;
    let factor = inv(matrix.get(buf, k, k));
    scale_below(times, buf, matrix, k, factor);
    proof {
        lemma_eliminated_last(inv, times, mul_add, matrix, k as int, factor, state_a, buf@);
    }
}

/// The pivot of the whole matrix, for the first step.
pub fn first_pivot(lane_count: usize, buf: &[u64], matrix: MatView) -> (r: (usize, usize))
    requires
        matrix.in_bounds(buf.len() as int),
        !matrix.is_empty(),
    ensures
        is_pivot_from(buf@, matrix, scans_by_rows(matrix), 0, r.0 as int, r.1 as int),
{
    let (max_row, max_col) = best_in_matrix(lane_count, buf, matrix);
    proof {
        assert(matrix.is_block_of(matrix, 0, 0));
        lemma_pivot_block(buf@, matrix, matrix, 0, max_row as int, max_col as int);
    }
    (max_row, max_col)
}

/// Factors the matrix in place with full pivoting, one step after another.
///
/// Before each step the entry of largest weight in what is left of the
/// matrix is brought to the diagonal by an exchange of rows and one of
/// columns, recorded in `row_transpositions` and `col_transpositions`. The
/// step divides the column below the pivot by it and subtracts from the
/// rest the product of that column and the pivot's row; the search for the
/// next pivot runs in the same sweep as the subtraction. Below the diagonal
/// the matrix then holds the unit lower factor, on and above it the upper
/// factor. The result counts the exchanges that moved anything.
///
/// A matrix without entries is left alone, with both arrays, and the
/// result is 0.
pub fn lu_in_place_unblocked<I: Fn(u64) -> u64, M: Fn(u64, u64) -> u64, F: Fn(u64, u64, u64) -> u64>(
    buf: &mut [u64],
    matrix: MatView,
    row_transpositions: &mut [usize],
    col_transpositions: &mut [usize],
    lane_count: usize,
    inv: &I,
    times: &M,
    mul_add: &F,
) -> (n_transpositions: usize)
    requires
        total1(inv),
        total2(times),
        total3(mul_add),
        matrix.wf(old(buf).len() as int),
        old(row_transpositions).len() == matrix.nrows,
        old(col_transpositions).len() == matrix.ncols,
    ensures
        final(buf).len() == old(buf).len(),
        final(row_transpositions).len() == matrix.nrows,
        final(col_transpositions).len() == matrix.ncols,
        matrix.is_empty() ==> {
            &&& n_transpositions == 0
            &&& final(buf)@ == old(buf)@
            &&& final(row_transpositions)@ == old(row_transpositions)@
            &&& final(col_transpositions)@ == old(col_transpositions)@
        },
        !matrix.is_empty() ==> {
            &&& factored(
                inv,
                times,
                mul_add,
                matrix,
                old(buf)@,
                final(row_transpositions)@,
                final(col_transpositions)@,
                final(buf)@,
            )
            &&& n_transpositions == moved(final(row_transpositions)@, steps(matrix)) + moved(
                final(col_transpositions)@,
                steps(matrix),
            )
        },
        forall|k: int|
            0 <= k < steps(matrix) ==> k <= #[trigger] final(row_transpositions)[k] < matrix.nrows,
        forall|k: int|
            0 <= k < steps(matrix) ==> k <= #[trigger] final(col_transpositions)[k] < matrix.ncols,
        forall|k: int|
            steps(matrix) <= k < matrix.nrows ==> #[trigger] final(row_transpositions)[k] == old(
                row_transpositions,
            )[k],
        forall|k: int|
            steps(matrix) <= k < matrix.ncols ==> #[trigger] final(col_transpositions)[k] == old(
                col_transpositions,
            )[k],
{
    let m = matrix.nrows;
    let n = matrix.ncols;

    if n == 0 || m == 0 {
        return 0;
    }
    let size = if m <= n {
        m
    } else {
        n
    };
    let ghost initial = buf@;
    let ghost by_rows = scans_by_rows(matrix);
    proof {
        if m >= 2 && n >= 2 {
            lemma_two_per_step(matrix, buf.len() as int);
        }
    }

    let (max_row, max_col) = first_pivot(lane_count, buf, matrix);
    let mut n_transpositions = bring_pivot(
        buf,
        matrix,
        row_transpositions,
        col_transpositions,
        0,
        max_row,
        max_col,
    );

    proof {
        reveal_with_fuel(moved, 2);
    }
    let mut k: usize = 0;
    while k + 1 < size
        invariant
            total1(inv),
            total2(times),
            total3(mul_add),
            initial == old(buf)@,
            by_rows == scans_by_rows(matrix),
            buf.len() == initial.len(),
            matrix.wf(buf.len() as int),
            row_transpositions.len() == matrix.nrows,
            col_transpositions.len() == matrix.ncols,
            m == matrix.nrows,
            n == matrix.ncols,
            size == steps(matrix),
            2 * size <= usize::MAX,
            k < size,
            reaches(
                inv,
                times,
                mul_add,
                matrix,
                initial,
                row_transpositions@,
                col_transpositions@,
                k as int,
                buf@,
            ),
            n_transpositions == moved(row_transpositions@, k + 1) + moved(
                col_transpositions@,
                k + 1,
            ),
            forall|i: int| 0 <= i <= k ==> i <= #[trigger] row_transpositions[i] < m,
            forall|i: int| 0 <= i <= k ==> i <= #[trigger] col_transpositions[i] < n,
            forall|i: int|
                k < i < m ==> #[trigger] row_transpositions@[i] == old(row_transpositions)@[i],
            forall|i: int|
                k < i < n ==> #[trigger] col_transpositions@[i] == old(col_transpositions)@[i],
        decreases size - k,
    {
        let ghost state_a = buf@;
        let ghost rows0 = row_transpositions@;
        let ghost cols0 = col_transpositions@;

        let (max_row, max_col) = eliminate(buf, matrix, k, lane_count, inv, times, mul_add);
        let ghost mid = buf@;
        let count = bring_pivot(
            buf,
            matrix,
            row_transpositions,
            col_transpositions,
            k + 1,
            max_row,
            max_col,
        );
        proof {
            lemma_reaches_next(
                inv,
                times,
                mul_add,
                matrix,
                initial,
                rows0,
                cols0,
                row_transpositions@,
                col_transpositions@,
                k as int,
                state_a,
                mid,
                buf@,
            );
            lemma_moved_agree(rows0, row_transpositions@, k + 1);
            lemma_moved_agree(cols0, col_transpositions@, k + 1);
        }
        n_transpositions += count;
        k += 1;
    }

    let ghost last = buf@;
    eliminate_last(buf, matrix, k, inv, times, mul_add);
    proof {
        assert(eliminated(inv, times, mul_add, matrix, steps(matrix) - 1, last, buf@));
    }
    n_transpositions
}

/// `result` is what the factorization makes of `initial`, with the pivots
/// that `rows` and `cols` name, and `count` exchanges that moved anything.
/// Step `k` takes its pivot from row `rows[k]`, not above `k`, and column
/// `cols[k]`, not left of `k`; past the last step both arrays name no
/// exchange.
pub open spec fn decomposed<I: Fn(u64) -> u64, M: Fn(u64, u64) -> u64, F: Fn(u64, u64, u64) -> u64>(
    inv: &I,
    times: &M,
    mul_add: &F,
    view: MatView,
    initial: Seq<u64>,
    rows: Seq<usize>,
    cols: Seq<usize>,
    result: Seq<u64>,
    count: int,
) -> bool {
    &&& rows.len() == view.nrows
    &&& cols.len() == view.ncols
    &&& forall|k: int|
        0 <= k < view.nrows ==> k <= #[trigger] rows[k] < view.nrows && (k >= steps(view)
            ==> rows[k] == k)
    &&& forall|k: int|
        0 <= k < view.ncols ==> k <= #[trigger] cols[k] < view.ncols && (k >= steps(view)
            ==> cols[k] == k)
    &&& if view.is_empty() {
        result == initial
    } else {
        factored(inv, times, mul_add, view, initial, rows, cols, result)
    }
    &&& count == moved(rows, steps(view)) + moved(cols, steps(view))
}

/// Fills `t` with `0, 1, ..`: no exchange at all.
pub fn fill_identity(t: &mut [usize])
    ensures
        final(t).len() == old(t).len(),
        forall|i: int| 0 <= i < final(t).len() ==> #[trigger] final(t)[i] == i,
{
    let n = t.len();
    let mut i: usize = 0;
    while i < n
        invariant
            n == t.len(),
            t.len() == old(t).len(),
            i <= n,
            forall|k: int| 0 <= k < i ==> #[trigger] t[k] == k,
        decreases n - i,
    {
        t[i] = i;
        i += 1;
    }
}

/// Factors the matrix in place with full pivoting and fills in the two
/// permutations of the factorization, each with its inverse.
///
/// On return the matrix holds the unit lower factor below its diagonal and
/// the upper factor on and above it. `row_perm` and `col_perm` are what the
/// exchanges of rows and of columns compose to, in the order in which the
/// elimination made them. The result counts the exchanges that moved
/// anything.
///
/// The exchanges are recorded in `scratch`, which has room for one index
/// for each row and each column: what `lu_in_place_req` asks for. What
/// `scratch` holds on return is not specified.
pub fn lu_in_place<I: Fn(u64) -> u64, M: Fn(u64, u64) -> u64, F: Fn(u64, u64, u64) -> u64>(
    buf: &mut [u64],
    matrix: MatView,
    row_perm: &mut [usize],
    row_perm_inv: &mut [usize],
    col_perm: &mut [usize],
    col_perm_inv: &mut [usize],
    lane_count: usize,
    inv: &I,
    times: &M,
    mul_add: &F,
    scratch: &mut [usize],
) -> (n_transpositions: usize)
    requires
        total1(inv),
        total2(times),
        total3(mul_add),
        matrix.wf(old(buf).len() as int),
        old(row_perm).len() == matrix.nrows,
        old(row_perm_inv).len() == matrix.nrows,
        old(col_perm).len() == matrix.ncols,
        old(col_perm_inv).len() == matrix.ncols,
        old(scratch).len() >= matrix.nrows + matrix.ncols,
    ensures
        final(buf).len() == old(buf).len(),
        final(scratch).len() == old(scratch).len(),
        exists|rows: Seq<usize>, cols: Seq<usize>|
            {
                &&& #[trigger] decomposed(
                    inv,
                    times,
                    mul_add,
                    matrix,
                    old(buf)@,
                    rows,
                    cols,
                    final(buf)@,
                    n_transpositions as int,
                )
                &&& final(row_perm)@ == composed(rows, matrix.nrows as int)
                &&& final(col_perm)@ == composed(cols, matrix.ncols as int)
            },
        mutually_inverse(final(row_perm)@, final(row_perm_inv)@),
        mutually_inverse(final(col_perm)@, final(col_perm_inv)@),
{
    let m = matrix.nrows;
    let n = matrix.ncols;
    let ghost initial = buf@;

    let (row_transpositions, rest) = scratch.split_at_mut(m);
    let (col_transpositions, _) = rest.split_at_mut(n);
    fill_identity(row_transpositions);
    fill_identity(col_transpositions);

    let n_transpositions = lu_in_place_unblocked(
        buf,
        matrix,
        row_transpositions,
        col_transpositions,
        lane_count,
        inv,
        times,
        mul_add,
    );
    proof {
        if matrix.is_empty() {
            reveal_with_fuel(moved, 1);
        }
        assert(decomposed(
            inv,
            times,
            mul_add,
            matrix,
            initial,
            row_transpositions@,
            col_transpositions@,
            buf@,
            n_transpositions as int,
        ));
    }

    permutation_from_transpositions(row_transpositions, row_perm, row_perm_inv);
    permutation_from_transpositions(col_transpositions, col_perm, col_perm_inv);
    n_transpositions
}

/// The bytes of scratch that the factorization of an `m` by `n` matrix
/// takes: one index for each row and one for each column.
pub open spec fn lu_bytes(m: usize, n: usize) -> int {
    (m + n) * vstd::layout::size_of::<usize>()
}

/// The bytes of scratch that the factorization of an `m` by `n` matrix
/// takes, or `SizeOverflow` where a `usize` cannot hold their number.
pub fn lu_in_place_req(m: usize, n: usize, parallelism: Parallelism) -> (r: Result<
    usize,
    SizeOverflow,
>)
    ensures
        r.is_ok() <==> lu_bytes(m, n) <= usize::MAX,
        r matches Ok(bytes) ==> bytes == lu_bytes(m, n),
{
    broadcast use vstd::layout::layout_of_primitives;

    let _ = parallelism;
    match m.checked_add(n) {
        None => {
            proof {
                let word = vstd::layout::size_of::<usize>() as int;
                assert((m + n) * word > usize::MAX) by (nonlinear_arith)
                    requires
                        m + n > usize::MAX,
                        word >= 1,
                ;
            }
            Err(SizeOverflow)
        },
        Some(indices) => match array_req::<usize>(indices) {
            None => Err(SizeOverflow),
            Some(bytes) => Ok(bytes),
        },
    }
}

/// In every row above `upto`, no entry right of the diagonal outweighs the
/// diagonal entry.
pub open spec fn rows_dominated(buf: Seq<u64>, view: MatView, upto: int) -> bool {
    forall|k: int, j: int|
        0 <= k < upto && k < view.nrows && k <= j < view.ncols ==> weight(
            #[trigger] view.at(buf, k, j),
        ) <= weight(view.at(buf, k, k))
}

/// A pivot brought into place outweighs everything that is left: after the
/// exchanges of step `k`, no entry below or right of `(k, k)` outweighs it.
pub proof fn lemma_pivot_in_place(
    view: MatView,
    by_rows: bool,
    mid: Seq<u64>,
    state: Seq<u64>,
    k: int,
    r: int,
    c: int,
)
    requires
        0 <= k,
        is_pivot_from(mid, view, by_rows, k, r, c),
        pivoted(view, mid, state, k, r, c),
    ensures
        forall|i: int, j: int|
            view.has(i, j) && i >= k && j >= k ==> weight(#[trigger] view.at(state, i, j))
                <= weight(view.at(state, k, k)),
{
    assert(view.has(k, k));
    assert(view.at(state, k, k) == view.at(mid, r, c));
    assert forall|i: int, j: int| view.has(i, j) && i >= k && j >= k implies weight(
        #[trigger] view.at(state, i, j),
    ) <= weight(view.at(state, k, k)) by {
        let a = exchange(k, r, i);
        let b = exchange(k, c, j);
        assert(view.has(a, b) && a >= k && b >= k);
        assert(view.at(state, i, j) == view.at(mid, a, b));
    }
}

/// An elimination step keeps the rows down to its own as they are.
proof fn lemma_eliminated_keeps<I: Fn(u64) -> u64, M: Fn(u64, u64) -> u64, F: Fn(u64, u64, u64) -> u64>(
    inv: &I,
    times: &M,
    mul_add: &F,
    view: MatView,
    k: int,
    before: Seq<u64>,
    after: Seq<u64>,
)
    requires
        0 <= k,
        eliminated(inv, times, mul_add, view, k, before, after),
        rows_dominated(before, view, k + 1),
    ensures
        rows_dominated(after, view, k + 1),
{
    assert forall|i: int, j: int| 0 <= i < k + 1 && i < view.nrows && i <= j < view.ncols implies weight(
        #[trigger] view.at(after, i, j),
    ) <= weight(view.at(after, i, i)) by {
        assert(view.has(i, j) && view.has(i, i));
        assert(view.at(after, i, j) == view.at(before, i, j));
        assert(view.at(after, i, i) == view.at(before, i, i));
        assert(weight(view.at(before, i, j)) <= weight(view.at(before, i, i)));
    }
}

/// Bringing the pivot of step `k` into place keeps the rows above `k`
/// dominated, and makes row `k` so.
proof fn lemma_pivoted_keeps(
    view: MatView,
    by_rows: bool,
    mid: Seq<u64>,
    state: Seq<u64>,
    k: int,
    r: int,
    c: int,
)
    requires
        0 <= k,
        is_pivot_from(mid, view, by_rows, k, r, c),
        pivoted(view, mid, state, k, r, c),
        rows_dominated(mid, view, k),
    ensures
        rows_dominated(state, view, k + 1),
{
    lemma_pivot_in_place(view, by_rows, mid, state, k, r, c);
    assert forall|i: int, j: int| 0 <= i < k + 1 && i < view.nrows && i <= j < view.ncols implies weight(
        #[trigger] view.at(state, i, j),
    ) <= weight(view.at(state, i, i)) by {
        assert(view.has(i, j) && view.has(i, i));
        if i < k {
            let b = exchange(k, c, j);
            assert(exchange(k, r, i) == i);
            assert(exchange(k, c, i) == i);
            assert(view.at(state, i, j) == view.at(mid, i, b));
            assert(view.at(state, i, i) == view.at(mid, i, i));
            assert(i <= b < view.ncols);
            assert(weight(view.at(mid, i, b)) <= weight(view.at(mid, i, i)));
        }
    }
}

/// At the start of step `k` the rows down to `k` are dominated by their
/// diagonal entries.
proof fn lemma_reaches_dominated<I: Fn(u64) -> u64, M: Fn(u64, u64) -> u64, F: Fn(u64, u64, u64) -> u64>(
    inv: &I,
    times: &M,
    mul_add: &F,
    view: MatView,
    initial: Seq<u64>,
    rows: Seq<usize>,
    cols: Seq<usize>,
    k: int,
    state: Seq<u64>,
)
    requires
        0 <= k,
        reaches(inv, times, mul_add, view, initial, rows, cols, k, state),
    ensures
        rows_dominated(state, view, k + 1),
    decreases k,
{
    let by_rows = scans_by_rows(view);
    if k == 0 {
        lemma_pivoted_keeps(view, by_rows, initial, state, 0, rows[0] as int, cols[0] as int);
    } else {
        let prev = choose|prev: Seq<u64>|
            {
                &&& reaches(inv, times, mul_add, view, initial, rows, cols, k - 1, prev)
                &&& #[trigger] advanced(
                    inv,
                    times,
                    mul_add,
                    view,
                    k - 1,
                    prev,
                    state,
                    rows[k] as int,
                    cols[k] as int,
                )
            };
        lemma_reaches_dominated(inv, times, mul_add, view, initial, rows, cols, k - 1, prev);
        let mid = choose|mid: Seq<u64>|
            {
                &&& #[trigger] eliminated(inv, times, mul_add, view, k - 1, prev, mid)
                &&& is_pivot_from(mid, view, by_rows, k, rows[k] as int, cols[k] as int)
                &&& pivoted(view, mid, state, k, rows[k] as int, cols[k] as int)
            };
        lemma_eliminated_keeps(inv, times, mul_add, view, k - 1, prev, mid);
        lemma_pivoted_keeps(view, by_rows, mid, state, k, rows[k] as int, cols[k] as int);
    }
}

/// Every pivot outweighs its row of the upper factor: in the factored
/// matrix no entry of a row right of the diagonal is larger in magnitude
/// than the diagonal entry of that row, for every row that a step of the
/// elimination has worked on. The diagonal entry is the pivot that the
/// search chose for its step, and the rest of its row is what was left of
/// that row then.
pub proof fn lemma_diagonal_dominates<I: Fn(u64) -> u64, M: Fn(u64, u64) -> u64, F: Fn(u64, u64, u64) -> u64>(
    inv: &I,
    times: &M,
    mul_add: &F,
    view: MatView,
    initial: Seq<u64>,
    rows: Seq<usize>,
    cols: Seq<usize>,
    result: Seq<u64>,
)
    requires
        !view.is_empty(),
        factored(inv, times, mul_add, view, initial, rows, cols, result),
    ensures
        rows_dominated(result, view, steps(view)),
{
    let last = choose|last: Seq<u64>|
        {
            &&& reaches(inv, times, mul_add, view, initial, rows, cols, steps(view) - 1, last)
            &&& #[trigger] eliminated(inv, times, mul_add, view, steps(view) - 1, last, result)
        };
    lemma_reaches_dominated(inv, times, mul_add, view, initial, rows, cols, steps(view) - 1, last);
    lemma_eliminated_keeps(inv, times, mul_add, view, steps(view) - 1, last, result);
}

/// The first row of `state` is row `rows[0]` of `initial`, its entries in
/// the order that the first `upto` exchanges of columns make.
pub open spec fn first_row_placed(
    view: MatView,
    initial: Seq<u64>,
    rows: Seq<usize>,
    cols: Seq<usize>,
    upto: int,
    state: Seq<u64>,
) -> bool {
    forall|j: int|
        0 <= j < view.ncols ==> #[trigger] view.at(state, 0, j) == view.at(
            initial,
            rows[0] as int,
            composed(cols, upto)[j] as int,
        )
}

/// At the start of step `k` the first row is the first pivot's row, its
/// entries in the order of the exchanges of columns made so far.
proof fn lemma_reaches_first_row<I: Fn(u64) -> u64, M: Fn(u64, u64) -> u64, F: Fn(u64, u64, u64) -> u64>(
    inv: &I,
    times: &M,
    mul_add: &F,
    view: MatView,
    initial: Seq<u64>,
    rows: Seq<usize>,
    cols: Seq<usize>,
    k: int,
    state: Seq<u64>,
)
    requires
        0 <= k < steps(view),
        cols.len() == view.ncols,
        reaches(inv, times, mul_add, view, initial, rows, cols, k, state),
    ensures
        first_row_placed(view, initial, rows, cols, k + 1, state),
        forall|i: int| 0 <= i <= k ==> i <= #[trigger] cols[i] < view.ncols,
    decreases k,
{
    if k == 0 {
        assert forall|j: int| 0 <= j < view.ncols implies #[trigger] view.at(state, 0, j)
            == view.at(initial, rows[0] as int, composed(cols, 1)[j] as int) by {
            assert(view.has(0, j));
            lemma_composed_step(cols, 0, j);
        }
    } else {
        let prev = choose|prev: Seq<u64>|
            {
                &&& reaches(inv, times, mul_add, view, initial, rows, cols, k - 1, prev)
                &&& #[trigger] advanced(
                    inv,
                    times,
                    mul_add,
                    view,
                    k - 1,
                    prev,
                    state,
                    rows[k] as int,
                    cols[k] as int,
                )
            };
        lemma_reaches_first_row(inv, times, mul_add, view, initial, rows, cols, k - 1, prev);
        let mid = choose|mid: Seq<u64>|
            {
                &&& #[trigger] eliminated(inv, times, mul_add, view, k - 1, prev, mid)
                &&& is_pivot_from(
                    mid,
                    view,
                    scans_by_rows(view),
                    k,
                    rows[k] as int,
                    cols[k] as int,
                )
                &&& pivoted(view, mid, state, k, rows[k] as int, cols[k] as int)
            };
        assert forall|j: int| 0 <= j < view.ncols implies #[trigger] view.at(state, 0, j)
            == view.at(initial, rows[0] as int, composed(cols, k + 1)[j] as int) by {
            let from = exchange(k, cols[k] as int, j);
            assert(view.has(0, j) && view.has(0, from));
            assert(exchange(k, rows[k] as int, 0) == 0);
            assert(view.at(state, 0, j) == view.at(mid, 0, from));
            assert(view.at(mid, 0, from) == view.at(prev, 0, from));
            lemma_composed_step(cols, k, j);
        }
    }
}

/// The first row of the upper factor is a row of the matrix that was
/// factored: row `row_perm[0]`, with the entry of column `col_perm[j]` in
/// place `j`, where `row_perm` and `col_perm` are the permutations that the
/// exchanges compose to. No arithmetic touches this row, so the statement
/// is exact.
pub proof fn lemma_first_row_of_upper_factor<
    I: Fn(u64) -> u64,
    M: Fn(u64, u64) -> u64,
    F: Fn(u64, u64, u64) -> u64,
>(
    inv: &I,
    times: &M,
    mul_add: &F,
    view: MatView,
    initial: Seq<u64>,
    rows: Seq<usize>,
    cols: Seq<usize>,
    result: Seq<u64>,
    count: int,
)
    requires
        !view.is_empty(),
        decomposed(inv, times, mul_add, view, initial, rows, cols, result, count),
    ensures
        forall|j: int|
            0 <= j < view.ncols ==> #[trigger] view.at(result, 0, j) == view.at(
                initial,
                composed(rows, view.nrows as int)[0] as int,
                composed(cols, view.ncols as int)[j] as int,
            ),
{
    let last = choose|last: Seq<u64>|
        {
            &&& reaches(inv, times, mul_add, view, initial, rows, cols, steps(view) - 1, last)
            &&& #[trigger] eliminated(inv, times, mul_add, view, steps(view) - 1, last, result)
        };
    lemma_reaches_first_row(inv, times, mul_add, view, initial, rows, cols, steps(view) - 1, last);
    lemma_composed_rest(cols, steps(view), view.ncols as int);
    lemma_composed_first(rows, view.nrows as int);
    assert forall|j: int| 0 <= j < view.ncols implies #[trigger] view.at(result, 0, j) == view.at(
        initial,
        composed(rows, view.nrows as int)[0] as int,
        composed(cols, view.ncols as int)[j] as int,
    ) by {
        assert(view.has(0, j));
        assert(view.at(result, 0, j) == view.at(last, 0, j));
    }
}

/// At the start of step `k` the pivot is in place: no entry from `(k, k)`
/// on outweighs the entry at `(k, k)`.
pub proof fn lemma_reaches_pivot_in_place<
    I: Fn(u64) -> u64,
    M: Fn(u64, u64) -> u64,
    F: Fn(u64, u64, u64) -> u64,
>(
    inv: &I,
    times: &M,
    mul_add: &F,
    view: MatView,
    initial: Seq<u64>,
    rows: Seq<usize>,
    cols: Seq<usize>,
    k: int,
    state: Seq<u64>,
)
    requires
        0 <= k,
        reaches(inv, times, mul_add, view, initial, rows, cols, k, state),
    ensures
        forall|i: int, j: int|
            view.has(i, j) && i >= k && j >= k ==> weight(#[trigger] view.at(state, i, j))
                <= weight(view.at(state, k, k)),
{
    let by_rows = scans_by_rows(view);
    if k == 0 {
        lemma_pivot_in_place(view, by_rows, initial, state, 0, rows[0] as int, cols[0] as int);
    } else {
        let prev = choose|prev: Seq<u64>|
            {
                &&& reaches(inv, times, mul_add, view, initial, rows, cols, k - 1, prev)
                &&& #[trigger] advanced(
                    inv,
                    times,
                    mul_add,
                    view,
                    k - 1,
                    prev,
                    state,
                    rows[k] as int,
                    cols[k] as int,
                )
            };
        let mid = choose|mid: Seq<u64>|
            {
                &&& #[trigger] eliminated(inv, times, mul_add, view, k - 1, prev, mid)
                &&& is_pivot_from(mid, view, by_rows, k, rows[k] as int, cols[k] as int)
                &&& pivoted(view, mid, state, k, rows[k] as int, cols[k] as int)
            };
        lemma_pivot_in_place(view, by_rows, mid, state, k, rows[k] as int, cols[k] as int);
    }
}

/// The steps after `k` leave the pivot of step `k` where it is: the state
/// at the start of a later step `j` has at `(k, k)` what a state at the
/// start of step `k` had there.
proof fn lemma_reaches_back<I: Fn(u64) -> u64, M: Fn(u64, u64) -> u64, F: Fn(u64, u64, u64) -> u64>(
    inv: &I,
    times: &M,
    mul_add: &F,
    view: MatView,
    initial: Seq<u64>,
    rows: Seq<usize>,
    cols: Seq<usize>,
    j: int,
    later: Seq<u64>,
    k: int,
) -> (state: Seq<u64>)
    requires
        0 <= k <= j < steps(view),
        reaches(inv, times, mul_add, view, initial, rows, cols, j, later),
    ensures
        reaches(inv, times, mul_add, view, initial, rows, cols, k, state),
        view.at(later, k, k) == view.at(state, k, k),
    decreases j - k,
{
    if j == k {
        later
    } else {
        let by_rows = scans_by_rows(view);
        let prev = choose|prev: Seq<u64>|
            {
                &&& reaches(inv, times, mul_add, view, initial, rows, cols, j - 1, prev)
                &&& #[trigger] advanced(
                    inv,
                    times,
                    mul_add,
                    view,
                    j - 1,
                    prev,
                    later,
                    rows[j] as int,
                    cols[j] as int,
                )
            };
        let mid = choose|mid: Seq<u64>|
            {
                &&& #[trigger] eliminated(inv, times, mul_add, view, j - 1, prev, mid)
                &&& is_pivot_from(mid, view, by_rows, j, rows[j] as int, cols[j] as int)
                &&& pivoted(view, mid, later, j, rows[j] as int, cols[j] as int)
            };
        assert(view.has(k, k));
        assert(exchange(j, rows[j] as int, k) == k);
        assert(exchange(j, cols[j] as int, k) == k);
        assert(view.at(later, k, k) == view.at(mid, k, k));
        assert(view.at(mid, k, k) == view.at(prev, k, k));
        lemma_reaches_back(inv, times, mul_add, view, initial, rows, cols, j - 1, prev, k)
    }
}

/// Every diagonal entry of the upper factor is the pivot of its step: the
/// entry `(k, k)` of the factored matrix is the entry `(k, k)` of the matrix
/// as it was at the start of step `k`, before the column below it was
/// divided, and nothing from `(k, k)` on outweighed it then.
pub proof fn lemma_pivot_maximality<I: Fn(u64) -> u64, M: Fn(u64, u64) -> u64, F: Fn(u64, u64, u64) -> u64>(
    inv: &I,
    times: &M,
    mul_add: &F,
    view: MatView,
    initial: Seq<u64>,
    rows: Seq<usize>,
    cols: Seq<usize>,
    result: Seq<u64>,
    k: int,
) -> (state: Seq<u64>)
    requires
        0 <= k < steps(view),
        factored(inv, times, mul_add, view, initial, rows, cols, result),
    ensures
        reaches(inv, times, mul_add, view, initial, rows, cols, k, state),
        view.at(result, k, k) == view.at(state, k, k),
        forall|i: int, j: int|
            view.has(i, j) && i >= k && j >= k ==> weight(#[trigger] view.at(state, i, j))
                <= weight(view.at(result, k, k)),
{
    let last = choose|last: Seq<u64>|
        {
            &&& reaches(inv, times, mul_add, view, initial, rows, cols, steps(view) - 1, last)
            &&& #[trigger] eliminated(inv, times, mul_add, view, steps(view) - 1, last, result)
        };
    assert(view.has(k, k));
    assert(view.at(result, k, k) == view.at(last, k, k));
    let state = lemma_reaches_back(
        inv,
        times,
        mul_add,
        view,
        initial,
        rows,
        cols,
        steps(view) - 1,
        last,
        k,
    );
    lemma_reaches_pivot_in_place(inv, times, mul_add, view, initial, rows, cols, k, state);
    state
}

} // verus!
