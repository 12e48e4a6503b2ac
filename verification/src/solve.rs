//! Solving linear systems with the factors of a full-pivoting
//! factorization.
//!
//! With `P A Q = L U` the solution of `A X = B` is `X = Q U^-1 L^-1 P B`.
//! The driver permutes the rows of `B`, hands the result to the two
//! triangular solves in turn, and permutes the rows of what comes back. The
//! triangular solves are the caller's: two functions from a factor matrix,
//! a right-hand side and the flags that go with them to the solved
//! right-hand side.

use crate::permutation::PermutationIndicesRef;
use crate::scratch::{array_req, SizeOverflow};
use crate::view::MatView;
use vstd::prelude::*;

verus! {

/// Whether a matrix is to be read as it is or as its complex conjugate.
#[derive(Clone, Copy, Debug, PartialEq, Eq, Structural)]
pub enum Conj {
    No,
    Yes,
}

/// How much parallel work the triangular solves may start. The driver
/// hands the value on and does not read it.
#[derive(Clone, Copy, Debug, PartialEq, Eq, Structural)]
pub enum Parallelism {
    Sequential,
    Rayon(usize),
}

/// Bytes in one entry of a matrix.
pub const ENTRY_BYTES: usize = 8;

/// The bytes of scratch that a solve with `rhs_ncols` right-hand sides
/// takes, for factors of `lu_nrows` rows: one entry for each entry of the
/// right-hand side.
pub open spec fn solve_bytes(lu_nrows: usize, rhs_ncols: usize) -> int {
    lu_nrows * rhs_ncols * ENTRY_BYTES
}

/// The bytes of scratch that a solve takes, or `SizeOverflow` where a
/// `usize` cannot hold their number.
pub fn solve_req(lu_nrows: usize, lu_ncols: usize, rhs_ncols: usize, parallelism: Parallelism) -> (r:
    Result<usize, SizeOverflow>)
    ensures
        r.is_ok() <==> solve_bytes(lu_nrows, rhs_ncols) <= usize::MAX,
        r matches Ok(bytes) ==> bytes == solve_bytes(lu_nrows, rhs_ncols),
{
    broadcast use vstd::layout::layout_of_primitives;

    let _ = lu_ncols;
    let _ = parallelism;
    match lu_nrows.checked_mul(rhs_ncols) {
        None => {
            proof {
                assert(lu_nrows * rhs_ncols * ENTRY_BYTES > usize::MAX) by (nonlinear_arith)
                    requires
                        lu_nrows * rhs_ncols > usize::MAX,
                        ENTRY_BYTES == 8,
                ;
            }
            Err(SizeOverflow)
        },
        Some(entries) => match array_req::<u64>(entries) {
            None => Err(SizeOverflow),
            Some(bytes) => Ok(bytes),
        },
    }
}

/// Row `i` of `dst` is row `perm[i]` of `src`; nothing else of the
/// destination buffer has changed.
pub open spec fn rows_permuted(
    dst_view: MatView,
    before: Seq<u64>,
    after: Seq<u64>,
    src_view: MatView,
    src: Seq<u64>,
    perm: Seq<usize>,
) -> bool {
    &&& after.len() == before.len()
    &&& forall|i: int, j: int|
        dst_view.has(i, j) ==> #[trigger] dst_view.at(after, i, j) == src_view.at(
            src,
            perm[i] as int,
            j,
        )
    &&& forall|p: int|
        0 <= p < before.len() && !dst_view.covers(p) ==> #[trigger] after[p] == before[p]
}

/// Copies the rows of `src` to `dst` in the order that `perm` gives: row
/// `i` of `dst` becomes row `perm[i]` of `src`.
pub fn permute_rows(
    dst: &mut [u64],
    dst_view: MatView,
    src: &[u64],
    src_view: MatView,
    perm: &[usize],
)
    requires
        dst_view.wf(old(dst).len() as int),
        src_view.in_bounds(src.len() as int),
        dst_view.nrows == src_view.nrows,
        dst_view.ncols == src_view.ncols,
        perm.len() == src_view.nrows,
        forall|i: int| 0 <= i < perm.len() ==> perm[i] < perm.len(),
    ensures
        rows_permuted(dst_view, old(dst)@, final(dst)@, src_view, src@, perm@),
{
    let m = dst_view.nrows;
    let n = dst_view.ncols;
    let ghost before = dst@;
    let mut j: usize = 0;
    while j < n
        invariant
            before == old(dst)@,
            dst.len() == before.len(),
            dst_view.wf(dst.len() as int),
            src_view.in_bounds(src.len() as int),
            m == dst_view.nrows,
            n == dst_view.ncols,
            m == src_view.nrows,
            n == src_view.ncols,
            perm.len() == m,
            forall|i: int| 0 <= i < perm.len() ==> perm[i] < perm.len(),
            j <= n,
            forall|i: int, c: int|
                dst_view.has(i, c) && c < j ==> #[trigger] dst_view.at(dst@, i, c) == src_view.at(
                    src@,
                    perm[i] as int,
                    c,
                ),
            forall|p: int|
                0 <= p < before.len() && !dst_view.covers(p) ==> #[trigger] dst[p] == before[p],
        decreases n - j,
    {
        let mut i: usize = 0;
        while i < m
            invariant
                before == old(dst)@,
                dst.len() == before.len(),
                dst_view.wf(dst.len() as int),
                src_view.in_bounds(src.len() as int),
                m == dst_view.nrows,
                n == dst_view.ncols,
                m == src_view.nrows,
                n == src_view.ncols,
                perm.len() == m,
                forall|i: int| 0 <= i < perm.len() ==> perm[i] < perm.len(),
                j < n,
                i <= m,
                forall|a: int, c: int|
                    dst_view.has(a, c) && (c < j || (c == j && a < i)) ==> #[trigger] dst_view.at(
                        dst@,
                        a,
                        c,
                    ) == src_view.at(src@, perm[a] as int, c),
                forall|p: int|
                    0 <= p < before.len() && !dst_view.covers(p) ==> #[trigger] dst[p] == before[p],
            decreases m - i,
        {
            let ghost was = dst@;
            let x = src_view.get(src, perm[i], j);
            dst_view.set(dst, i, j, x);
            proof {
                let q = dst_view.index(i as int, j as int);
                assert(dst_view.has(i as int, j as int));
                assert(dst_view.covers(q));
                assert forall|a: int, c: int|
                    dst_view.has(a, c) && !(a == i && c == j) implies #[trigger] dst_view.at(
                    dst@,
                    a,
                    c,
                ) == dst_view.at(was, a, c) by {
                    assert(dst_view.index(a, c) != q);
                }
                assert(dst_view.at(dst@, i as int, j as int) == x);
            }
            i += 1;
        }
        j += 1;
    }
}

/// The view of the scratch matrix of a solve: `nrows` by `ncols`, column
/// after column.
pub open spec fn packed(nrows: usize, ncols: usize) -> MatView {
    MatView { offset: 0, nrows, ncols, row_stride: 1, col_stride: nrows as isize }
}

/// `solve` accepts the factors `lu` with any right-hand side of `len`
/// elements under the view `rhs_view`, and returns as many elements as it
/// was given.
pub open spec fn fits<S: Fn(&[u64], MatView, Conj, Vec<u64>, MatView, Conj, Parallelism) -> Vec<u64>>(
    solve: &S,
    lu: &[u64],
    lu_view: MatView,
    rhs_view: MatView,
    len: int,
) -> bool {
    &&& forall|c: Conj, t: Vec<u64>, d: Conj, par: Parallelism|
        t.len() == len ==> solve.requires((lu, lu_view, c, t, rhs_view, d, par))
    &&& forall|c: Conj, t: Vec<u64>, d: Conj, par: Parallelism, out: Vec<u64>|
        #[trigger] solve.ensures((lu, lu_view, c, t, rhs_view, d, par), out) ==> out.len()
            == t.len()
}

/// `after` holds in `dst_view` the solution of the system whose right-hand
/// side is `src`.
///
/// The scratch matrix, which lies at the start of the scratch, first gets
/// the rows of `src` in the order of `row_perm`. The lower solve receives
/// it with both flags as the caller gave them. The upper solve receives
/// what the lower solve returned, with the flag of the factors as given and
/// `Conj::No` for the right-hand side, which the lower solve has already
/// conjugated where that was asked. Row `i` of the destination is row
/// `col_perm_inv[i]` of what the upper solve returned. With no right-hand
/// side column nothing is done.
pub open spec fn solved<
    L: Fn(&[u64], MatView, Conj, Vec<u64>, MatView, Conj, Parallelism) -> Vec<u64>,
    U: Fn(&[u64], MatView, Conj, Vec<u64>, MatView, Conj, Parallelism) -> Vec<u64>,
>(
    lower: &L,
    upper: &U,
    lu: &[u64],
    lu_view: MatView,
    conj_lhs: Conj,
    row_perm: Seq<usize>,
    col_perm_inv: Seq<usize>,
    src: Seq<u64>,
    src_view: MatView,
    conj_rhs: Conj,
    parallelism: Parallelism,
    dst_view: MatView,
    before: Seq<u64>,
    after: Seq<u64>,
    scratch: Vec<u64>,
    returned: Vec<u64>,
) -> bool {
    let temp_view = packed(lu_view.ncols, dst_view.ncols);
    if dst_view.ncols == 0 {
        after == before && returned == scratch
    } else {
        exists|t0: Vec<u64>, t1: Vec<u64>|
            {
                &&& t0.len() == scratch.len()
                &&& forall|i: int, j: int|
                    temp_view.has(i, j) ==> #[trigger] temp_view.at(t0@, i, j) == src_view.at(
                        src,
                        row_perm[i] as int,
                        j,
                    )
                &&& forall|p: int|
                    0 <= p < scratch.len() && !temp_view.covers(p) ==> #[trigger] t0@[p]
                        == scratch@[p]
                &&& #[trigger] lower.ensures(
                    (lu, lu_view, conj_lhs, t0, temp_view, conj_rhs, parallelism),
                    t1,
                )
                &&& #[trigger] upper.ensures(
                    (lu, lu_view, conj_lhs, t1, temp_view, Conj::No, parallelism),
                    returned,
                )
                &&& rows_permuted(dst_view, before, after, temp_view, returned@, col_perm_inv)
            }
    }
}

/// What the two public solves share, once the scratch matrix holds the
/// permuted right-hand side: the two triangular solves and the permutation
/// of the result into the destination.
fn solve_impl<
    L: Fn(&[u64], MatView, Conj, Vec<u64>, MatView, Conj, Parallelism) -> Vec<u64>,
    U: Fn(&[u64], MatView, Conj, Vec<u64>, MatView, Conj, Parallelism) -> Vec<u64>,
>(
    lu_factors: &[u64],
    lu_view: MatView,
    conj_lhs: Conj,
    col_perm: PermutationIndicesRef<'_>,
    dst: &mut [u64],
    dst_view: MatView,
    temp: Vec<u64>,
    temp_view: MatView,
    conj_rhs: Conj,
    parallelism: Parallelism,
    lower: &L,
    upper: &U,
) -> (r: (Vec<u64>, Ghost<Vec<u64>>))
    requires
        fits(lower, lu_factors, lu_view, temp_view, temp.len() as int),
        fits(upper, lu_factors, lu_view, temp_view, temp.len() as int),
        col_perm.wf(),
        col_perm.forward().len() == dst_view.nrows,
        dst_view.wf(old(dst).len() as int),
        temp_view == packed(lu_view.ncols, dst_view.ncols),
        temp_view.in_bounds(temp.len() as int),
        lu_view.ncols == dst_view.nrows,
    ensures
        lower.ensures(
            (lu_factors, lu_view, conj_lhs, temp, temp_view, conj_rhs, parallelism),
            r.1@,
        ),
        upper.ensures(
            (lu_factors, lu_view, conj_lhs, r.1@, temp_view, Conj::No, parallelism),
            r.0,
        ),
        rows_permuted(dst_view, old(dst)@, final(dst)@, temp_view, r.0@, col_perm.inverse_array()),
        r.0.len() == temp.len(),
{
    let temp = lower(lu_factors, lu_view, conj_lhs, temp, temp_view, conj_rhs, parallelism);
    let ghost t1 = temp;
    let temp = upper(lu_factors, lu_view, conj_lhs, temp, temp_view, Conj::No, parallelism);
    let (inv_fwd, _) = col_perm.inverse().into_arrays();
    permute_rows(dst, dst_view, temp.as_slice(), temp_view, inv_fwd);
    (temp, Ghost(t1))
}

/// The view of the scratch matrix of a solve.
fn temp_view_of(nrows: usize, ncols: usize, Ghost(len): Ghost<int>) -> (v: MatView)
    requires
        ncols > 0,
        solve_bytes(nrows, ncols) <= usize::MAX,
        nrows * ncols <= len,
    ensures
        v == packed(nrows, ncols),
        v.wf(len),
{
    proof {
        assert(nrows * ncols <= nrows * ncols * ENTRY_BYTES && nrows <= nrows * ncols) by (nonlinear_arith)
            requires
                ncols > 0,
                ENTRY_BYTES == 8,
        ;
    }
    let v = MatView { offset: 0, nrows, ncols, row_stride: 1, col_stride: nrows as isize };
    proof {
        let w = MatView::col_major_spec(nrows, ncols);
        MatView::lemma_col_major(nrows, ncols);
        assert(v == w);
        assert(v.in_bounds(len)) by {
            assert forall|i: int, j: int| v.has(i, j) implies 0 <= #[trigger] v.index(i, j)
                < len by {
                assert(0 <= v.index(i, j) < nrows * ncols);
            }
        }
    }
    v
}

/// Solves the system whose factors are `lu_factors` for the right-hand
/// side `rhs`, and writes the solution to `dst`.
///
/// The two triangular solves are `lower` and `upper`. `scratch` holds at
/// least one element for each entry of the right-hand side, which is what
/// `solve_req` asks for; it is handed to the solves and comes back as the
/// result.
pub fn solve_to<
    L: Fn(&[u64], MatView, Conj, Vec<u64>, MatView, Conj, Parallelism) -> Vec<u64>,
    U: Fn(&[u64], MatView, Conj, Vec<u64>, MatView, Conj, Parallelism) -> Vec<u64>,
>(
    dst: &mut [u64],
    dst_view: MatView,
    lu_factors: &[u64],
    lu_view: MatView,
    conj_lhs: Conj,
    row_perm: PermutationIndicesRef<'_>,
    col_perm: PermutationIndicesRef<'_>,
    rhs: &[u64],
    rhs_view: MatView,
    conj_rhs: Conj,
    parallelism: Parallelism,
    lower: &L,
    upper: &U,
    scratch: Vec<u64>,
) -> (returned: Vec<u64>)
    requires
        fits(
            lower,
            lu_factors,
            lu_view,
            packed(lu_view.ncols, dst_view.ncols),
            scratch.len() as int,
        ),
        fits(
            upper,
            lu_factors,
            lu_view,
            packed(lu_view.ncols, dst_view.ncols),
            scratch.len() as int,
        ),
        row_perm.wf(),
        col_perm.wf(),
        lu_view.nrows == lu_view.ncols,
        row_perm.forward().len() == lu_view.ncols,
        col_perm.forward().len() == lu_view.ncols,
        dst_view.nrows == lu_view.ncols,
        rhs_view.nrows == lu_view.ncols,
        rhs_view.ncols == dst_view.ncols,
        dst_view.wf(old(dst).len() as int),
        rhs_view.in_bounds(rhs.len() as int),
        solve_bytes(lu_view.nrows, dst_view.ncols) <= usize::MAX,
        scratch.len() >= lu_view.nrows * dst_view.ncols,
    ensures
        solved(
            lower,
            upper,
            lu_factors,
            lu_view,
            conj_lhs,
            row_perm.forward(),
            col_perm.inverse_array(),
            rhs@,
            rhs_view,
            conj_rhs,
            parallelism,
            dst_view,
            old(dst)@,
            final(dst)@,
            scratch,
            returned,
        ),
        returned.len() == scratch.len(),
{
    let n = lu_view.ncols;
    let k = dst_view.ncols;
    if k == 0 {
        return scratch;
    }
    let ghost given = scratch;
    let mut temp = scratch;
    let temp_view = temp_view_of(n, k, Ghost(temp.len() as int));
    let (fwd, _) = row_perm.into_arrays();
    permute_rows(temp.as_mut_slice(), temp_view, rhs, rhs_view, fwd);
    let ghost t0 = temp;
    let (returned, steps) = solve_impl(
        lu_factors,
        lu_view,
        conj_lhs,
        col_perm,
        dst,
        dst_view,
        temp,
        temp_view,
        conj_rhs,
        parallelism,
        lower,
        upper,
    );
    proof {
        let t1 = steps@;
        assert(lower.ensures(
            (lu_factors, lu_view, conj_lhs, t0, temp_view, conj_rhs, parallelism),
            t1,
        ));
        assert(upper.ensures(
            (lu_factors, lu_view, conj_lhs, t1, temp_view, Conj::No, parallelism),
            returned,
        ));
    }
    returned
}

/// Solves the system whose factors are `lu_factors` for the right-hand
/// side `rhs`, and writes the solution over it.
///
/// The two triangular solves are `lower` and `upper`. `scratch` holds at
/// least one element for each entry of the right-hand side, which is what
/// `solve_req` asks for; it is handed to the solves and comes back as the
/// result.
pub fn solve_in_place<
    L: Fn(&[u64], MatView, Conj, Vec<u64>, MatView, Conj, Parallelism) -> Vec<u64>,
    U: Fn(&[u64], MatView, Conj, Vec<u64>, MatView, Conj, Parallelism) -> Vec<u64>,
>(
    lu_factors: &[u64],
    lu_view: MatView,
    conj_lhs: Conj,
    row_perm: PermutationIndicesRef<'_>,
    col_perm: PermutationIndicesRef<'_>,
    rhs: &mut [u64],
    rhs_view: MatView,
    conj_rhs: Conj,
    parallelism: Parallelism,
    lower: &L,
    upper: &U,
    scratch: Vec<u64>,
) -> (returned: Vec<u64>)
    requires
        fits(
            lower,
            lu_factors,
            lu_view,
            packed(lu_view.ncols, rhs_view.ncols),
            scratch.len() as int,
        ),
        fits(
            upper,
            lu_factors,
            lu_view,
            packed(lu_view.ncols, rhs_view.ncols),
            scratch.len() as int,
        ),
        row_perm.wf(),
        col_perm.wf(),
        lu_view.nrows == lu_view.ncols,
        row_perm.forward().len() == lu_view.ncols,
        col_perm.forward().len() == lu_view.ncols,
        rhs_view.nrows == lu_view.ncols,
        rhs_view.wf(old(rhs).len() as int),
        solve_bytes(lu_view.nrows, rhs_view.ncols) <= usize::MAX,
        scratch.len() >= lu_view.nrows * rhs_view.ncols,
    ensures
        solved(
            lower,
            upper,
            lu_factors,
            lu_view,
            conj_lhs,
            row_perm.forward(),
            col_perm.inverse_array(),
            old(rhs)@,
            rhs_view,
            conj_rhs,
            parallelism,
            rhs_view,
            old(rhs)@,
            final(rhs)@,
            scratch,
            returned,
        ),
        returned.len() == scratch.len(),
{
    let n = lu_view.ncols;
    let k = rhs_view.ncols;
    if k == 0 {
        return scratch;
    }
    let mut temp = scratch;
    let temp_view = temp_view_of(n, k, Ghost(temp.len() as int));
    let (fwd, _) = row_perm.into_arrays();
    permute_rows(temp.as_mut_slice(), temp_view, rhs, rhs_view, fwd);
    let ghost t0 = temp;
    let (returned, steps) = solve_impl(
        lu_factors,
        lu_view,
        conj_lhs,
        col_perm,
        rhs,
        rhs_view,
        temp,
        temp_view,
        conj_rhs,
        parallelism,
        lower,
        upper,
    );
    proof {
        let t1 = steps@;
        assert(lower.ensures(
            (lu_factors, lu_view, conj_lhs, t0, temp_view, conj_rhs, parallelism),
            t1,
        ));
        assert(upper.ensures(
            (lu_factors, lu_view, conj_lhs, t1, temp_view, Conj::No, parallelism),
            returned,
        ));
    }
    returned
}

} // verus!
