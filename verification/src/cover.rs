//! What a running maximum knows: the theory behind the column scans.
//!
//! A scan keeps a pair `(value, index)` and visits positions of a column in
//! some order, several such pairs at once when it works lane by lane. The
//! predicate `best_over` says what a pair is worth after it has seen a given
//! set of positions; the lemmas say how visiting one more position, or
//! folding two pairs into one, changes that set.

use crate::scalar::{lemma_weight_bounded, weight};
use vstd::arithmetic::div_mod::*;
use vstd::prelude::*;

verus! {

/// The pair `(v, i)` is the outcome of scanning the positions in `s` of
/// `col`, starting from `(0, 0)`: `v` is the largest weight there, and `i`
/// is the first position that has it, or 0 while no positive weight was seen.
pub open spec fn best_over(col: Seq<u64>, s: Set<int>, v: u64, i: int) -> bool {
    &&& forall|j: int| s.contains(j) ==> weight(#[trigger] col[j]) <= v
    &&& forall|j: int| s.contains(j) && j < i ==> weight(#[trigger] col[j]) < v
    &&& if v == 0 {
        i == 0
    } else {
        s.contains(i) && weight(col[i]) == v
    }
}

/// The pair `(v, i)` names the largest weight in `col` and the first
/// position that has it; on an empty column it is `(0, 0)`.
pub open spec fn is_best_in_col(col: Seq<u64>, v: u64, i: int) -> bool {
    if col.len() == 0 {
        v == 0 && i == 0
    } else {
        &&& 0 <= i < col.len()
        &&& weight(col[i]) == v
        &&& forall|j: int| 0 <= j < col.len() ==> weight(#[trigger] col[j]) <= v
        &&& forall|j: int| 0 <= j < i ==> weight(#[trigger] col[j]) < v
    }
}

/// The positions from `lo` up to, not including, `hi`.
pub open spec fn span(lo: int, hi: int) -> Set<int> {
    Set::new(|i: int| lo <= i < hi)
}

/// The pair after a scan that held `(v, i)` has looked at `x` in position
/// `k`: a strictly larger weight replaces the pair.
pub open spec fn scanned(v: u64, i: int, x: u64, k: int) -> (u64, int) {
    if weight(x) > v {
        (weight(x), k)
    } else {
        (v, i)
    }
}

/// The better of two pairs: the larger value, and among equal values the
/// smaller index.
pub open spec fn folded(v0: u64, i0: int, v1: u64, i1: int) -> (u64, int) {
    if v1 > v0 || (v1 == v0 && i1 < i0) {
        (v1, i1)
    } else {
        (v0, i0)
    }
}

/// A pair that has seen every position of a column names its best entry.
pub proof fn lemma_best_over_all(col: Seq<u64>, s: Set<int>, v: u64, i: int)
    requires
        best_over(col, s, v, i),
        forall|j: int| s.contains(j) <==> 0 <= j < col.len(),
    ensures
        is_best_in_col(col, v, i),
{
    if col.len() > 0 && v == 0 {
        assert(s.contains(0));
        assert(weight(col[0]) <= v);
    }
}

/// What a pair is worth depends only on which positions it has seen.
pub proof fn lemma_best_over_same(col: Seq<u64>, s: Set<int>, t: Set<int>, v: u64, i: int)
    requires
        best_over(col, s, v, i),
        forall|j: int| s.contains(j) <==> t.contains(j),
    ensures
        best_over(col, t, v, i),
{
}

/// A scan that moves forward may compare with a strict `>`: looking at a
/// position beyond all those seen keeps the first of equal weights.
pub proof fn lemma_scanned(col: Seq<u64>, s: Set<int>, v: u64, i: int, k: int, t: Set<int>)
    requires
        best_over(col, s, v, i),
        forall|j: int| s.contains(j) ==> j < k,
        0 <= k,
        forall|j: int| t.contains(j) <==> s.contains(j) || j == k,
    ensures
        best_over(col, t, scanned(v, i, col[k], k).0, scanned(v, i, col[k], k).1),
{
    lemma_weight_bounded(col[k]);
}

/// Folding two pairs gives the pair of a scan over both sets of positions.
pub proof fn lemma_folded(
    col: Seq<u64>,
    state_a: Set<int>,
    v0: u64,
    i0: int,
    state_b: Set<int>,
    v1: u64,
    i1: int,
    t: Set<int>,
)
    requires
        best_over(col, state_a, v0, i0),
        best_over(col, state_b, v1, i1),
        forall|j: int| t.contains(j) <==> state_a.contains(j) || state_b.contains(j),
    ensures
        best_over(col, t, folded(v0, i0, v1, i1).0, folded(v0, i0, v1, i1).1),
{
}

/// Position of lane `l` of the `q`-th vector of `lanes` elements after a
/// prefix of `p` elements.
pub open spec fn slot(p: int, lanes: int, q: int, l: int) -> int {
    p + q * lanes + l
}

/// The positions that lane `l` has seen once the vectors in `vectors` went by.
pub open spec fn lane_cover(p: int, lanes: int, l: int, vectors: Set<int>) -> Set<int> {
    Set::new(|i: int| p <= i && (i - p) % lanes == l && vectors.contains((i - p) / lanes))
}

/// A slot is the one position of its lane in its vector.
pub proof fn lemma_slot(p: int, lanes: int, q: int, l: int, i: int)
    requires
        0 < lanes,
        0 <= l < lanes,
        0 <= q,
    ensures
        i == slot(p, lanes, q, l) <==> p <= i && (i - p) % lanes == l && (i - p) / lanes == q,
        p + q * lanes <= slot(p, lanes, q, l) < p + (q + 1) * lanes,
{
    assert(q * lanes >= 0 && (q + 1) * lanes == q * lanes + lanes) by (nonlinear_arith)
        requires
            0 <= q,
            0 < lanes,
    ;
    if i == slot(p, lanes, q, l) {
        lemma_fundamental_div_mod_converse(i - p, lanes, q, l);
    }
    if p <= i && (i - p) % lanes == l && (i - p) / lanes == q {
        lemma_fundamental_div_mod(i - p, lanes);
        assert(lanes * q == q * lanes) by (nonlinear_arith);
    }
}

/// Slots of earlier vectors come first.
pub proof fn lemma_slot_order(p: int, lanes: int, q0: int, l0: int, q1: int, l1: int)
    requires
        0 < lanes,
        0 <= l0 < lanes,
        0 <= l1 < lanes,
        q0 < q1,
    ensures
        slot(p, lanes, q0, l0) < slot(p, lanes, q1, l1),
{
    assert(q0 * lanes + lanes <= q1 * lanes) by (nonlinear_arith)
        requires
            q0 < q1,
            0 < lanes,
    ;
}

/// Every position from `p` on lies in exactly one slot.
pub proof fn lemma_slot_of(p: int, lanes: int, i: int)
    requires
        0 < lanes,
        p <= i,
    ensures
        0 <= (i - p) % lanes < lanes,
        0 <= (i - p) / lanes,
        i == slot(p, lanes, (i - p) / lanes, (i - p) % lanes),
{
    lemma_fundamental_div_mod(i - p, lanes);
    lemma_mod_bound(i - p, lanes);
    lemma_div_pos_is_pos(i - p, lanes);
    let q = (i - p) / lanes;
    assert(lanes * q == q * lanes) by (nonlinear_arith);
}

/// A position lies in one of the first `h` vectors exactly if it comes
/// before the end of the `h`-th.
pub proof fn lemma_slot_below(p: int, lanes: int, i: int, h: int)
    requires
        0 < lanes,
        p <= i,
        0 <= h,
    ensures
        (i - p) / lanes < h <==> i < p + h * lanes,
{
    lemma_slot_of(p, lanes, i);
    let q = (i - p) / lanes;
    if q < h {
        assert(q * lanes + lanes <= h * lanes) by (nonlinear_arith)
            requires
                q < h,
                0 < lanes,
        ;
    } else {
        assert(h * lanes <= q * lanes) by (nonlinear_arith)
            requires
                h <= q,
                0 < lanes,
        ;
    }
}

/// One value and one index for each lane, each the outcome of that lane's
/// scan over the vectors in `vectors`.
pub open spec fn lanes_hold(
    col: Seq<u64>,
    p: int,
    lanes: int,
    vectors: Set<int>,
    values: Seq<u64>,
    indices: Seq<usize>,
) -> bool {
    &&& values.len() == lanes
    &&& indices.len() == lanes
    &&& forall|l: int|
        0 <= l < lanes ==> best_over(
            col,
            lane_cover(p, lanes, l, vectors),
            #[trigger] values[l],
            indices[l] as int,
        )
}

/// The lanes after the vector `q` went by, each lane having looked at its
/// slot with a strict `>`.
pub proof fn lemma_lanes_scanned(
    col: Seq<u64>,
    p: int,
    lanes: int,
    vectors: Set<int>,
    values: Seq<u64>,
    indices: Seq<usize>,
    q: int,
    after: Set<int>,
    new_values: Seq<u64>,
    new_indices: Seq<usize>,
)
    requires
        0 < lanes,
        0 <= p,
        0 <= q,
        p + (q + 1) * lanes <= col.len(),
        lanes_hold(col, p, lanes, vectors, values, indices),
        forall|r: int| vectors.contains(r) ==> 0 <= r < q,
        forall|r: int| after.contains(r) <==> vectors.contains(r) || r == q,
        new_values.len() == lanes,
        new_indices.len() == lanes,
        forall|l: int|
            0 <= l < lanes ==> (#[trigger] new_values[l], new_indices[l] as int) == scanned(
                values[l],
                indices[l] as int,
                col[slot(p, lanes, q, l)],
                slot(p, lanes, q, l),
            ),
    ensures
        lanes_hold(col, p, lanes, after, new_values, new_indices),
{
    assert forall|l: int| 0 <= l < lanes implies best_over(
        col,
        lane_cover(p, lanes, l, after),
        #[trigger] new_values[l],
        new_indices[l] as int,
    ) by {
        let s = lane_cover(p, lanes, l, vectors);
        let t = lane_cover(p, lanes, l, after);
        let k = slot(p, lanes, q, l);
        assert(best_over(col, s, values[l], indices[l] as int));
        assert forall|j: int| t.contains(j) <==> s.contains(j) || j == k by {
            lemma_slot(p, lanes, q, l, j);
        }
        assert forall|j: int| s.contains(j) implies j < k by {
            lemma_slot_of(p, lanes, j);
            lemma_slot_order(p, lanes, (j - p) / lanes, (j - p) % lanes, q, l);
        }
        lemma_slot(p, lanes, q, l, k);
        lemma_scanned(col, s, values[l], indices[l] as int, k, t);
    }
}

/// What a pair is worth depends only on the elements it has seen.
pub proof fn lemma_best_over_agree(col0: Seq<u64>, col1: Seq<u64>, s: Set<int>, v: u64, i: int)
    requires
        best_over(col0, s, v, i),
        forall|j: int| s.contains(j) ==> col0[j] == col1[j],
    ensures
        best_over(col1, s, v, i),
{
    assert forall|j: int| s.contains(j) implies weight(#[trigger] col1[j]) <= v by {
        assert(weight(col0[j]) <= v);
    }
    assert forall|j: int| s.contains(j) && j < i implies weight(#[trigger] col1[j]) < v by {
        assert(weight(col0[j]) < v);
    }
}

/// Lanes that have seen only vectors before the `q`-th are not touched by
/// a change from the `q`-th vector on.
pub proof fn lemma_lanes_agree(
    col0: Seq<u64>,
    col1: Seq<u64>,
    p: int,
    lanes: int,
    vectors: Set<int>,
    q: int,
    values: Seq<u64>,
    indices: Seq<usize>,
)
    requires
        0 < lanes,
        0 <= q,
        lanes_hold(col0, p, lanes, vectors, values, indices),
        forall|r: int| vectors.contains(r) ==> 0 <= r < q,
        forall|j: int| p <= j < p + q * lanes ==> col0[j] == col1[j],
    ensures
        lanes_hold(col1, p, lanes, vectors, values, indices),
{
    assert forall|l: int| 0 <= l < lanes implies best_over(
        col1,
        lane_cover(p, lanes, l, vectors),
        #[trigger] values[l],
        indices[l] as int,
    ) by {
        let s = lane_cover(p, lanes, l, vectors);
        assert(best_over(col0, s, values[l], indices[l] as int));
        assert forall|j: int| s.contains(j) implies col0[j] == col1[j] by {
            lemma_slot_below(p, lanes, j, q);
        }
        lemma_best_over_agree(col0, col1, s, values[l], indices[l] as int);
    }
}

/// The best entry of a column is determined by the column: two scans that
/// both return it return the same value and the same position, whatever
/// their lane counts and however many leading elements each took one at a
/// time.
pub proof fn lemma_best_in_col_unique(col: Seq<u64>, v0: u64, i0: int, v1: u64, i1: int)
    requires
        is_best_in_col(col, v0, i0),
        is_best_in_col(col, v1, i1),
    ensures
        v0 == v1,
        i0 == i1,
{
    if col.len() > 0 {
        assert(weight(col[i0]) <= v1);
        assert(weight(col[i1]) <= v0);
        if i0 < i1 {
            assert(weight(col[i0]) < v1);
        }
        if i1 < i0 {
            assert(weight(col[i1]) < v0);
        }
    }
}

} // verus!
