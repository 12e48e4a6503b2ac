//! Scans of one contiguous column, lane by lane.
//!
//! A column is cut into vectors of `L` consecutive elements. A kernel keeps
//! several accumulators, each a vector of running maxima paired with a
//! vector of the positions where they were found, so that consecutive
//! vectors feed independent chains. What is left over at either end of the
//! column is scanned one element at a time. At the end the accumulators,
//! their lanes and the element-wise scan are folded into one pair. The
//! outcome does not depend on `L`.

use crate::cover::{
    best_over, folded, is_best_in_col, lane_cover, lanes_hold, lemma_best_over_agree,
    lemma_best_over_all, lemma_best_over_same, lemma_folded, lemma_lanes_agree,
    lemma_lanes_scanned, lemma_scanned, lemma_slot_below, lemma_slot_of, scanned, span,
};
use crate::scalar::{weigh, weight};
use vstd::arithmetic::div_mod::{lemma_fundamental_div_mod, lemma_mod_bound};
use vstd::prelude::*;

verus! {

/// One step of an element-wise scan: looks at `data`, found in position
/// `index`, and keeps it if its weight is strictly larger than `best_value`.
pub fn best_f64_scalar(best_value: u64, best_index: usize, data: u64, index: usize) -> (r: (
    u64,
    usize,
))
    ensures
        (r.0, r.1 as int) == scanned(best_value, best_index as int, data, index as int),
{
    let value = weigh(data);
    if value > best_value {
        (value, index)
    } else {
        (best_value, best_index)
    }
}

/// One step of a lane-wise scan: each lane looks at its element of `data`,
/// found in the position that `indices` gives for it, and keeps it if its
/// weight is strictly larger than what the lane holds.
pub fn best_f64<const L: usize>(
    best_value: [u64; L],
    best_indices: [usize; L],
    data: [u64; L],
    indices: [usize; L],
) -> (r: ([u64; L], [usize; L]))
    ensures
        forall|l: int|
            0 <= l < L ==> (#[trigger] r.0[l], r.1[l] as int) == scanned(
                best_value[l],
                best_indices[l] as int,
                data[l],
                indices[l] as int,
            ),
{
    let mut values = best_value;
    let mut found = best_indices;
    let mut l: usize = 0;
    while l < L
        invariant
            l <= L,
            forall|k: int|
                0 <= k < l ==> (#[trigger] values[k], found[k] as int) == scanned(
                    best_value[k],
                    best_indices[k] as int,
                    data[k],
                    indices[k] as int,
                ),
            forall|k: int| l <= k < L ==> values[k] == best_value[k] && found[k] == best_indices[k],
        decreases L - l,
    {
        let value = weigh(data[l]);
        if value > values[l] {
            values[l] = value;
            found[l] = indices[l];
        }
        l += 1;
    }
    (values, found)
}

/// Folds two accumulators into one, lane by lane: the larger value wins,
/// and of two equal values the one found first.
pub fn fold_f64<const L: usize>(
    best_value0: [u64; L],
    best_indices0: [usize; L],
    best_value1: [u64; L],
    best_indices1: [usize; L],
) -> (r: ([u64; L], [usize; L]))
    ensures
        forall|l: int|
            0 <= l < L ==> (#[trigger] r.0[l], r.1[l] as int) == folded(
                best_value0[l],
                best_indices0[l] as int,
                best_value1[l],
                best_indices1[l] as int,
            ),
{
    let mut values = best_value0;
    let mut found = best_indices0;
    let mut l: usize = 0;
    while l < L
        invariant
            l <= L,
            forall|k: int|
                0 <= k < l ==> (#[trigger] values[k], found[k] as int) == folded(
                    best_value0[k],
                    best_indices0[k] as int,
                    best_value1[k],
                    best_indices1[k] as int,
                ),
            forall|k: int|
                l <= k < L ==> values[k] == best_value0[k] && found[k] == best_indices0[k],
        decreases L - l,
    {
        if best_value1[l] > values[l] || (best_value1[l] == values[l] && best_indices1[l]
            < found[l]) {
            values[l] = best_value1[l];
            found[l] = best_indices1[l];
        }
        l += 1;
    }
    (values, found)
}

/// The vector of `L` elements of `data` that starts at `base`.
pub fn load<const L: usize>(data: &[u64], base: usize) -> (v: [u64; L])
    requires
        base + L <= data.len(),
    ensures
        forall|l: int| 0 <= l < L ==> #[trigger] v[l] == data[base + l],
{
    let mut v = [0u64; L];
    let mut l: usize = 0;
    while l < L
        invariant
            l <= L,
            base + L <= data.len(),
            forall|k: int| 0 <= k < l ==> #[trigger] v[k] == data[base + k],
        decreases L - l,
    {
        v[l] = data[base + l];
        l += 1;
    }
    v
}

/// The positions of the vector that starts at `base`: `iota` moved by `base`.
pub fn positions<const L: usize>(iota: [usize; L], base: usize) -> (v: [usize; L])
    requires
        base + L <= usize::MAX,
        forall|l: int| 0 <= l < L ==> iota[l] == l,
    ensures
        forall|l: int| 0 <= l < L ==> #[trigger] v[l] == base + l,
{
    let mut v = iota;
    let mut l: usize = 0;
    while l < L
        invariant
            l <= L,
            base + L <= usize::MAX,
            forall|k: int| 0 <= k < L ==> iota[k] == k,
            forall|k: int| 0 <= k < l ==> #[trigger] v[k] == base + k,
            forall|k: int| l <= k < L ==> v[k] == iota[k],
        decreases L - l,
    {
        v[l] = iota[l] + base;
        l += 1;
    }
    v
}

/// The vectors that accumulator `a` of `k` has seen after `t` rounds.
pub open spec fn every(k: int, a: int, t: int) -> Set<int> {
    Set::new(|q: int| 0 <= q < t * k && q % k == a)
}

/// Whole vectors lie inside the column.
pub proof fn lemma_vector_fits(n: int, lanes: int, q: int)
    requires
        0 < lanes,
        0 <= n,
        0 <= q < n / lanes,
    ensures
        0 <= q * lanes,
        (q + 1) * lanes <= n,
        q * lanes + lanes == (q + 1) * lanes,
{
    lemma_fundamental_div_mod(n, lanes);
    lemma_mod_bound(n, lanes);
    let h = n / lanes;
    assert(0 <= q * lanes && (q + 1) * lanes <= h * lanes && q * lanes + lanes == (q + 1) * lanes
        && lanes * h == h * lanes) by (nonlinear_arith)
        requires
            0 <= q < h,
            0 < lanes,
    ;
}

/// What is left after the whole vectors is less than one vector.
pub proof fn lemma_tail_short(n: int, lanes: int)
    requires
        0 < lanes,
        0 <= n,
    ensures
        0 <= (n / lanes) * lanes <= n,
        n - (n / lanes) * lanes < lanes,
        0 <= n / lanes,
{
    lemma_fundamental_div_mod(n, lanes);
    lemma_mod_bound(n, lanes);
    let h = n / lanes;
    assert(lanes * h == h * lanes) by (nonlinear_arith);
    vstd::arithmetic::div_mod::lemma_div_pos_is_pos(n, lanes);
}

/// Scans `data` and returns what is to be folded: one accumulator, holding
/// for each lane the outcome over the whole vectors, and the pair of the
/// element-wise scan over what follows them. Three accumulators take the
/// vectors in turn.
pub fn best_in_col_f64_generic<const L: usize>(iota: [usize; L], data: &[u64]) -> (r: (
    [u64; L],
    [usize; L],
    u64,
    usize,
))
    requires
        L > 0,
        forall|l: int| 0 <= l < L ==> iota[l] == l,
    ensures
        lanes_hold(data@, 0, L as int, span(0, data.len() as int / L as int), r.0@, r.1@),
        best_over(
            data@,
            span((data.len() as int / L as int) * L, data.len() as int),
            r.2,
            r.3 as int,
        ),
{
    let n = data.len();
    let head = n / L;
    let rounds = head / 3;
    let ghost col = data@;
    let ghost lanes = L as int;

    let mut best_value0 = [0u64; L];
    let mut best_value1 = [0u64; L];
    let mut best_value2 = [0u64; L];
    let mut best_indices0 = [0usize; L];
    let mut best_indices1 = [0usize; L];
    let mut best_indices2 = [0usize; L];

    let mut t: usize = 0;
    while t < rounds
        invariant
            L > 0,
            lanes == L,
            col == data@,
            n == data.len(),
            head == n / L,
            rounds == head / 3,
            t <= rounds,
            forall|l: int| 0 <= l < L ==> iota[l] == l,
            lanes_hold(col, 0, lanes, every(3, 0, t as int), best_value0@, best_indices0@),
            lanes_hold(col, 0, lanes, every(3, 1, t as int), best_value1@, best_indices1@),
            lanes_hold(col, 0, lanes, every(3, 2, t as int), best_value2@, best_indices2@),
        decreases rounds - t,
    {
        proof {
            lemma_vector_fits(n as int, lanes, 3 * t);
            lemma_vector_fits(n as int, lanes, 3 * t + 1);
            lemma_vector_fits(n as int, lanes, 3 * t + 2);
        }
        let q = 3 * t;
        let base0 = q * L;
        let base1 = base0 + L;
        let base2 = base1 + L;
        let d0 = load::<L>(data, base0);
        let d1 = load::<L>(data, base1);
        let d2 = load::<L>(data, base2);
        let indices0 = positions(iota, base0);
        let indices1 = positions(iota, base1);
        let indices2 = positions(iota, base2);
        let (v0, i0) = best_f64(best_value0, best_indices0, d0, indices0);
        let (v1, i1) = best_f64(best_value1, best_indices1, d1, indices1);
        let (v2, i2) = best_f64(best_value2, best_indices2, d2, indices2);
        proof {
            lemma_lanes_scanned(
                col,
                0,
                lanes,
                every(3, 0, t as int),
                best_value0@,
                best_indices0@,
                3 * t,
                every(3, 0, t + 1),
                v0@,
                i0@,
            );
            lemma_lanes_scanned(
                col,
                0,
                lanes,
                every(3, 1, t as int),
                best_value1@,
                best_indices1@,
                3 * t + 1,
                every(3, 1, t + 1),
                v1@,
                i1@,
            );
            lemma_lanes_scanned(
                col,
                0,
                lanes,
                every(3, 2, t as int),
                best_value2@,
                best_indices2@,
                3 * t + 2,
                every(3, 2, t + 1),
                v2@,
                i2@,
            );
        }
        best_value0 = v0;
        best_indices0 = i0;
        best_value1 = v1;
        best_indices1 = i1;
        best_value2 = v2;
        best_indices2 = i2;
        t += 1;
    }

    let (v01, i01) = fold_f64(best_value0, best_indices0, best_value1, best_indices1);
    let (v012, i012) = fold_f64(v01, i01, best_value2, best_indices2);
    proof {
        lemma_lanes_folded(
            col,
            0,
            lanes,
            every(3, 0, rounds as int),
            best_value0@,
            best_indices0@,
            every(3, 1, rounds as int),
            best_value1@,
            best_indices1@,
            every(3, 0, rounds as int).union(every(3, 1, rounds as int)),
            v01@,
            i01@,
        );
        lemma_lanes_folded(
            col,
            0,
            lanes,
            every(3, 0, rounds as int).union(every(3, 1, rounds as int)),
            v01@,
            i01@,
            every(3, 2, rounds as int),
            best_value2@,
            best_indices2@,
            span(0, 3 * rounds),
            v012@,
            i012@,
        );
    }
    best_value0 = v012;
    best_indices0 = i012;

    let mut q: usize = 3 * rounds;
    while q < head
        invariant
            L > 0,
            lanes == L,
            col == data@,
            n == data.len(),
            head == n / L,
            q <= head,
            forall|l: int| 0 <= l < L ==> iota[l] == l,
            lanes_hold(col, 0, lanes, span(0, q as int), best_value0@, best_indices0@),
        decreases head - q,
    {
        proof {
            lemma_vector_fits(n as int, lanes, q as int);
        }
        let base = q * L;
        let d = load::<L>(data, base);
        let indices = positions(iota, base);
        let (v, i) = best_f64(best_value0, best_indices0, d, indices);
        proof {
            lemma_lanes_scanned(
                col,
                0,
                lanes,
                span(0, q as int),
                best_value0@,
                best_indices0@,
                q as int,
                span(0, q + 1),
                v@,
                i@,
            );
        }
        best_value0 = v;
        best_indices0 = i;
        q += 1;
    }

    proof {
        lemma_tail_short(n as int, lanes);
    }
    let mut best_value_scalar: u64 = 0;
    let mut best_index_scalar: usize = 0;
    let mut index: usize = head * L;
    while index < n
        invariant
            col == data@,
            n == data.len(),
            head * L <= index <= n,
            best_over(col, span(head * L, index as int), best_value_scalar, best_index_scalar as int),
        decreases n - index,
    {
        let (v, i) = best_f64_scalar(best_value_scalar, best_index_scalar, data[index], index);
        proof {
            lemma_scanned(
                col,
                span(head * L, index as int),
                best_value_scalar,
                best_index_scalar as int,
                index as int,
                span(head * L, index + 1),
            );
        }
        best_value_scalar = v;
        best_index_scalar = i;
        index += 1;
    }

    (best_value0, best_indices0, best_value_scalar, best_index_scalar)
}

/// Folding two accumulators lane by lane gives, in each lane, the outcome
/// over the vectors that either has seen.
pub proof fn lemma_lanes_folded(
    col: Seq<u64>,
    p: int,
    lanes: int,
    vectors0: Set<int>,
    values0: Seq<u64>,
    indices0: Seq<usize>,
    vectors1: Set<int>,
    values1: Seq<u64>,
    indices1: Seq<usize>,
    both: Set<int>,
    values: Seq<u64>,
    indices: Seq<usize>,
)
    requires
        0 < lanes,
        lanes_hold(col, p, lanes, vectors0, values0, indices0),
        lanes_hold(col, p, lanes, vectors1, values1, indices1),
        forall|q: int| both.contains(q) <==> vectors0.contains(q) || vectors1.contains(q),
        values.len() == lanes,
        indices.len() == lanes,
        forall|l: int|
            0 <= l < lanes ==> (#[trigger] values[l], indices[l] as int) == folded(
                values0[l],
                indices0[l] as int,
                values1[l],
                indices1[l] as int,
            ),
    ensures
        lanes_hold(col, p, lanes, both, values, indices),
{
    assert forall|l: int| 0 <= l < lanes implies best_over(
        col,
        lane_cover(p, lanes, l, both),
        #[trigger] values[l],
        indices[l] as int,
    ) by {
        assert(best_over(col, lane_cover(p, lanes, l, vectors0), values0[l], indices0[l] as int));
        assert(best_over(col, lane_cover(p, lanes, l, vectors1), values1[l], indices1[l] as int));
        lemma_folded(
            col,
            lane_cover(p, lanes, l, vectors0),
            values0[l],
            indices0[l] as int,
            lane_cover(p, lanes, l, vectors1),
            values1[l],
            indices1[l] as int,
            lane_cover(p, lanes, l, both),
        );
    }
}

/// The pair that the element-wise scan and the first `upto` lanes of an
/// accumulator fold into, the scan first and then the lanes in order.
pub open spec fn reduced(v: u64, i: int, values: Seq<u64>, indices: Seq<usize>, upto: int) -> (
    u64,
    int,
)
    decreases upto,
{
    if upto <= 0 {
        (v, i)
    } else {
        let before = reduced(v, i, values, indices, upto - 1);
        folded(before.0, before.1, values[upto - 1], indices[upto - 1] as int)
    }
}

/// The positions of the first `h` vectors after a prefix of `p` that
/// belong to one of the first `upto` lanes.
pub open spec fn lanes_below(p: int, lanes: int, h: int, upto: int) -> Set<int> {
    Set::new(|j: int| p <= j < p + h * lanes && (j - p) % lanes < upto)
}

/// Folds the lanes of an accumulator and the pair of the element-wise scan
/// into one pair.
pub fn reduce<const L: usize>(
    best_value_scalar: u64,
    best_index_scalar: usize,
    best_value: &[u64; L],
    best_indices: &[usize; L],
) -> (r: (u64, usize))
    ensures
        (r.0, r.1 as int) == reduced(
            best_value_scalar,
            best_index_scalar as int,
            best_value@,
            best_indices@,
            L as int,
        ),
{
    let mut value = best_value_scalar;
    let mut index = best_index_scalar;
    let mut l: usize = 0;
    while l < L
        invariant
            l <= L,
            (value, index as int) == reduced(
                best_value_scalar,
                best_index_scalar as int,
                best_value@,
                best_indices@,
                l as int,
            ),
        decreases L - l,
    {
        if best_value[l] > value || (best_value[l] == value && best_indices[l] < index) {
            value = best_value[l];
            index = best_indices[l];
        }
        l += 1;
    }
    (value, index)
}

/// The fold of the element-wise scan with the first `upto` lanes is the
/// outcome over what the scan has seen and what those lanes have seen.
pub proof fn lemma_reduced(
    col: Seq<u64>,
    rest: Set<int>,
    p: int,
    lanes: int,
    h: int,
    v: u64,
    i: int,
    values: Seq<u64>,
    indices: Seq<usize>,
    upto: int,
)
    requires
        0 < lanes,
        0 <= h,
        0 <= upto <= lanes,
        best_over(col, rest, v, i),
        lanes_hold(col, p, lanes, span(0, h), values, indices),
    ensures
        best_over(
            col,
            rest.union(lanes_below(p, lanes, h, upto)),
            reduced(v, i, values, indices, upto).0,
            reduced(v, i, values, indices, upto).1,
        ),
    decreases upto,
{
    if upto == 0 {
        assert(rest.union(lanes_below(p, lanes, h, upto)) =~= rest) by {
            assert forall|j: int| !lanes_below(p, lanes, h, 0).contains(j) by {
                if p <= j {
                    lemma_slot_of(p, lanes, j);
                }
            }
        }
    } else {
        lemma_reduced(col, rest, p, lanes, h, v, i, values, indices, upto - 1);
        let before = reduced(v, i, values, indices, upto - 1);
        let l = upto - 1;
        let seen = rest.union(lanes_below(p, lanes, h, l));
        let lane = lane_cover(p, lanes, l, span(0, h));
        let all = rest.union(lanes_below(p, lanes, h, upto));
        assert(best_over(col, lane, values[l], indices[l] as int));
        assert forall|j: int| all.contains(j) <==> seen.contains(j) || lane.contains(j) by {
            if p <= j {
                lemma_slot_of(p, lanes, j);
                lemma_slot_below(p, lanes, j, h);
            }
        }
        lemma_folded(col, seen, before.0, before.1, lane, values[l], indices[l] as int, all);
    }
}

/// Once everything is folded, the pair names the best entry of the column:
/// the element-wise scan has seen the first `p` positions and those after
/// the whole vectors, the lanes everything between.
pub proof fn lemma_reduced_all(
    col: Seq<u64>,
    p: int,
    lanes: int,
    v: u64,
    i: int,
    values: Seq<u64>,
    indices: Seq<usize>,
)
    requires
        0 < lanes,
        0 <= p <= col.len(),
        lanes_hold(col, p, lanes, span(0, (col.len() - p) / lanes), values, indices),
        best_over(
            col,
            span(0, p).union(span(p + ((col.len() - p) / lanes) * lanes, col.len() as int)),
            v,
            i,
        ),
    ensures
        is_best_in_col(
            col,
            reduced(v, i, values, indices, lanes).0,
            reduced(v, i, values, indices, lanes).1,
        ),
{
    let n = col.len() as int;
    let h = (n - p) / lanes;
    lemma_tail_short(n - p, lanes);
    let rest = span(0, p).union(span(p + h * lanes, n));
    lemma_reduced(col, rest, p, lanes, h, v, i, values, indices, lanes);
    let all = rest.union(lanes_below(p, lanes, h, lanes));
    assert forall|j: int| all.contains(j) <==> 0 <= j < n by {
        if p <= j {
            lemma_slot_of(p, lanes, j);
        }
    }
    let r = reduced(v, i, values, indices, lanes);
    lemma_best_over_all(col, all, r.0, r.1);
}

/// The best entry of a column, scanned two lanes at a time.
pub fn best_in_col_f64x2(data: &[u64]) -> (r: (u64, usize))
    ensures
        is_best_in_col(data@, r.0, r.1 as int),
{
    let (best_value, best_indices, best_value_s, best_index_s) = best_in_col_f64_generic::<2>(
        [0, 1],
        data,
    );
    proof {
        lemma_scan_reduced(data@, 2, best_value_s, best_index_s as int, best_value@, best_indices@);
    }
    reduce(best_value_s, best_index_s, &best_value, &best_indices)
}

/// The best entry of a column, scanned four lanes at a time.
pub fn best_in_col_f64x4(data: &[u64]) -> (r: (u64, usize))
    ensures
        is_best_in_col(data@, r.0, r.1 as int),
{
    let (best_value, best_indices, best_value_s, best_index_s) = best_in_col_f64_generic::<4>(
        [0, 1, 2, 3],
        data,
    );
    proof {
        lemma_scan_reduced(data@, 4, best_value_s, best_index_s as int, best_value@, best_indices@);
    }
    reduce(best_value_s, best_index_s, &best_value, &best_indices)
}

/// The best entry of a column, scanned eight lanes at a time.
pub fn best_in_col_f64x8(data: &[u64]) -> (r: (u64, usize))
    ensures
        is_best_in_col(data@, r.0, r.1 as int),
{
    let (best_value, best_indices, best_value_s, best_index_s) = best_in_col_f64_generic::<8>(
        [0, 1, 2, 3, 4, 5, 6, 7],
        data,
    );
    proof {
        lemma_scan_reduced(data@, 8, best_value_s, best_index_s as int, best_value@, best_indices@);
    }
    reduce(best_value_s, best_index_s, &best_value, &best_indices)
}

/// The largest weight in `data` and the first position that has it, found
/// `lane_count` lanes at a time where that is 8, 4 or 2 and one element at a
/// time otherwise. The outcome is the same for every `lane_count`.
pub fn best_in_col_f64(lane_count: usize, data: &[u64]) -> (r: (u64, usize))
    ensures
        is_best_in_col(data@, r.0, r.1 as int),
{
    if lane_count == 8 {
        best_in_col_f64x8(data)
    } else if lane_count == 4 {
        best_in_col_f64x4(data)
    } else if lane_count == 2 {
        best_in_col_f64x2(data)
    } else {
        let (best_value, best_indices, best_value_s, best_index_s) = best_in_col_f64_generic::<1>(
            [0],
            data,
        );
        proof {
            lemma_scan_reduced(
                data@,
                1,
                best_value_s,
                best_index_s as int,
                best_value@,
                best_indices@,
            );
        }
        reduce(best_value_s, best_index_s, &best_value, &best_indices)
    }
}

/// What `best_in_col_f64_generic` returns folds into the best entry.
pub proof fn lemma_scan_reduced(
    col: Seq<u64>,
    lanes: int,
    v: u64,
    i: int,
    values: Seq<u64>,
    indices: Seq<usize>,
)
    requires
        0 < lanes,
        lanes_hold(col, 0, lanes, span(0, col.len() as int / lanes), values, indices),
        best_over(col, span((col.len() as int / lanes) * lanes, col.len() as int), v, i),
    ensures
        is_best_in_col(
            col,
            reduced(v, i, values, indices, lanes).0,
            reduced(v, i, values, indices, lanes).1,
        ),
{
    let n = col.len() as int;
    let h = n / lanes;
    lemma_best_over_same(
        col,
        span(h * lanes, n),
        span(0, 0).union(span(0 + h * lanes, n)),
        v,
        i,
    );
    lemma_reduced_all(col, 0, lanes, v, i, values, indices);
}

/// `after` is `before` with `lhs[i] * rhs` added to each element, as
/// `mul_add` computes it: element `i` of `after` is what `mul_add` has
/// returned for `(lhs[i], rhs, before[i])`.
pub open spec fn updated_col<F: Fn(u64, u64, u64) -> u64>(
    mul_add: &F,
    lhs: Seq<u64>,
    rhs: u64,
    before: Seq<u64>,
    after: Seq<u64>,
) -> bool {
    &&& after.len() == before.len()
    &&& forall|i: int|
        0 <= i < before.len() ==> mul_add.ensures((lhs[i], rhs, before[i]), #[trigger] after[i])
}

/// `mul_add` accepts every triple of patterns.
pub open spec fn total3<F: Fn(u64, u64, u64) -> u64>(mul_add: &F) -> bool {
    forall|x: u64, y: u64, z: u64| mul_add.requires((x, y, z))
}

/// `lhs * rhs + dst` in every lane.
pub fn mul_add_lanes<const L: usize, F: Fn(u64, u64, u64) -> u64>(
    mul_add: &F,
    lhs: [u64; L],
    rhs: u64,
    dst: [u64; L],
) -> (r: [u64; L])
    requires
        total3(mul_add),
    ensures
        forall|l: int| 0 <= l < L ==> mul_add.ensures((lhs[l], rhs, dst[l]), #[trigger] r[l]),
{
    let mut r = dst;
    let mut l: usize = 0;
    while l < L
        invariant
            l <= L,
            total3(mul_add),
            forall|k: int| 0 <= k < l ==> mul_add.ensures((lhs[k], rhs, dst[k]), #[trigger] r[k]),
            forall|k: int| l <= k < L ==> r[k] == dst[k],
        decreases L - l,
    {
        let x = mul_add(lhs[l], rhs, dst[l]);
        r[l] = x;
        l += 1;
    }
    r
}

/// Writes the vector `v` to `data` from `base` on.
pub fn store<const L: usize>(data: &mut [u64], base: usize, v: [u64; L])
    requires
        base + L <= old(data).len(),
    ensures
        final(data).len() == old(data).len(),
        forall|l: int| 0 <= l < L ==> #[trigger] final(data)[base + l] == v[l],
        forall|j: int|
            0 <= j < base || base + L <= j < old(data).len() ==> #[trigger] final(data)[j] == old(
                data,
            )[j],
{
    let mut l: usize = 0;
    while l < L
        invariant
            l <= L,
            base + L <= data.len(),
            data.len() == old(data).len(),
            forall|k: int| 0 <= k < l ==> #[trigger] data[base + k] == v[k],
            forall|j: int|
                0 <= j < base || base + l <= j < data.len() ==> #[trigger] data[j] == old(data)[j],
        decreases L - l,
    {
        data[base + l] = v[l];
        l += 1;
    }
}

/// The elements of `dst` before `frontier` are updated, the others are as
/// they were.
pub open spec fn updated_to<F: Fn(u64, u64, u64) -> u64>(
    mul_add: &F,
    lhs: Seq<u64>,
    rhs: u64,
    before: Seq<u64>,
    now: Seq<u64>,
    frontier: int,
) -> bool {
    &&& now.len() == before.len()
    &&& forall|i: int|
        0 <= i < frontier && i < before.len() ==> mul_add.ensures(
            (lhs[i], rhs, before[i]),
            #[trigger] now[i],
        )
    &&& forall|i: int| frontier <= i < before.len() ==> #[trigger] now[i] == before[i]
}

/// Adds `lhs[i] * rhs` to each `dst[i]`, scans the updated column in the
/// same sweep, and returns what is to be folded: one accumulator, holding
/// for each lane the outcome over the whole vectors, and the pair of the
/// element-wise scan over the rest. The first `offset` elements, or all if
/// there are fewer, are taken one at a time, then the whole vectors of what
/// follows, two accumulators taking them in turn, then what is left.
pub fn update_and_best_in_col_f64_generic<const L: usize, F: Fn(u64, u64, u64) -> u64>(
    mul_add: &F,
    iota: [usize; L],
    dst: &mut [u64],
    lhs: &[u64],
    rhs: u64,
    offset: usize,
) -> (r: ([u64; L], [usize; L], u64, usize))
    requires
        L > 0,
        forall|l: int| 0 <= l < L ==> iota[l] == l,
        total3(mul_add),
        lhs.len() == old(dst).len(),
    ensures
        updated_col(mul_add, lhs@, rhs, old(dst)@, final(dst)@),
        lanes_hold(
            final(dst)@,
            prefix_len(offset, old(dst).len()),
            L as int,
            span(0, (old(dst).len() - prefix_len(offset, old(dst).len())) / L as int),
            r.0@,
            r.1@,
        ),
        best_over(
            final(dst)@,
            span(0, prefix_len(offset, old(dst).len())).union(
                span(
                    prefix_len(offset, old(dst).len()) + ((old(dst).len() - prefix_len(
                        offset,
                        old(dst).len(),
                    )) / L as int) * L,
                    old(dst).len() as int,
                ),
            ),
            r.2,
            r.3 as int,
        ),
{
    let len = dst.len();
    let prefix = if offset < len {
        offset
    } else {
        len
    };
    let ghost lanes = L as int;
    let ghost before = dst@;
    let ghost p = prefix as int;

    let mut best_value_scalar: u64 = 0;
    let mut best_index_scalar: usize = 0;
    let mut index: usize = 0;
    while index < prefix
        invariant
            total3(mul_add),
            before == old(dst)@,
            len == before.len(),
            lhs.len() == len,
            prefix <= len,
            index <= prefix,
            updated_to(mul_add, lhs@, rhs, before, dst@, index as int),
            best_over(dst@, span(0, index as int), best_value_scalar, best_index_scalar as int),
        decreases prefix - index,
    {
        let ghost was = dst@;
        let new_dst = mul_add(lhs[index], rhs, dst[index]);
        dst[index] = new_dst;
        let (v, i) = best_f64_scalar(best_value_scalar, best_index_scalar, new_dst, index);
        proof {
            lemma_best_over_agree(
                was,
                dst@,
                span(0, index as int),
                best_value_scalar,
                best_index_scalar as int,
            );
            lemma_scanned(
                dst@,
                span(0, index as int),
                best_value_scalar,
                best_index_scalar as int,
                index as int,
                span(0, index + 1),
            );
        }
        best_value_scalar = v;
        best_index_scalar = i;
        index += 1;
    }

    let head = (len - prefix) / L;
    let rounds = head / 2;
    let mut best_value0 = [0u64; L];
    let mut best_value1 = [0u64; L];
    let mut best_indices0 = [0usize; L];
    let mut best_indices1 = [0usize; L];

    let mut t: usize = 0;
    proof {
        assert((2 * 0) * lanes == 0);
    }
    while t < rounds
        invariant
            L > 0,
            lanes == L,
            total3(mul_add),
            before == old(dst)@,
            len == before.len(),
            lhs.len() == len,
            p == prefix,
            prefix <= len,
            head == (len - prefix) / lanes,
            rounds == head / 2,
            t <= rounds,
            forall|l: int| 0 <= l < L ==> iota[l] == l,
            0 <= (2 * t) * lanes,
            p + (2 * t) * lanes <= len,
            updated_to(mul_add, lhs@, rhs, before, dst@, p + (2 * t) * lanes),
            best_over(dst@, span(0, p), best_value_scalar, best_index_scalar as int),
            lanes_hold(dst@, p, lanes, every(2, 0, t as int), best_value0@, best_indices0@),
            lanes_hold(dst@, p, lanes, every(2, 1, t as int), best_value1@, best_indices1@),
        decreases rounds - t,
    {
        proof {
            lemma_vector_fits(len - prefix, lanes, 2 * t);
            lemma_vector_fits(len - prefix, lanes, 2 * t + 1);
        }
        let ghost was = dst@;
        let q = 2 * t;
        let base0 = prefix + q * L;
        let base1 = base0 + L;
        let dst0 = load::<L>(dst, base0);
        let dst1 = load::<L>(dst, base1);
        let lhs0 = load::<L>(lhs, base0);
        let lhs1 = load::<L>(lhs, base1);
        let new_dst0 = mul_add_lanes(mul_add, lhs0, rhs, dst0);
        let new_dst1 = mul_add_lanes(mul_add, lhs1, rhs, dst1);
        store(dst, base0, new_dst0);
        store(dst, base1, new_dst1);
        let indices0 = positions(iota, base0);
        let indices1 = positions(iota, base1);
        let (v0, i0) = best_f64(best_value0, best_indices0, new_dst0, indices0);
        let (v1, i1) = best_f64(best_value1, best_indices1, new_dst1, indices1);
        proof {
            assert((2 * t + 2) * lanes == (2 * (t + 1)) * lanes) by (nonlinear_arith);
            assert((2 * t + 1) * lanes + lanes == (2 * t + 2) * lanes) by (nonlinear_arith);
            assert forall|i: int| 0 <= i < p + (2 * (t + 1)) * lanes && i < len implies mul_add.ensures(
                (lhs@[i], rhs, before[i]),
                #[trigger] dst@[i],
            ) by {
                if i < base0 {
                    assert(dst@[i] == was[i]);
                } else if i < base1 {
                    assert(dst@[i] == new_dst0[i - base0]);
                } else {
                    assert(dst@[i] == new_dst1[i - base1]);
                }
            }
            lemma_best_over_agree(
                was,
                dst@,
                span(0, p),
                best_value_scalar,
                best_index_scalar as int,
            );
            lemma_lanes_agree(
                was,
                dst@,
                p,
                lanes,
                every(2, 0, t as int),
                2 * t,
                best_value0@,
                best_indices0@,
            );
            lemma_lanes_agree(
                was,
                dst@,
                p,
                lanes,
                every(2, 1, t as int),
                2 * t,
                best_value1@,
                best_indices1@,
            );
            lemma_lanes_scanned(
                dst@,
                p,
                lanes,
                every(2, 0, t as int),
                best_value0@,
                best_indices0@,
                2 * t,
                every(2, 0, t + 1),
                v0@,
                i0@,
            );
            lemma_lanes_scanned(
                dst@,
                p,
                lanes,
                every(2, 1, t as int),
                best_value1@,
                best_indices1@,
                2 * t + 1,
                every(2, 1, t + 1),
                v1@,
                i1@,
            );
        }
        best_value0 = v0;
        best_indices0 = i0;
        best_value1 = v1;
        best_indices1 = i1;
        t += 1;
    }

    let (v01, i01) = fold_f64(best_value0, best_indices0, best_value1, best_indices1);
    proof {
        lemma_lanes_folded(
            dst@,
            p,
            lanes,
            every(2, 0, rounds as int),
            best_value0@,
            best_indices0@,
            every(2, 1, rounds as int),
            best_value1@,
            best_indices1@,
            span(0, 2 * rounds),
            v01@,
            i01@,
        );
    }
    best_value0 = v01;
    best_indices0 = i01;

    let mut q: usize = 2 * rounds;
    while q < head
        invariant
            L > 0,
            lanes == L,
            total3(mul_add),
            before == old(dst)@,
            len == before.len(),
            lhs.len() == len,
            p == prefix,
            prefix <= len,
            head == (len - prefix) / lanes,
            q <= head,
            forall|l: int| 0 <= l < L ==> iota[l] == l,
            0 <= q * lanes,
            p + q * lanes <= len,
            updated_to(mul_add, lhs@, rhs, before, dst@, p + q * lanes),
            best_over(dst@, span(0, p), best_value_scalar, best_index_scalar as int),
            lanes_hold(dst@, p, lanes, span(0, q as int), best_value0@, best_indices0@),
        decreases head - q,
    {
        proof {
            lemma_vector_fits(len - prefix, lanes, q as int);
        }
        let ghost was = dst@;
        let base = prefix + q * L;
        let dst0 = load::<L>(dst, base);
        let lhs0 = load::<L>(lhs, base);
        let new_dst = mul_add_lanes(mul_add, lhs0, rhs, dst0);
        store(dst, base, new_dst);
        let indices = positions(iota, base);
        let (v, i) = best_f64(best_value0, best_indices0, new_dst, indices);
        proof {
            assert forall|i: int| 0 <= i < p + (q + 1) * lanes && i < len implies mul_add.ensures(
                (lhs@[i], rhs, before[i]),
                #[trigger] dst@[i],
            ) by {
                if i < base {
                    assert(dst@[i] == was[i]);
                } else {
                    assert(dst@[i] == new_dst[i - base]);
                }
            }
            lemma_best_over_agree(
                was,
                dst@,
                span(0, p),
                best_value_scalar,
                best_index_scalar as int,
            );
            lemma_lanes_agree(
                was,
                dst@,
                p,
                lanes,
                span(0, q as int),
                q as int,
                best_value0@,
                best_indices0@,
            );
            lemma_lanes_scanned(
                dst@,
                p,
                lanes,
                span(0, q as int),
                best_value0@,
                best_indices0@,
                q as int,
                span(0, q + 1),
                v@,
                i@,
            );
        }
        best_value0 = v;
        best_indices0 = i;
        q += 1;
    }

    proof {
        lemma_tail_short(len - prefix, lanes);
    }
    let ghost body_end = p + head * lanes;
    index = prefix + head * L;
    while index < len
        invariant
            L > 0,
            lanes == L,
            total3(mul_add),
            before == old(dst)@,
            len == before.len(),
            lhs.len() == len,
            p == prefix,
            body_end == p + head * lanes,
            p <= body_end <= index <= len,
            updated_to(mul_add, lhs@, rhs, before, dst@, index as int),
            best_over(
                dst@,
                span(0, p).union(span(body_end, index as int)),
                best_value_scalar,
                best_index_scalar as int,
            ),
            lanes_hold(dst@, p, lanes, span(0, head as int), best_value0@, best_indices0@),
        decreases len - index,
    {
        let ghost was = dst@;
        let new_dst = mul_add(lhs[index], rhs, dst[index]);
        dst[index] = new_dst;
        let (v, i) = best_f64_scalar(best_value_scalar, best_index_scalar, new_dst, index);
        proof {
            lemma_best_over_agree(
                was,
                dst@,
                span(0, p).union(span(body_end, index as int)),
                best_value_scalar,
                best_index_scalar as int,
            );
            lemma_scanned(
                dst@,
                span(0, p).union(span(body_end, index as int)),
                best_value_scalar,
                best_index_scalar as int,
                index as int,
                span(0, p).union(span(body_end, index + 1)),
            );
            lemma_lanes_agree(
                was,
                dst@,
                p,
                lanes,
                span(0, head as int),
                head as int,
                best_value0@,
                best_indices0@,
            );
        }
        best_value_scalar = v;
        best_index_scalar = i;
        index += 1;
    }

    (best_value0, best_indices0, best_value_scalar, best_index_scalar)
}

/// The number of leading elements that a kernel takes one at a time.
pub open spec fn prefix_len(offset: usize, len: usize) -> int {
    if offset < len {
        offset as int
    } else {
        len as int
    }
}

/// Updates a column and finds its best entry, two lanes at a time.
pub fn update_and_best_in_col_f64x2<F: Fn(u64, u64, u64) -> u64>(
    mul_add: &F,
    dst: &mut [u64],
    lhs: &[u64],
    rhs: u64,
    offset: usize,
) -> (r: (u64, usize))
    requires
        total3(mul_add),
        lhs.len() == old(dst).len(),
    ensures
        updated_col(mul_add, lhs@, rhs, old(dst)@, final(dst)@),
        is_best_in_col(final(dst)@, r.0, r.1 as int),
{
    let (best_value, best_indices, best_value_s, best_index_s) =
        update_and_best_in_col_f64_generic::<2, F>(mul_add, [0, 1], dst, lhs, rhs, offset);
    proof {
        lemma_reduced_all(
            dst@,
            prefix_len(offset, dst.len()),
            2,
            best_value_s,
            best_index_s as int,
            best_value@,
            best_indices@,
        );
    }
    reduce(best_value_s, best_index_s, &best_value, &best_indices)
}

/// Updates a column and finds its best entry, four lanes at a time.
pub fn update_and_best_in_col_f64x4<F: Fn(u64, u64, u64) -> u64>(
    mul_add: &F,
    dst: &mut [u64],
    lhs: &[u64],
    rhs: u64,
    offset: usize,
) -> (r: (u64, usize))
    requires
        total3(mul_add),
        lhs.len() == old(dst).len(),
    ensures
        updated_col(mul_add, lhs@, rhs, old(dst)@, final(dst)@),
        is_best_in_col(final(dst)@, r.0, r.1 as int),
{
    let (best_value, best_indices, best_value_s, best_index_s) =
        update_and_best_in_col_f64_generic::<4, F>(mul_add, [0, 1, 2, 3], dst, lhs, rhs, offset);
    proof {
        lemma_reduced_all(
            dst@,
            prefix_len(offset, dst.len()),
            4,
            best_value_s,
            best_index_s as int,
            best_value@,
            best_indices@,
        );
    }
    reduce(best_value_s, best_index_s, &best_value, &best_indices)
}

/// Updates a column and finds its best entry, eight lanes at a time.
pub fn update_and_best_in_col_f64x8<F: Fn(u64, u64, u64) -> u64>(
    mul_add: &F,
    dst: &mut [u64],
    lhs: &[u64],
    rhs: u64,
    offset: usize,
) -> (r: (u64, usize))
    requires
        total3(mul_add),
        lhs.len() == old(dst).len(),
    ensures
        updated_col(mul_add, lhs@, rhs, old(dst)@, final(dst)@),
        is_best_in_col(final(dst)@, r.0, r.1 as int),
{
    let (best_value, best_indices, best_value_s, best_index_s) =
        update_and_best_in_col_f64_generic::<8, F>(mul_add, [0, 1, 2, 3, 4, 5, 6, 7], dst, lhs, rhs, offset);
    proof {
        lemma_reduced_all(
            dst@,
            prefix_len(offset, dst.len()),
            8,
            best_value_s,
            best_index_s as int,
            best_value@,
            best_indices@,
        );
    }
    reduce(best_value_s, best_index_s, &best_value, &best_indices)
}

/// Adds `lhs[i] * rhs` to each `dst[i]` and returns the largest weight in
/// the updated column with the first position that has it. The work is done
/// `lane_count` lanes at a time where that is 8, 4 or 2 and one element at a
/// time otherwise, after `offset` leading elements taken one at a time;
/// neither changes the outcome.
pub fn update_and_best_in_col_f64<F: Fn(u64, u64, u64) -> u64>(
    lane_count: usize,
    mul_add: &F,
    dst: &mut [u64],
    lhs: &[u64],
    rhs: u64,
    offset: usize,
) -> (r: (u64, usize))
    requires
        total3(mul_add),
        lhs.len() == old(dst).len(),
    ensures
        updated_col(mul_add, lhs@, rhs, old(dst)@, final(dst)@),
        is_best_in_col(final(dst)@, r.0, r.1 as int),
{
    if lane_count == 8 {
        update_and_best_in_col_f64x8(mul_add, dst, lhs, rhs, offset)
    } else if lane_count == 4 {
        update_and_best_in_col_f64x4(mul_add, dst, lhs, rhs, offset)
    } else if lane_count == 2 {
        update_and_best_in_col_f64x2(mul_add, dst, lhs, rhs, offset)
    } else {
        let (best_value, best_indices, best_value_s, best_index_s) =
            update_and_best_in_col_f64_generic::<1, F>(mul_add, [0], dst, lhs, rhs, offset);
        proof {
            lemma_reduced_all(
                dst@,
                prefix_len(offset, dst.len()),
                1,
                best_value_s,
                best_index_s as int,
                best_value@,
                best_indices@,
            );
        }
        reduce(best_value_s, best_index_s, &best_value, &best_indices)
    }
}

} // verus!
