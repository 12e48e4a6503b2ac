//! Permutations as arrays of indices, and how a sequence of exchanges
//! composes into one.

use vstd::prelude::*;

verus! {

/// The arrangement of `0, 1, ..` that the first `upto` exchanges of `t`
/// make: exchange `i` swaps the entries in places `i` and `t[i]`.
pub open spec fn composed(t: Seq<usize>, upto: int) -> Seq<usize>
    decreases upto,
{
    if upto <= 0 {
        Seq::new(t.len(), |i: int| i as usize)
    } else {
        let p = composed(t, upto - 1);
        p.update(upto - 1, p[t[upto - 1] as int]).update(t[upto - 1] as int, p[upto - 1])
    }
}

/// `p` and `q` are permutations of `0 .. len`, each the inverse of the
/// other.
pub open spec fn mutually_inverse(p: Seq<usize>, q: Seq<usize>) -> bool {
    &&& p.len() == q.len()
    &&& forall|i: int| 0 <= i < p.len() ==> 0 <= #[trigger] p[i] < p.len() && q[p[i] as int] == i
    &&& forall|j: int| 0 <= j < q.len() ==> 0 <= #[trigger] q[j] < q.len() && p[q[j] as int] == j
}

/// Whether `j` is an entry of `p`.
pub open spec fn occurs(p: Seq<usize>, j: int) -> bool {
    exists|i: int| 0 <= i < p.len() && #[trigger] p[i] == j
}

/// An array with an inverse takes every index exactly once.
pub proof fn lemma_bijection(p: Seq<usize>, q: Seq<usize>)
    requires
        mutually_inverse(p, q),
    ensures
        forall|i: int, j: int|
            0 <= i < p.len() && 0 <= j < p.len() && #[trigger] p[i] == #[trigger] p[j] ==> i == j,
        forall|j: int| 0 <= j < p.len() ==> #[trigger] occurs(p, j),
{
    assert forall|i: int, j: int|
        0 <= i < p.len() && 0 <= j < p.len() && #[trigger] p[i] == #[trigger] p[j] implies i
        == j by {
        assert(q[p[i] as int] == i);
        assert(q[p[j] as int] == j);
    }
    assert forall|j: int| 0 <= j < p.len() implies #[trigger] occurs(p, j) by {
        let i = q[j] as int;
        assert(p[i] == j);
    }
}

/// Exchanges that leave every index in place compose to the identity.
pub proof fn lemma_composed_identity(t: Seq<usize>, upto: int)
    requires
        upto <= t.len(),
        forall|i: int| 0 <= i < upto ==> t[i] == i,
    ensures
        composed(t, upto) == Seq::new(t.len(), |i: int| i as usize),
    decreases upto,
{
    if upto > 0 {
        lemma_composed_identity(t, upto - 1);
        assert(composed(t, upto) =~= composed(t, upto - 1));
    }
}

/// Turns a sequence of exchanges into the permutation that they compose,
/// `perm`, and its inverse, `perm_inv`: starting from the identity, step
/// `i` swaps the entries of `perm` in places `i` and `transpositions[i]`.
pub fn permutation_from_transpositions(
    transpositions: &[usize],
    perm: &mut [usize],
    perm_inv: &mut [usize],
)
    requires
        old(perm).len() == transpositions.len(),
        old(perm_inv).len() == transpositions.len(),
        forall|i: int| 0 <= i < transpositions.len() ==> transpositions[i] < transpositions.len(),
    ensures
        final(perm)@ == composed(transpositions@, transpositions.len() as int),
        mutually_inverse(final(perm)@, final(perm_inv)@),
{
    let n = transpositions.len();
    let ghost t = transpositions@;
    let mut i: usize = 0;
    while i < n
        invariant
            n == t.len(),
            perm.len() == n,
            i <= n,
            forall|k: int| 0 <= k < i ==> #[trigger] perm[k] == k,
        decreases n - i,
    {
        perm[i] = i;
        i += 1;
    }
    proof {
        assert(perm@ =~= composed(t, 0));
    }
    let ghost mut inverse: Seq<usize> = perm@;
    i = 0;
    while i < n
        invariant
            t == transpositions@,
            n == t.len(),
            perm.len() == n,
            i <= n,
            forall|k: int| 0 <= k < n ==> #[trigger] t[k] < n,
            perm@ == composed(t, i as int),
            mutually_inverse(perm@, inverse),
        decreases n - i,
    {
        let j = transpositions[i];
        let a = perm[i];
        let b = perm[j];
        let ghost was = perm@;
        perm[i] = b;
        perm[j] = a;
        proof {
            assert(t[i as int] < n);
            assert(perm@ =~= was.update(i as int, was[j as int]).update(j as int, was[i as int]));
            let old_inverse = inverse;
            inverse = old_inverse.update(b as int, i).update(a as int, j);
            assert(old_inverse[a as int] == i);
            assert(old_inverse[b as int] == j);
            assert forall|k: int| 0 <= k < n implies 0 <= #[trigger] perm@[k] < n && inverse[perm@[k] as int]
                == k by {
                assert(0 <= was[k] < n && old_inverse[was[k] as int] == k);
            }
            assert forall|k: int| 0 <= k < n implies 0 <= #[trigger] inverse[k] < n && perm@[inverse[k] as int]
                == k by {
                assert(0 <= old_inverse[k] < n && was[old_inverse[k] as int] == k);
            }
        }
        i += 1;
    }
    i = 0;
    while i < n
        invariant
            n == t.len(),
            perm.len() == n,
            perm_inv.len() == n,
            i <= n,
            mutually_inverse(perm@, inverse),
            forall|k: int| 0 <= k < i ==> #[trigger] perm_inv[perm[k] as int] == k,
        decreases n - i,
    {
        let p = perm[i];
        let ghost was = perm_inv@;
        perm_inv[p] = i;
        proof {
            assert forall|k: int| 0 <= k < i + 1 implies #[trigger] perm_inv[perm[k] as int] == k by {
                if k < i {
                    assert(inverse[perm@[k] as int] == k);
                    assert(inverse[perm@[i as int] as int] == i);
                    assert(was[perm[k] as int] == k);
                }
            }
        }
        i += 1;
    }
    proof {
        assert forall|j: int| 0 <= j < n implies perm_inv@[j] == inverse[j] by {
            let k = inverse[j] as int;
            assert(perm@[k] == j);
            assert(perm_inv[perm[k] as int] == k);
        }
        assert(perm_inv@ =~= inverse);
    }
}

/// A permutation and its inverse, as two borrowed arrays.
#[derive(Clone, Copy, Debug)]
pub struct PermutationIndicesRef<'a> {
    forward: &'a [usize],
    inverse: &'a [usize],
}

impl<'a> PermutationIndicesRef<'a> {
    /// The forward array.
    pub closed spec fn forward(self) -> Seq<usize> {
        self.forward@
    }

    /// The inverse array.
    pub closed spec fn inverse_array(self) -> Seq<usize> {
        self.inverse@
    }

    /// The two arrays are permutations, each the inverse of the other.
    pub open spec fn wf(self) -> bool {
        mutually_inverse(self.forward(), self.inverse_array())
    }

    /// The pair of `forward` and `inverse`, if each is the inverse of the
    /// other.
    pub fn new_checked(forward: &'a [usize], inverse: &'a [usize]) -> (r: Option<Self>)
        ensures
            r.is_some() <==> mutually_inverse(forward@, inverse@),
            r matches Some(p) ==> p.forward() == forward@ && p.inverse_array() == inverse@,
    {
        let n = forward.len();
        if inverse.len() != n {
            return None;
        }
        let mut i: usize = 0;
        while i < n
            invariant
                n == forward.len(),
                n == inverse.len(),
                i <= n,
                forall|k: int|
                    0 <= k < i ==> 0 <= #[trigger] forward[k] < n && inverse[forward[k] as int] == k,
                forall|k: int|
                    0 <= k < i ==> 0 <= #[trigger] inverse[k] < n && forward[inverse[k] as int] == k,
            decreases n - i,
        {
            let f = forward[i];
            let g = inverse[i];
            if f >= n || g >= n {
                return None;
            }
            if inverse[f] != i || forward[g] != i {
                return None;
            }
            i += 1;
        }
        Some(PermutationIndicesRef { forward, inverse })
    }

    /// The pair of `forward` and `inverse`, each known to be the inverse of
    /// the other.
    pub fn new(forward: &'a [usize], inverse: &'a [usize]) -> (r: Self)
        requires
            mutually_inverse(forward@, inverse@),
        ensures
            r.wf(),
            r.forward() == forward@,
            r.inverse_array() == inverse@,
    {
        PermutationIndicesRef { forward, inverse }
    }

    /// The number of indices that are permuted.
    pub fn len(&self) -> (n: usize)
        ensures
            n == self.forward().len(),
    {
        self.forward.len()
    }

    /// The forward and the inverse array.
    pub fn into_arrays(self) -> (r: (&'a [usize], &'a [usize]))
        ensures
            r.0@ == self.forward(),
            r.1@ == self.inverse_array(),
    {
        (self.forward, self.inverse)
    }

    /// The inverse permutation: the two arrays in exchanged roles.
    pub fn inverse(self) -> (r: Self)
        ensures
            r.forward() == self.inverse_array(),
            r.inverse_array() == self.forward(),
            self.wf() ==> r.wf(),
    {
        PermutationIndicesRef { forward: self.inverse, inverse: self.forward }
    }
}

/// One more exchange puts in each place what the exchanged place held.
pub proof fn lemma_composed_step(t: Seq<usize>, upto: int, j: int)
    requires
        0 <= upto < t.len(),
        forall|i: int| 0 <= i <= upto ==> t[i] < t.len(),
        0 <= j < t.len(),
    ensures
        composed(t, upto).len() == t.len(),
        composed(t, upto + 1).len() == t.len(),
        composed(t, upto + 1)[j] == composed(t, upto)[if j == upto {
            t[upto] as int
        } else if j == t[upto] {
            upto
        } else {
            j
        }],
    decreases upto,
{
    if upto > 0 {
        lemma_composed_step(t, upto - 1, j);
    }
}

/// Exchanges past `from` that leave every index in place change nothing.
pub proof fn lemma_composed_rest(t: Seq<usize>, from: int, upto: int)
    requires
        0 <= from <= upto <= t.len(),
        forall|i: int| 0 <= i < from ==> t[i] < t.len(),
        forall|i: int| from <= i < upto ==> t[i] == i,
    ensures
        composed(t, upto) == composed(t, from),
    decreases upto - from,
{
    if upto > from {
        lemma_composed_rest(t, from, upto - 1);
        if upto - 1 > 0 {
            lemma_composed_step(t, upto - 2, 0);
        }
        assert(composed(t, upto) =~= composed(t, upto - 1));
    }
}

/// Exchanges that never reach back leave the first place to the first
/// exchange: the composed permutation starts with `t[0]`.
pub proof fn lemma_composed_first(t: Seq<usize>, upto: int)
    requires
        1 <= upto <= t.len(),
        forall|i: int| 0 <= i < upto ==> i <= #[trigger] t[i] < t.len(),
    ensures
        composed(t, upto)[0] == t[0],
    decreases upto,
{
    if upto > 1 {
        lemma_composed_first(t, upto - 1);
        lemma_composed_step(t, upto - 1, 0);
    } else {
        lemma_composed_step(t, 0, 0);
    }
}

} // verus!
