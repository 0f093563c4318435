//! Topological primitives: the canonical simplex and its signed boundary.
//!
//! A simplex is an unordered set of vertices, represented canonically as a
//! strictly increasing sequence of vertex indices. The boundary operator
//! returns the codimension-1 faces with the alternating orientation signs
//! that make the chain-complex identity `boundary(boundary(s)) == 0` hold.

use vstd::prelude::*;

verus! {

/// The sequence is in canonical simplex order: strictly increasing, which
/// also rules out duplicates.
pub open spec fn strictly_increasing(s: Seq<usize>) -> bool {
    forall|i: int, j: int| 0 <= i < j < s.len() ==> s[i] < s[j]
}

/// Every adjacent pair of the sequence is non-decreasing.
pub open spec fn adjacent_sorted(s: Seq<usize>) -> bool {
    forall|k: int| 0 <= k && k + 1 < s.len() ==> #[trigger] s[k] <= s[k + 1]
}

/// Some vertex occurs at two different positions of the sequence.
pub open spec fn has_duplicate(s: Seq<usize>) -> bool {
    exists|i: int, j: int| 0 <= i < j < s.len() && s[i] == s[j]
}

/// No adjacent pair of the sequence is equal.
pub open spec fn no_adjacent_duplicate(s: Seq<usize>) -> bool {
    forall|k: int| 0 <= k && k + 1 < s.len() ==> #[trigger] s[k] != s[k + 1]
}

/// The vertex `v` occurs at two different positions of `s`.
pub open spec fn duplicated(s: Seq<usize>, v: usize) -> bool {
    exists|i: int, j: int| 0 <= i < j < s.len() && s[i] == v && s[j] == v
}

/// `v` is duplicated in `s`, and no smaller vertex is.
pub open spec fn least_duplicate(s: Seq<usize>, v: usize) -> bool {
    &&& duplicated(s, v)
    &&& forall|w: usize| w < v ==> !(#[trigger] duplicated(s, w))
}

/// Chained strict increase: if every adjacent pair between `i` and `j` is
/// strictly increasing, then `s[i] < s[j]`.
proof fn lemma_chain_lt(s: Seq<usize>, i: int, j: int)
    requires
        0 <= i < j < s.len(),
        forall|m: int| i <= m && m + 1 <= j ==> #[trigger] s[m] < s[m + 1],
    ensures
        s[i] < s[j],
    decreases j - i,
{
    if i + 1 < j {
        lemma_chain_lt(s, i, j - 1);
    }
}

/// Chained non-decrease: if every adjacent pair between `i` and `j` is
/// non-decreasing, then `s[i] <= s[j]`.
proof fn lemma_chain_le(s: Seq<usize>, i: int, j: int)
    requires
        0 <= i <= j < s.len(),
        forall|m: int| i <= m && m + 1 <= j ==> #[trigger] s[m] <= s[m + 1],
    ensures
        s[i] <= s[j],
    decreases j - i,
{
    if i < j {
        lemma_chain_le(s, i, j - 1);
    }
}

/// In a sorted sequence, adjacent distinctness is full strict increase.
proof fn lemma_sorted_adjacent_distinct_increasing(s: Seq<usize>)
    requires
        adjacent_sorted(s),
        no_adjacent_duplicate(s),
    ensures
        strictly_increasing(s),
{
    assert forall|i: int, j: int| 0 <= i < j < s.len() implies s[i] < s[j] by {
        assert forall|m: int| i <= m && m + 1 <= j implies #[trigger] s[m] < s[m + 1] by {
            assert(s[m] <= s[m + 1]);
            assert(s[m] != s[m + 1]);
        }
        lemma_chain_lt(s, i, j);
    }
}

/// In a sorted sequence, the value of the first equal adjacent pair is the
/// least duplicated vertex.
proof fn lemma_first_adjacent_dup_is_least(s: Seq<usize>, k: int)
    requires
        adjacent_sorted(s),
        0 <= k,
        k + 1 < s.len(),
        s[k] == s[k + 1],
        forall|m: int| 0 <= m < k ==> #[trigger] s[m] != s[m + 1],
    ensures
        least_duplicate(s, s[k]),
{
    assert(duplicated(s, s[k])) by {
        assert(0 <= k < k + 1 < s.len() && s[k] == s[k] && s[k + 1] == s[k]);
    }
    assert forall|w: usize| w < s[k] implies !(#[trigger] duplicated(s, w)) by {
        if duplicated(s, w) {
            let (i, j) = choose|i: int, j: int|
                0 <= i < j < s.len() && s[i] == w && s[j] == w;
            if j >= k {
                assert forall|m: int| k <= m && m + 1 <= j implies #[trigger] s[m] <= s[m
                    + 1] by {}
                lemma_chain_le(s, k, j);
                assert(false);
            } else {
                assert forall|m: int| i <= m && m + 1 <= j implies #[trigger] s[m] < s[m
                    + 1] by {
                    assert(s[m] <= s[m + 1]);
                    assert(s[m] != s[m + 1]);
                }
                lemma_chain_lt(s, i, j);
                assert(false);
            }
        }
    }
}

/// A vertex is duplicated exactly when its multiset count is at least two.
proof fn lemma_duplicated_iff_count(s: Seq<usize>, v: usize)
    ensures
        duplicated(s, v) <==> s.to_multiset().count(v) >= 2,
{
    broadcast use vstd::seq_lib::group_to_multiset_ensures;
    broadcast use vstd::multiset::group_multiset_axioms;

    if duplicated(s, v) {
        let (i, j) = choose|i: int, j: int| 0 <= i < j < s.len() && s[i] == v && s[j] == v;
        s.remove_ensures(j);
        assert(s.remove(j)[i] == v);
        assert(s.remove(j).contains(v));
        assert(s.remove(j).to_multiset().count(v) > 0);
        assert(s.contains(v));
        assert(s.remove(j).to_multiset() == s.to_multiset().remove(v));
    }
    if s.to_multiset().count(v) >= 2 {
        assert(s.contains(v));
        let i = choose|i: int| 0 <= i < s.len() && s[i] == v;
        s.remove_ensures(i);
        assert(s.remove(i).to_multiset() == s.to_multiset().remove(v));
        assert(s.remove(i).to_multiset().count(v) > 0);
        assert(s.remove(i).contains(v));
        let k = choose|k: int| 0 <= k < s.remove(i).len() && s.remove(i)[k] == v;
        if k < i {
            assert(s[k] == v && s[i] == v && 0 <= k < i < s.len());
        } else {
            assert(s[k + 1] == v && s[i] == v && 0 <= i < k + 1 < s.len());
        }
    }
}

/// Sequences with the same multiset of vertices duplicate the same vertices.
proof fn lemma_same_multiset_same_duplicates(a: Seq<usize>, b: Seq<usize>)
    requires
        a.to_multiset() == b.to_multiset(),
    ensures
        has_duplicate(a) <==> has_duplicate(b),
        forall|v: usize|
            #![trigger duplicated(a, v)]
            #![trigger duplicated(b, v)]
            duplicated(a, v) <==> duplicated(b, v),
{
    assert forall|v: usize|
        #![trigger duplicated(a, v)]
        #![trigger duplicated(b, v)]
        duplicated(a, v) <==> duplicated(b, v) by {
        lemma_duplicated_iff_count(a, v);
        lemma_duplicated_iff_count(b, v);
    }
    if has_duplicate(a) {
        let (i, j) = choose|i: int, j: int| 0 <= i < j < a.len() && a[i] == a[j];
        assert(duplicated(a, a[i]));
        assert(duplicated(b, a[i]));
        let (i2, j2) = choose|i2: int, j2: int|
            0 <= i2 < j2 < b.len() && b[i2] == a[i] && b[j2] == a[i];
        assert(has_duplicate(b));
    }
    if has_duplicate(b) {
        let (i, j) = choose|i: int, j: int| 0 <= i < j < b.len() && b[i] == b[j];
        assert(duplicated(b, b[i]));
        assert(duplicated(a, b[i]));
        let (i2, j2) = choose|i2: int, j2: int|
            0 <= i2 < j2 < a.len() && a[i2] == b[i] && a[j2] == b[i];
        assert(has_duplicate(a));
    }
}

/// A strictly increasing sequence has no duplicated vertex.
proof fn lemma_strictly_increasing_no_duplicate(s: Seq<usize>)
    requires
        strictly_increasing(s),
    ensures
        !has_duplicate(s),
{
    if has_duplicate(s) {
        let (i, j) = choose|i: int, j: int| 0 <= i < j < s.len() && s[i] == s[j];
        assert(s[i] < s[j]);
    }
}

/// Insert a vertex into a sorted vector, keeping it sorted.
fn insert_sorted(out: &mut Vec<usize>, x: usize)
    requires
        adjacent_sorted(old(out)@),
    ensures
        adjacent_sorted(final(out)@),
        final(out)@.to_multiset() == old(out)@.to_multiset().insert(x),
        final(out)@.len() == old(out)@.len() + 1,
{
    let n = out.len();
    let mut j: usize = 0;
    while j < n && out[j] < x
        invariant
            out@ == old(out)@,
            n == out@.len(),
            0 <= j <= n,
            forall|m: int| 0 <= m < j ==> #[trigger] out@[m] < x,
        decreases n - j,
    {
        j = j + 1;
    }
    proof {
        old(out)@.insert_ensures(j as int, x);
        broadcast use vstd::seq_lib::to_multiset_insert;

    }
    out.insert(j, x);
    proof {
        assert forall|k: int| 0 <= k && k + 1 < out@.len() implies #[trigger] out@[k] <= out@[k
            + 1] by {
            if k + 1 < j {
                assert(out@[k] == old(out)@[k] && out@[k + 1] == old(out)@[k + 1]);
            } else if k + 1 == j {
                assert(out@[k] == old(out)@[k] && out@[k + 1] == x);
            } else if k == j {
                assert(out@[k] == x && out@[k + 1] == old(out)@[k]);
            } else {
                assert(out@[k] == old(out)@[k - 1] && out@[k + 1] == old(out)@[k]);
            }
        }
    }
}

/// The canonical form is unique, so construction is permutation-invariant:
/// if `a` and `b` hold the same vertices (as multisets, so in any order),
/// then any strictly increasing sequences `va` and `vb` holding those same
/// vertices are one and the same sequence. With the contract of
/// `Simplex::new_canonical`, two simplices built from permutations of the
/// same distinct vertex set therefore carry equal vertex sequences and are
/// structurally equal.
pub proof fn lemma_canonical_form_unique(a: Seq<usize>, b: Seq<usize>, va: Seq<usize>, vb: Seq<
    usize,
>)
    requires
        a.to_multiset() == b.to_multiset(),
        strictly_increasing(va),
        va.to_multiset() == a.to_multiset(),
        strictly_increasing(vb),
        vb.to_multiset() == b.to_multiset(),
    ensures
        va == vb,
{
    let leq = |x: usize, y: usize| x <= y;
    assert(vstd::relations::total_ordering(leq));
    assert(vstd::relations::sorted_by(va, leq));
    assert(vstd::relations::sorted_by(vb, leq));
    vstd::seq_lib::lemma_sorted_unique(va, vb, leq);
    assert(va =~= vb);
}

/// The orientation sign (-1)^i carried by the face obtained by deleting the
/// vertex at position `i`.
pub open spec fn boundary_sign(i: int) -> int {
    if i % 2 == 0 {
        1
    } else {
        -1
    }
}

/// One face of the double boundary of `s`: the vertex at position `i` is
/// deleted first, then the vertex at position `j` of what remains.
pub open spec fn double_face(s: Seq<usize>, i: int, j: int) -> Seq<usize> {
    s.remove(i).remove(j)
}

/// The signed contribution of the deletion pair `(i, j)` to the coefficient
/// of the candidate face `f` in the double boundary of `s`.
pub open spec fn double_term(s: Seq<usize>, f: Seq<usize>, i: int, j: int) -> int {
    if double_face(s, i, j) == f {
        boundary_sign(i) * boundary_sign(j)
    } else {
        0
    }
}

/// The contribution enumerated at flat index `k`, running over all deletion
/// pairs: the first boundary face index is `k / (len - 1)`, the second
/// `k % (len - 1)`.
pub open spec fn double_term_at(s: Seq<usize>, f: Seq<usize>, k: int) -> int {
    double_term(s, f, k / (s.len() - 1), k % (s.len() - 1))
}

/// The sum of the first `k` contributions of the flat enumeration.
pub open spec fn double_sum_upto(s: Seq<usize>, f: Seq<usize>, k: int) -> int
    decreases k,
{
    if k <= 0 {
        0
    } else {
        double_sum_upto(s, f, k - 1) + double_term_at(s, f, k - 1)
    }
}

/// The net signed coefficient of the face `f` in the double boundary of
/// `s`, summed over every deletion pair.
pub open spec fn double_boundary_coeff(s: Seq<usize>, f: Seq<usize>) -> int {
    double_sum_upto(s, f, s.len() * (s.len() - 1))
}

/// Deleting position `p` then position `q - 1` leaves the same sequence as
/// deleting position `q` then position `p`, for `p < q`.
proof fn lemma_remove_remove_swap(s: Seq<usize>, p: int, q: int)
    requires
        0 <= p < q < s.len(),
    ensures
        s.remove(p).remove(q - 1) == s.remove(q).remove(p),
{
    let a = s.remove(p);
    let b = s.remove(q);
    s.remove_ensures(p);
    s.remove_ensures(q);
    a.remove_ensures(q - 1);
    b.remove_ensures(p);
    assert forall|k: int| 0 <= k < a.remove(q - 1).len() implies a.remove(q - 1)[k] == b.remove(
        p,
    )[k] by {
        if k < p {
            assert(a.remove(q - 1)[k] == a[k] && a[k] == s[k]);
            assert(b.remove(p)[k] == b[k] && b[k] == s[k]);
        } else if k < q - 1 {
            assert(a.remove(q - 1)[k] == a[k] && a[k] == s[k + 1]);
            assert(b.remove(p)[k] == b[k + 1] && b[k + 1] == s[k + 1]);
        } else {
            assert(a.remove(q - 1)[k] == a[k + 1] && a[k + 1] == s[k + 2]);
            assert(b.remove(p)[k] == b[k + 1] && b[k + 1] == s[k + 2]);
        }
    }
    assert(a.remove(q - 1) =~= b.remove(p));
}

/// Every deletion pair `(i, j)` deletes the original positions
/// `p = min(i, j or j + 1)` and `q = max(i, j + 1 or i)`; its face is the
/// one deleted in ascending position order, `remove(p)` then
/// `remove(q - 1)`.
proof fn lemma_double_face_normal(s: Seq<usize>, i: int, j: int)
    requires
        0 <= i < s.len(),
        0 <= j < s.len() - 1,
    ensures
        ({
            let p = if j < i {
                j
            } else {
                i
            };
            let q = if j < i {
                i
            } else {
                j + 1
            };
            0 <= p < q < s.len() && double_face(s, i, j) == s.remove(p).remove(q - 1)
        }),
{
    if j < i {
        lemma_remove_remove_swap(s, j, i);
    }
}

/// How the face deleted in ascending order indexes into the original
/// sequence.
proof fn lemma_double_remove_index(s: Seq<usize>, p: int, q: int)
    requires
        0 <= p < q < s.len(),
    ensures
        s.remove(p).remove(q - 1).len() == s.len() - 2,
        forall|k: int| 0 <= k < p ==> #[trigger] s.remove(p).remove(q - 1)[k] == s[k],
        forall|k: int| p <= k < q - 1 ==> #[trigger] s.remove(p).remove(q - 1)[k] == s[k + 1],
        forall|k: int|
            q - 1 <= k < s.len() - 2 ==> #[trigger] s.remove(p).remove(q - 1)[k] == s[k + 2],
{
    let a = s.remove(p);
    s.remove_ensures(p);
    a.remove_ensures(q - 1);
    assert forall|k: int| 0 <= k < p implies #[trigger] s.remove(p).remove(q - 1)[k] == s[k] by {
        assert(a.remove(q - 1)[k] == a[k] && a[k] == s[k]);
    }
    assert forall|k: int| p <= k < q - 1 implies #[trigger] s.remove(p).remove(q - 1)[k] == s[k
        + 1] by {
        assert(a.remove(q - 1)[k] == a[k] && a[k] == s[k + 1]);
    }
    assert forall|k: int| q - 1 <= k < s.len() - 2 implies #[trigger] s.remove(p).remove(q - 1)[k]
        == s[k + 2] by {
        assert(a.remove(q - 1)[k] == a[k + 1] && a[k + 1] == s[k + 2]);
    }
}

/// Over a sequence of distinct vertices, a double-boundary face determines
/// which two original positions were deleted.
proof fn lemma_removed_pair_unique(s: Seq<usize>, p1: int, q1: int, p2: int, q2: int)
    requires
        strictly_increasing(s),
        0 <= p1 < q1 < s.len(),
        0 <= p2 < q2 < s.len(),
        s.remove(p1).remove(q1 - 1) == s.remove(p2).remove(q2 - 1),
    ensures
        p1 == p2,
        q1 == q2,
{
    lemma_double_remove_index(s, p1, q1);
    lemma_double_remove_index(s, p2, q2);
    let u = s.remove(p1).remove(q1 - 1);
    if p1 < p2 {
        assert(u[p1] == s[p1]);
        assert(u[p1] == s[p1 + 1] || u[p1] == s[p1 + 2]);
        assert(false);
    }
    if p2 < p1 {
        assert(u[p2] == s[p2]);
        assert(u[p2] == s[p2 + 1] || u[p2] == s[p2 + 2]);
        assert(false);
    }
    if q1 < q2 {
        assert(u[q1 - 1] == s[q1 + 1]);
        assert(u[q1 - 1] == s[q1]);
        assert(false);
    }
    if q2 < q1 {
        assert(u[q2 - 1] == s[q2 + 1]);
        assert(u[q2 - 1] == s[q2]);
        assert(false);
    }
}

/// Adjacent deletion positions carry opposite signs.
proof fn lemma_sign_flip(q: int)
    requires
        q >= 1,
    ensures
        boundary_sign(q - 1) == -boundary_sign(q),
{
}

/// If every enumerated contribution except possibly two vanishes, the sum
/// is the sum of those two.
proof fn lemma_sum_two_nonzero(s: Seq<usize>, f: Seq<usize>, k: int, k1: int, k2: int)
    requires
        k1 < k2,
        forall|m: int| 0 <= m < k && m != k1 && m != k2 ==> #[trigger] double_term_at(s, f, m)
            == 0,
    ensures
        double_sum_upto(s, f, k) == (if 0 <= k1 < k {
            double_term_at(s, f, k1)
        } else {
            0
        }) + (if 0 <= k2 < k {
            double_term_at(s, f, k2)
        } else {
            0
        }),
    decreases k,
{
    if k > 0 {
        lemma_sum_two_nonzero(s, f, k - 1, k1, k2);
    }
}

/// Decompose a flat index into its deletion pair.
proof fn lemma_grid_decompose(m: int, d: int, n: int)
    requires
        d >= 1,
        0 <= m < n * d,
    ensures
        0 <= m % d < d,
        0 <= m / d < n,
        m == (m / d) * d + (m % d),
{
    vstd::arithmetic::div_mod::lemma_fundamental_div_mod(m, d);
    vstd::arithmetic::div_mod::lemma_div_pos_is_pos(m, d);
    vstd::arithmetic::div_mod::lemma_mod_bound(m, d);
    if m / d >= n {
        assert(m >= n * d) by (nonlinear_arith)
            requires
                m == d * (m / d) + (m % d),
                m / d >= n,
                d >= 1,
                m % d >= 0,
        {}
    }
}

/// The chain-complex identity: the boundary of the boundary is the zero
/// chain. For any simplex of dimension at least 2 — a strictly increasing
/// vertex sequence `s` of length at least 3 — and any candidate face `f`,
/// the signed contributions of all deletion pairs sum to a net coefficient
/// of zero. The first deletion and its sign are what `Simplex::boundary`
/// returns for the simplex; the second are what a face's own `boundary`
/// returns, with the signs multiplied.
pub proof fn lemma_double_boundary_zero(s: Seq<usize>, f: Seq<usize>)
    requires
        strictly_increasing(s),
        s.len() >= 3,
    ensures
        double_boundary_coeff(s, f) == 0,
{
    let n = s.len() as int;
    let d = n - 1;
    let total = n * d;
    if exists|i: int, j: int|
        0 <= i < n && 0 <= j < d && #[trigger] double_face(s, i, j) == f {
        let (i0, j0) = choose|i0: int, j0: int|
            0 <= i0 < n && 0 <= j0 < d && #[trigger] double_face(s, i0, j0) == f;
        let p = if j0 < i0 {
            j0
        } else {
            i0
        };
        let q = if j0 < i0 {
            i0
        } else {
            j0 + 1
        };
        lemma_double_face_normal(s, i0, j0);
        assert(f == s.remove(p).remove(q - 1));
        let ka = p * d + (q - 1);
        let kb = q * d + p;
        assert(0 <= ka < total && 0 <= kb < total && ka < kb) by (nonlinear_arith)
            requires
                0 <= p < q <= n - 1,
                d == n - 1,
                d >= 2,
                total == n * d,
                ka == p * d + (q - 1),
                kb == q * d + p,
        {}
        vstd::arithmetic::div_mod::lemma_fundamental_div_mod_converse(ka, d, p, q - 1);
        vstd::arithmetic::div_mod::lemma_fundamental_div_mod_converse(kb, d, q, p);
        lemma_double_face_normal(s, q, p);
        assert(double_term_at(s, f, ka) == boundary_sign(p) * boundary_sign(q - 1));
        assert(double_term_at(s, f, kb) == boundary_sign(q) * boundary_sign(p));
        lemma_sign_flip(q);
        assert(boundary_sign(p) * boundary_sign(q - 1) + boundary_sign(q) * boundary_sign(p)
            == 0) by (nonlinear_arith)
            requires
                boundary_sign(q - 1) == -boundary_sign(q),
        {}
        assert(double_term_at(s, f, ka) + double_term_at(s, f, kb) == 0);
        assert forall|m: int|
            0 <= m < total && m != ka && m != kb implies #[trigger] double_term_at(s, f, m)
            == 0 by {
            lemma_grid_decompose(m, d, n);
            let im = m / d;
            let jm = m % d;
            if double_face(s, im, jm) == f {
                lemma_double_face_normal(s, im, jm);
                let pm = if jm < im {
                    jm
                } else {
                    im
                };
                let qm = if jm < im {
                    im
                } else {
                    jm + 1
                };
                lemma_removed_pair_unique(s, pm, qm, p, q);
                assert(false);
            }
        }
        lemma_sum_two_nonzero(s, f, total, ka, kb);
    } else {
        assert forall|m: int|
            0 <= m < total && m != total && m != total + 1 implies #[trigger] double_term_at(
            s,
            f,
            m,
        ) == 0 by {
            lemma_grid_decompose(m, d, n);
        }
        lemma_sum_two_nonzero(s, f, total, total, total + 1);
    }
}

/// Deleting one vertex of a strictly increasing sequence keeps it strictly
/// increasing.
proof fn lemma_remove_preserves_increasing(s: Seq<usize>, i: int)
    requires
        strictly_increasing(s),
        0 <= i < s.len(),
    ensures
        strictly_increasing(s.remove(i)),
{
    s.remove_ensures(i);
    assert forall|a: int, b: int| 0 <= a < b < s.remove(i).len() implies s.remove(i)[a] < s.remove(
        i,
    )[b] by {
        if b < i {
            assert(s.remove(i)[a] == s[a] && s.remove(i)[b] == s[b]);
        } else if a < i {
            assert(s.remove(i)[a] == s[a] && s.remove(i)[b] == s[b + 1]);
        } else {
            assert(s.remove(i)[a] == s[a + 1] && s.remove(i)[b] == s[b + 1]);
        }
    }
}

/// A simplex of dimension k, held as its k + 1 distinct vertex indices in
/// strictly increasing order.
#[derive(Clone, Debug, Eq, Hash, PartialOrd, Ord)]
pub struct Simplex {
    vertices: Vec<usize>,
}

/// Why a vertex sequence was rejected by a simplex constructor.
#[derive(Clone, Debug, PartialEq, Eq, Structural)]
pub enum SimplexError {
    /// The input held no vertices; there is no empty simplex.
    Empty,
    /// The named vertex occurs more than once in the input.
    DuplicateVertex(usize),
}

impl PartialEq for Simplex {
    fn eq(&self, other: &Simplex) -> (r: bool) {
        if self.vertices.len() != other.vertices.len() {
            return false;
        }
        let n = self.vertices.len();
        let mut i: usize = 0;
        while i < n
            invariant
                n == self@.len(),
                n == other@.len(),
                0 <= i <= n,
                forall|k: int| 0 <= k < i ==> self@[k] == other@[k],
            decreases n - i,
        {
            if self.vertices[i] != other.vertices[i] {
                return false;
            }
            i = i + 1;
        }
        proof {
            assert(self@ =~= other@);
        }
        true
    }
}

impl vstd::std_specs::cmp::PartialEqSpecImpl for Simplex {
    open spec fn obeys_eq_spec() -> bool {
        true
    }

    open spec fn eq_spec(&self, other: &Simplex) -> bool {
        self@ == other@
    }
}

impl View for Simplex {
    type V = Seq<usize>;

    closed spec fn view(&self) -> Seq<usize> {
        self.vertices@
    }
}

impl Simplex {
    /// The invariant every constructed simplex satisfies: at least one
    /// vertex, stored in strictly increasing order.
    pub open spec fn wf(&self) -> bool {
        self@.len() >= 1 && strictly_increasing(self@)
    }

    /// The vertices of the simplex, in strictly increasing order.
    pub fn vertices(&self) -> (r: &[usize])
        ensures
            r@ == self@,
    {
        self.vertices.as_slice()
    }

    /// Construct a simplex from a vertex list the caller keeps sorted.
    ///
    /// The input must already be in non-decreasing order; equal adjacent
    /// vertices are rejected as duplicates, so success means the input was
    /// strictly increasing and is stored unmodified.
    pub fn new_checked(vertices: Vec<usize>) -> (r: Result<Simplex, SimplexError>)
        requires
            adjacent_sorted(vertices@),
        ensures
            r == Err::<Simplex, SimplexError>(SimplexError::Empty) <==> vertices@.len() == 0,
            r is Ok <==> vertices@.len() > 0 && no_adjacent_duplicate(vertices@),
            r matches Ok(s) ==> s@ == vertices@ && s.wf(),
            r matches Err(SimplexError::DuplicateVertex(v)) ==> least_duplicate(vertices@, v),
    {
        if vertices.len() == 0 {
            return Err(SimplexError::Empty);
        }
        let n = vertices.len();
        let mut k: usize = 0;
        while k + 1 < n
            invariant
                n == vertices@.len(),
                n >= 1,
                0 <= k < n,
                adjacent_sorted(vertices@),
                forall|m: int| 0 <= m < k ==> #[trigger] vertices@[m] != vertices@[m + 1],
            decreases n - k,
        {
            if vertices[k] == vertices[k + 1] {
                proof {
                    lemma_first_adjacent_dup_is_least(vertices@, k as int);
                }
                return Err(SimplexError::DuplicateVertex(vertices[k]));
            }
            k = k + 1;
        }
        proof {
            lemma_sorted_adjacent_distinct_increasing(vertices@);
        }
        Ok(Simplex { vertices })
    }

    /// Construct a simplex from an arbitrary vertex list.
    ///
    /// The vertices are sorted into canonical order; a duplicated vertex is
    /// rejected, never collapsed, and the reported duplicate is the smallest
    /// vertex that occurs more than once.
    pub fn new_canonical(vertices: Vec<usize>) -> (r: Result<Simplex, SimplexError>)
        ensures
            r == Err::<Simplex, SimplexError>(SimplexError::Empty) <==> vertices@.len() == 0,
            r is Ok <==> vertices@.len() > 0 && !has_duplicate(vertices@),
            r matches Ok(s) ==> s.wf() && s@.to_multiset() == vertices@.to_multiset()
                && s@.len() == vertices@.len(),
            r matches Err(SimplexError::DuplicateVertex(v)) ==> least_duplicate(vertices@, v),
    {
        if vertices.len() == 0 {
            return Err(SimplexError::Empty);
        }
        let n = vertices.len();
        let mut sorted_vertices: Vec<usize> = Vec::new();
        proof {
            broadcast use vstd::seq_lib::group_to_multiset_ensures;

            assert(vertices@.subrange(0, 0) =~= Seq::<usize>::empty());
            assert(sorted_vertices@.to_multiset() =~= vertices@.subrange(0, 0).to_multiset());
        }
        let mut i: usize = 0;
        while i < n
            invariant
                n == vertices@.len(),
                0 <= i <= n,
                adjacent_sorted(sorted_vertices@),
                sorted_vertices@.len() == i,
                sorted_vertices@.to_multiset() == vertices@.subrange(0, i as int).to_multiset(),
            decreases n - i,
        {
            let x = vertices[i];
            insert_sorted(&mut sorted_vertices, x);
            proof {
                broadcast use vstd::seq_lib::group_to_multiset_ensures;

                assert(vertices@.subrange(0, i + 1) =~= vertices@.subrange(0, i as int).push(x));
            }
            i = i + 1;
        }
        let ghost sv = sorted_vertices@;
        proof {
            broadcast use vstd::seq_lib::group_to_multiset_ensures;

            assert(vertices@.subrange(0, n as int) =~= vertices@);
            lemma_same_multiset_same_duplicates(sv, vertices@);
        }
        let result = Self::new_checked(sorted_vertices);
        proof {
            if no_adjacent_duplicate(sv) {
                lemma_sorted_adjacent_distinct_increasing(sv);
                lemma_strictly_increasing_no_duplicate(sv);
            } else {
                let k = choose|k: int| 0 <= k && k + 1 < sv.len() && !(#[trigger] sv[k] != sv[k
                    + 1]);
                assert(0 <= k < k + 1 < sv.len() && sv[k] == sv[k] && sv[k + 1] == sv[k]);
                assert(duplicated(sv, sv[k]));
                assert(has_duplicate(sv));
            }
        }
        result
    }

    /// The dimension of the simplex: one less than its vertex count.
    pub fn dim(&self) -> (d: usize)
        requires
            self.wf(),
        ensures
            d == self@.len() - 1,
    {
        self.vertices.len() - 1
    }

    /// The signed codimension-1 faces of the simplex: for each position `i`,
    /// the face with the vertex at position `i` deleted, carrying the sign
    /// (-1)^i, in order of the deleted position. A single vertex has an
    /// empty boundary.
    pub fn boundary(&self) -> (r: Vec<(i32, Simplex)>)
        requires
            self.wf(),
        ensures
            self@.len() == 1 ==> r@.len() == 0,
            self@.len() >= 2 ==> r@.len() == self@.len(),
            forall|i: int| 0 <= i < r@.len() ==> (#[trigger] r@[i]).1@ == self@.remove(i),
            forall|i: int| 0 <= i < r@.len() ==> (#[trigger] r@[i]).0 as int == boundary_sign(i),
            forall|i: int| 0 <= i < r@.len() ==> (#[trigger] r@[i]).1.wf(),
    {
        let n = self.vertices.len();
        if n <= 1 {
            return Vec::new();
        }
        let mut out: Vec<(i32, Simplex)> = Vec::new();
        let mut i: usize = 0;
        while i < n
            invariant
                n == self@.len(),
                n >= 2,
                self.wf(),
                0 <= i <= n,
                out@.len() == i,
                forall|k: int| 0 <= k < i ==> (#[trigger] out@[k]).1@ == self@.remove(k),
                forall|k: int| 0 <= k < i ==> (#[trigger] out@[k]).0 as int == boundary_sign(k),
                forall|k: int| 0 <= k < i ==> (#[trigger] out@[k]).1.wf(),
            decreases n - i,
        {
            let mut face_vertices = self.vertices.clone();
            proof {
                assert forall|k: int| 0 <= k < self@.len() implies face_vertices@[k]
                    == self@[k] by {
                    assert(cloned::<usize>(self.vertices[k], face_vertices[k]));
                }
                assert(face_vertices@ =~= self@);
            }
            face_vertices.remove(i);
            proof {
                lemma_remove_preserves_increasing(self@, i as int);
            }
            let sign: i32 = if i % 2 == 0 {
                1
            } else {
                -1
            };
            out.push((sign, Simplex { vertices: face_vertices }));
            i = i + 1;
        }
        out
    }
}

} // verus!
