//! Ranking the positions of a sequence by ascending value.
//!
//! The ranking is a stable merge sort of the positions `0..N`. A comparison
//! that has no answer stops it: the sequence is then unsortable.

use crate::order::{
    at_most, coherent, faithful, has_unrelated_pair, has_unrelated_value,
    lemma_precedes_asymmetric, lemma_precedes_transitive, mirrored, precedes, relate, relation,
    Relation,
};
use vstd::multiset::group_multiset_axioms;
use vstd::prelude::*;
use vstd::seq_lib::{group_to_multiset_ensures, lemma_multiset_commutative};

verus! {

/// The sequence cannot be ranked: it is empty, or some comparison of two of
/// its values has no answer.
#[derive(Debug)]
#[non_exhaustive]
pub struct Unsortable;

/// `r` lists each of the positions `0..n` exactly once.
pub open spec fn is_permutation(r: Seq<usize>, n: nat) -> bool {
    &&& r.len() == n
    &&& forall|i: int| 0 <= i < r.len() ==> #[trigger] r[i] < n
    &&& forall|i: int, j: int| 0 <= i < j < r.len() ==> r[i] != r[j]
    &&& forall|p: usize| p < n ==> #[trigger] r.contains(p)
}

/// The values of `s`, read in the order `r`, never go down.
pub open spec fn ascending<T: PartialOrd>(s: Seq<T>, r: Seq<usize>) -> bool {
    forall|i: int, j: int|
        0 <= i < j < r.len() ==> at_most(s[#[trigger] r[i] as int], s[#[trigger] r[j] as int])
}

/// Positions of equal value stand in `r` in the order of the positions.
pub open spec fn stable<T: PartialOrd>(s: Seq<T>, r: Seq<usize>) -> bool {
    forall|i: int, j: int|
        0 <= i < j < r.len() && relation(s[#[trigger] r[i] as int], s[#[trigger] r[j] as int])
            == Relation::Same ==> r[i] < r[j]
}

/// `r` is the ranking of `s`: its positions by ascending value, ties in the
/// order of the positions.
pub open spec fn is_ranking<T: PartialOrd>(s: Seq<T>, r: Seq<usize>) -> bool {
    &&& is_permutation(r, s.len())
    &&& ascending(s, r)
    &&& stable(s, r)
}

/// Each entry of `r` precedes all later ones. This says in one clause that
/// `r` is ascending and stable.
pub open spec fn in_order<T: PartialOrd>(s: Seq<T>, r: Seq<usize>) -> bool {
    forall|i: int, j: int|
        0 <= i < j < r.len() ==> precedes(s, #[trigger] r[i] as int, #[trigger] r[j] as int)
}

/// The positions `lo..hi`, ascending.
pub open spec fn span(lo: int, hi: int) -> Seq<usize> {
    Seq::new((hi - lo) as nat, |i: int| (lo + i) as usize)
}

/// Every entry of `left` is a smaller position than every entry of `right`.
spec fn all_before(left: Seq<usize>, right: Seq<usize>) -> bool {
    forall|a: int, b: int|
        0 <= a < left.len() && 0 <= b < right.len() ==> #[trigger] left[a] < #[trigger] right[b]
}

/// Every entry of `r` precedes position `head`.
spec fn all_precede<T: PartialOrd>(s: Seq<T>, r: Seq<usize>, head: int) -> bool {
    forall|t: int| 0 <= t < r.len() ==> precedes(s, #[trigger] r[t] as int, head)
}

/// A sequence with the entries of `span(lo, hi)` has its length and stays
/// within its bounds.
proof fn lemma_span_members(r: Seq<usize>, lo: int, hi: int)
    requires
        0 <= lo <= hi <= usize::MAX,
        r.to_multiset() == span(lo, hi).to_multiset(),
    ensures
        r.len() == hi - lo,
        forall|t: int| 0 <= t < r.len() ==> lo <= #[trigger] r[t] < hi,
{
    broadcast use group_to_multiset_ensures;

    let sp = span(lo, hi);
    r.to_multiset_ensures();
    sp.to_multiset_ensures();
    assert(r.len() == sp.len());
    assert forall|t: int| 0 <= t < r.len() implies lo <= #[trigger] r[t] < hi by {
        assert(r.contains(r[t]));
        assert(sp.to_multiset().count(r[t]) > 0);
        assert(sp.contains(r[t]));
        let i = choose|i: int| 0 <= i < sp.len() && sp[i] == r[t];
        assert(sp[i] == lo + i);
    }
}

/// A sequence with the entries of `span(0, n)` is a permutation of `0..n`.
proof fn lemma_span_permutation(r: Seq<usize>, n: int)
    requires
        0 <= n <= usize::MAX,
        r.to_multiset() == span(0, n).to_multiset(),
    ensures
        is_permutation(r, n as nat),
{
    broadcast use group_to_multiset_ensures;

    let sp = span(0, n);
    lemma_span_members(r, 0, n);
    assert(sp.no_duplicates());
    sp.lemma_multiset_has_no_duplicates();
    r.lemma_multiset_has_no_duplicates_conv();
    assert forall|p: usize| p < n implies #[trigger] r.contains(p) by {
        assert(sp[p as int] == p);
        assert(sp.contains(p));
        assert(sp.to_multiset().count(p) > 0);
    }
}

/// Merges two rankings of disjoint sets of positions into one.
fn merge<T: PartialOrd>(v: &[T], left: &Vec<usize>, right: &Vec<usize>) -> (r: Option<Vec<usize>>)
    requires
        forall|a: int| 0 <= a < left.len() ==> #[trigger] left[a] < v.len(),
        forall|b: int| 0 <= b < right.len() ==> #[trigger] right[b] < v.len(),
    ensures
        r matches Some(out) ==> out@.to_multiset() == left@.to_multiset().add(
            right@.to_multiset(),
        ),
        faithful::<T>() && r is None ==> has_unrelated_pair(v@),
        faithful::<T>() && coherent(v@) && in_order(v@, left@) && in_order(v@, right@)
            && all_before(left@, right@) ==> (r matches Some(out) ==> in_order(v@, out@)),
{
    let ghost lawful = faithful::<T>() && coherent(v@) && in_order(v@, left@) && in_order(
        v@,
        right@,
    ) && all_before(left@, right@);
    let mut out: Vec<usize> = Vec::new();
    let mut a: usize = 0;
    let mut b: usize = 0;
    proof {
        broadcast use group_to_multiset_ensures;

        assert(left@.take(0) =~= Seq::<usize>::empty());
        assert(right@.take(0) =~= Seq::<usize>::empty());
        assert(out@.to_multiset() =~= left@.take(0).to_multiset().add(
            right@.take(0).to_multiset(),
        ));
    }
    while a < left.len() || b < right.len()
        invariant
            a <= left.len(),
            b <= right.len(),
            forall|a: int| 0 <= a < left.len() ==> #[trigger] left[a] < v.len(),
            forall|b: int| 0 <= b < right.len() ==> #[trigger] right[b] < v.len(),
            forall|t: int| 0 <= t < out.len() ==> #[trigger] out[t] < v.len(),
            out@.to_multiset() == left@.take(a as int).to_multiset().add(
                right@.take(b as int).to_multiset(),
            ),
            lawful == (faithful::<T>() && coherent(v@) && in_order(v@, left@) && in_order(
                v@,
                right@,
            ) && all_before(left@, right@)),
            lawful ==> in_order(v@, out@),
            lawful && a < left.len() ==> all_precede(v@, out@, left[a as int] as int),
            lawful && b < right.len() ==> all_precede(v@, out@, right[b as int] as int),
        decreases left.len() - a + right.len() - b,
    {
        let from_left = if b == right.len() {
            true
        } else if a == left.len() {
            false
        } else {
            match relate(&v[left[a]], &v[right[b]]) {
                Relation::Below | Relation::Same => true,
                Relation::Above => false,
                Relation::Unrelated => {
                    assert(faithful::<T>() ==> relation(
                        v@[left[a as int] as int],
                        v@[right[b as int] as int],
                    ) == Relation::Unrelated);
                    return None;
                },
            }
        };
        let ghost before = out@;
        if from_left {
            let p = left[a];
            out.push(p);
            proof {
                broadcast use group_to_multiset_ensures;
                broadcast use group_multiset_axioms;

                assert(left@.take(a + 1) =~= left@.take(a as int).push(p));
                assert(out@.to_multiset() =~= left@.take(a + 1).to_multiset().add(
                    right@.take(b as int).to_multiset(),
                ));
                if lawful {
                    assert(in_order(v@, out@));
                    if a + 1 < left.len() {
                        let head = left[a + 1] as int;
                        assert(precedes(v@, p as int, head));
                        assert forall|t: int| 0 <= t < out.len() implies precedes(
                            v@,
                            #[trigger] out[t] as int,
                            head,
                        ) by {
                            if t < before.len() {
                                assert(precedes(v@, before[t] as int, p as int));
                                lemma_precedes_transitive(v@, before[t] as int, p as int, head);
                            }
                        }
                    }
                    if b < right.len() {
                        assert(precedes(v@, p as int, right[b as int] as int));
                    }
                }
            }
            a += 1;
        } else {
            let q = right[b];
            out.push(q);
            proof {
                broadcast use group_to_multiset_ensures;
                broadcast use group_multiset_axioms;

                assert(right@.take(b + 1) =~= right@.take(b as int).push(q));
                assert(out@.to_multiset() =~= left@.take(a as int).to_multiset().add(
                    right@.take(b + 1).to_multiset(),
                ));
                if lawful {
                    assert(in_order(v@, out@));
                    if b + 1 < right.len() {
                        let head = right[b + 1] as int;
                        assert(precedes(v@, q as int, head));
                        assert forall|t: int| 0 <= t < out.len() implies precedes(
                            v@,
                            #[trigger] out[t] as int,
                            head,
                        ) by {
                            if t < before.len() {
                                assert(precedes(v@, before[t] as int, q as int));
                                lemma_precedes_transitive(v@, before[t] as int, q as int, head);
                            }
                        }
                    }
                    if a < left.len() {
                        let p = left[a as int] as int;
                        assert(relation(v@[q as int], v@[p]) == mirrored(
                            relation(v@[p], v@[q as int]),
                        ));
                        assert(precedes(v@, q as int, p));
                    }
                }
            }
            b += 1;
        }
    }
    proof {
        assert(left@.take(a as int) =~= left@);
        assert(right@.take(b as int) =~= right@);
    }
    Some(out)
}

/// Ranks the positions `lo..hi` of `v` among themselves.
fn rank_span<T: PartialOrd>(v: &[T], lo: usize, hi: usize) -> (r: Option<Vec<usize>>)
    requires
        lo < hi <= v.len(),
    ensures
        r matches Some(rk) ==> rk@.to_multiset() == span(lo as int, hi as int).to_multiset(),
        faithful::<T>() && r is None ==> has_unrelated_pair(v@),
        faithful::<T>() && coherent(v@) ==> (r matches Some(rk) ==> in_order(v@, rk@)),
    decreases hi - lo,
{
    if hi - lo == 1 {
        let mut one: Vec<usize> = Vec::new();
        one.push(lo);
        proof {
            assert(one@ =~= span(lo as int, hi as int));
        }
        return Some(one);
    }
    let mid: usize = lo + (hi - lo) / 2;
    let left = match rank_span(v, lo, mid) {
        Some(rk) => rk,
        None => {
            return None;
        },
    };
    let right = match rank_span(v, mid, hi) {
        Some(rk) => rk,
        None => {
            return None;
        },
    };
    proof {
        lemma_span_members(left@, lo as int, mid as int);
        lemma_span_members(right@, mid as int, hi as int);
        assert(all_before(left@, right@));
        assert(span(lo as int, hi as int) =~= span(lo as int, mid as int) + span(
            mid as int,
            hi as int,
        ));
        lemma_multiset_commutative(span(lo as int, mid as int), span(mid as int, hi as int));
    }
    merge(v, &left, &right)
}

/// In a permutation that is in order, any two different positions are related.
proof fn lemma_ordered_positions_related<T: PartialOrd>(
    s: Seq<T>,
    r: Seq<usize>,
    p: usize,
    q: usize,
)
    requires
        coherent(s),
        is_permutation(r, s.len()),
        in_order(s, r),
        p < s.len(),
        q < s.len(),
        p != q,
    ensures
        relation(s[p as int], s[q as int]) != Relation::Unrelated,
{
    assert(r.contains(p));
    assert(r.contains(q));
    let i = choose|i: int| 0 <= i < r.len() && r[i] == p;
    let j = choose|j: int| 0 <= j < r.len() && r[j] == q;
    if i < j {
        assert(precedes(s, r[i] as int, r[j] as int));
    } else {
        assert(precedes(s, r[j] as int, r[i] as int));
        assert(relation(s[p as int], s[q as int]) == mirrored(
            relation(s[q as int], s[p as int]),
        ));
    }
}

/// Two rankings of one sequence agree on their first `upto` entries.
proof fn lemma_rankings_agree<T: PartialOrd>(s: Seq<T>, a: Seq<usize>, b: Seq<usize>, upto: int)
    requires
        coherent(s),
        is_ranking(s, a),
        is_ranking(s, b),
        0 <= upto <= s.len(),
    ensures
        forall|i: int| 0 <= i < upto ==> a[i] == b[i],
    decreases upto,
{
    if upto > 0 {
        lemma_rankings_agree(s, a, b, upto - 1);
        let i = upto - 1;
        let p = a[i];
        let q = b[i];
        if p != q {
            assert(b.contains(p));
            let j = choose|j: int| 0 <= j < b.len() && b[j] == p;
            if j < i {
                assert(a[j] == b[j]);
            }
            assert(i < j);
            assert(at_most(s[b[i] as int], s[b[j] as int]));
            assert(precedes(s, q as int, p as int));
            assert(a.contains(q));
            let k = choose|k: int| 0 <= k < a.len() && a[k] == q;
            if k < i {
                assert(a[k] == b[k]);
            }
            assert(i < k);
            assert(at_most(s[a[i] as int], s[a[k] as int]));
            assert(precedes(s, p as int, q as int));
            lemma_precedes_asymmetric(s, p as int, q as int);
        }
    }
}

/// A sequence has one ranking at most: what `sorted_indices` returns for it
/// is the same at every call.
pub proof fn lemma_ranking_unique<T: PartialOrd>(s: Seq<T>, a: Seq<usize>, b: Seq<usize>)
    requires
        coherent(s),
        is_ranking(s, a),
        is_ranking(s, b),
    ensures
        a == b,
{
    lemma_rankings_agree(s, a, b, s.len() as int);
    assert(a =~= b);
}

/// The positions of `v` by ascending value, ties in the order of the
/// positions.
///
/// Fails when `v` is empty, and when a comparison has no answer: any value
/// that cannot be compared with itself is found, wherever it stands, and so
/// is any pair that the sort compares. Under the laws of `coherent` that is
/// every pair that cannot be compared.
pub fn sorted_indices<T: PartialOrd>(v: &[T]) -> (r: Result<Vec<usize>, Unsortable>)
    ensures
        v.len() == 0 ==> r is Err,
        r matches Ok(rk) ==> is_permutation(rk@, v@.len()),
        faithful::<T>() && r is Err ==> v.len() == 0 || has_unrelated_pair(v@),
        faithful::<T>() && has_unrelated_value(v@) ==> r is Err,
        faithful::<T>() && coherent(v@) ==> (r is Err <==> v.len() == 0 || has_unrelated_pair(
            v@,
        )),
        faithful::<T>() && coherent(v@) ==> (r matches Ok(rk) ==> is_ranking(v@, rk@)),
{
    let n = v.len();
    if n == 0 {
        return Err(Unsortable);
    }
    let mut i: usize = 0;
    while i < n
        invariant
            n == v.len(),
            i <= n,
            faithful::<T>() ==> forall|k: int|
                0 <= k < i ==> #[trigger] relation(v@[k], v@[k]) != Relation::Unrelated,
        decreases n - i,
    {
        if relate(&v[i], &v[i]) == Relation::Unrelated {
            assert(faithful::<T>() ==> relation(v@[i as int], v@[i as int])
                == Relation::Unrelated);
            return Err(Unsortable);
        }
        i += 1;
    }
    match rank_span(v, 0, n) {
        Some(rk) => {
            proof {
                lemma_span_permutation(rk@, n as int);
                if faithful::<T>() && coherent(v@) {
                    assert forall|p: int, q: int| 0 <= p < n && 0 <= q < n implies #[trigger] relation(
                        v@[p],
                        v@[q],
                    ) != Relation::Unrelated by {
                        if p != q {
                            lemma_ordered_positions_related(v@, rk@, p as usize, q as usize);
                        }
                    }
                }
            }
            Ok(rk)
        },
        None => Err(Unsortable),
    }
}

} // verus!
