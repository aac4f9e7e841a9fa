//! The ordering of values, as the rest of the crate sees it.
//!
//! Values are compared through `PartialOrd`. This module turns the answer into
//! a [`Relation`], names that relation in specifications, and states the laws
//! under which positions can be ranked by value.

use core::cmp::Ordering;
use vstd::prelude::*;
use vstd::std_specs::cmp::PartialOrdSpec;

verus! {

/// How a first value stands to a second one.
#[derive(Clone, Copy, Debug, PartialEq, Eq, Structural)]
pub enum Relation {
    /// The first is strictly smaller.
    Below,
    /// The two are equal in value.
    Same,
    /// The first is strictly greater.
    Above,
    /// The two cannot be compared.
    Unrelated,
}

/// The relation of `a` to `b` that the type's ordering defines.
pub open spec fn relation<T: PartialOrd>(a: T, b: T) -> Relation {
    match a.partial_cmp_spec(&b) {
        Some(Ordering::Less) => Relation::Below,
        Some(Ordering::Equal) => Relation::Same,
        Some(Ordering::Greater) => Relation::Above,
        None => Relation::Unrelated,
    }
}

/// Whether `partial_cmp` on `T` is known to return what `relation` says. It
/// is for the integer types; it is not for a type whose comparison may
/// differ from one run to the next.
pub open spec fn faithful<T: PartialOrd>() -> bool {
    T::obeys_partial_cmp_spec()
}

/// Compares two values: the answer of `partial_cmp` as a [`Relation`].
pub fn relate<T: PartialOrd>(a: &T, b: &T) -> (r: Relation)
    ensures
        faithful::<T>() ==> r == relation(*a, *b),
{
    match a.partial_cmp(b) {
        Some(Ordering::Less) => Relation::Below,
        Some(Ordering::Equal) => Relation::Same,
        Some(Ordering::Greater) => Relation::Above,
        None => Relation::Unrelated,
    }
}

/// `a` is smaller than `b` or equal to it.
pub open spec fn at_most<T: PartialOrd>(a: T, b: T) -> bool {
    relation(a, b) == Relation::Below || relation(a, b) == Relation::Same
}

/// The relation of `b` to `a`, given that of `a` to `b`, in a sound ordering.
pub open spec fn mirrored(r: Relation) -> Relation {
    match r {
        Relation::Below => Relation::Above,
        Relation::Same => Relation::Same,
        Relation::Above => Relation::Below,
        Relation::Unrelated => Relation::Unrelated,
    }
}

/// The laws of a partial order, as far as the values of `s` go: comparing the
/// other way round gives the mirrored answer, and "smaller or equal" is
/// transitive. Nothing is asked of a value compared with itself, so a value
/// that is unrelated to every value, itself included, breaks neither law.
pub open spec fn coherent<T: PartialOrd>(s: Seq<T>) -> bool {
    &&& forall|i: int, j: int|
        0 <= i < s.len() && 0 <= j < s.len() ==> relation(s[j], s[i]) == mirrored(
            #[trigger] relation(s[i], s[j]),
        )
    &&& forall|i: int, j: int, k: int|
        0 <= i < s.len() && 0 <= j < s.len() && 0 <= k < s.len() && #[trigger] at_most(s[i], s[j])
            && #[trigger] at_most(s[j], s[k]) ==> at_most(s[i], s[k])
}

/// Some two values of `s`, or one value and itself, cannot be compared.
pub open spec fn has_unrelated_pair<T: PartialOrd>(s: Seq<T>) -> bool {
    exists|i: int, j: int|
        0 <= i < s.len() && 0 <= j < s.len() && #[trigger] relation(s[i], s[j])
            == Relation::Unrelated
}

/// Some value of `s` cannot be compared with itself.
pub open spec fn has_unrelated_value<T: PartialOrd>(s: Seq<T>) -> bool {
    exists|i: int| 0 <= i < s.len() && #[trigger] relation(s[i], s[i]) == Relation::Unrelated
}

/// Position `p` comes before position `q` when the positions of `s` are put in
/// ascending order of value and equal values keep the order of their positions.
pub open spec fn precedes<T: PartialOrd>(s: Seq<T>, p: int, q: int) -> bool {
    relation(s[p], s[q]) == Relation::Below || (relation(s[p], s[q]) == Relation::Same && p < q)
}

/// `precedes` is transitive under the laws of `coherent`.
pub proof fn lemma_precedes_transitive<T: PartialOrd>(s: Seq<T>, p: int, q: int, r: int)
    requires
        coherent(s),
        0 <= p < s.len(),
        0 <= q < s.len(),
        0 <= r < s.len(),
        precedes(s, p, q),
        precedes(s, q, r),
    ensures
        precedes(s, p, r),
{
    assert(at_most(s[p], s[q]));
    assert(at_most(s[q], s[r]));
    assert(at_most(s[p], s[r]));
    if relation(s[p], s[r]) == Relation::Same {
        assert(relation(s[r], s[p]) == mirrored(relation(s[p], s[r])));
        assert(at_most(s[r], s[p]));
        assert(at_most(s[r], s[q]));
        assert(at_most(s[q], s[p]));
        assert(relation(s[r], s[q]) == mirrored(relation(s[q], s[r])));
        assert(relation(s[q], s[p]) == mirrored(relation(s[p], s[q])));
    }
}

/// Of two positions at most one precedes the other.
pub proof fn lemma_precedes_asymmetric<T: PartialOrd>(s: Seq<T>, p: int, q: int)
    requires
        coherent(s),
        0 <= p < s.len(),
        0 <= q < s.len(),
        precedes(s, p, q),
    ensures
        !precedes(s, q, p),
{
    assert(relation(s[q], s[p]) == mirrored(relation(s[p], s[q])));
}

} // verus!
