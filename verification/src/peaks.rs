//! The two operations of the crate: the regions of a sequence, and their
//! peaks.

use crate::order::{at_most, coherent, faithful, has_unrelated_pair, has_unrelated_value};
use crate::ranking::{
    ascending, is_permutation, is_ranking, lemma_ranking_unique, sorted_indices, Unsortable,
};
use crate::region::{views, Direction, Homology, Region};
use crate::tracker::{
    grow_regions, lemma_oldest_touched_exists, lemma_sweep_claims, lemma_sweep_partitions,
    oldest_touched, partitions, sweep, untouched, visit, visited,
};
use vstd::prelude::*;

verus! {

/// The regions `rs` are what a sweep over some visiting order of the
/// positions `0..n` leaves.
pub open spec fn is_swept(rs: Seq<Region>, n: nat) -> bool {
    exists|ranking: Seq<usize>| is_permutation(ranking, n) && #[trigger] sweep(ranking, 0) == rs
}

/// The regions `rs` are those of the sequence `x`: what the sweep over its
/// ranking leaves.
pub open spec fn is_region_set<T: PartialOrd>(x: Seq<T>, rs: Seq<Region>) -> bool {
    exists|ranking: Seq<usize>| is_ranking(x, ranking) && #[trigger] sweep(ranking, 0) == rs
}

/// No position of a region has a greater value than the region's peak: the
/// value of each other position is smaller or equal.
pub open spec fn dominated<T: PartialOrd>(x: Seq<T>, rs: Seq<Region>) -> bool {
    forall|k: int, p: int|
        0 <= k < rs.len() && #[trigger] rs[k].holds(p) && p != rs[k].peak ==> at_most(
            x[p],
            x[rs[k].peak],
        )
}

/// The regions stand in the order in which they were founded, the highest
/// peak first: no peak has a greater value than the peak of an older region.
pub open spec fn peaks_descend<T: PartialOrd>(x: Seq<T>, rs: Seq<Region>) -> bool {
    forall|j: int, k: int|
        0 <= j < k < rs.len() ==> at_most(x[(#[trigger] rs[k]).peak], x[(#[trigger] rs[j]).peak])
}

/// The peaks of the regions `rs`, in the order of the regions.
pub open spec fn peaks_of(rs: Seq<Region>) -> Seq<int> {
    rs.map_values(|r: Region| r.peak)
}

/// In a sweep over an ascending order, at every point of the sweep, each
/// region's peak has the greatest value in the region, and the regions stand
/// by descending value of their peaks.
pub proof fn lemma_sweep_dominated<T: PartialOrd>(x: Seq<T>, ranking: Seq<usize>, from: int)
    requires
        is_permutation(ranking, x.len()),
        ascending(x, ranking),
        0 <= from <= ranking.len(),
    ensures
        dominated(x, sweep(ranking, from)),
        peaks_descend(x, sweep(ranking, from)),
    decreases ranking.len() - from,
{
    if from < ranking.len() {
        let rs = sweep(ranking, from + 1);
        let idx = ranking[from] as int;
        let after = visit(rs, idx);
        lemma_sweep_dominated(x, ranking, from + 1);
        lemma_sweep_claims(ranking, from + 1);
        if untouched(rs, idx) {
            assert forall|k: int, p: int|
                0 <= k < after.len() && #[trigger] after[k].holds(p) && p
                    != after[k].peak implies at_most(x[p], x[after[k].peak]) by {
                if k < rs.len() {
                    assert(rs[k].holds(p));
                }
            }
            assert forall|j: int, k: int| 0 <= j < k < after.len() implies at_most(
                x[(#[trigger] after[k]).peak],
                x[(#[trigger] after[j]).peak],
            ) by {
                if k == rs.len() {
                    let older = rs[j].peak;
                    assert(rs[j].wf());
                    assert(rs[j].holds(older));
                    assert(visited(ranking, from + 1, older));
                    let i = choose|i: int|
                        from + 1 <= i < ranking.len() && #[trigger] ranking[i] as int == older;
                    assert(at_most(x[ranking[from] as int], x[ranking[i] as int]));
                } else {
                    assert(after[k] == rs[k] && after[j] == rs[j]);
                }
            }
        } else {
            let some = choose|k: int|
                0 <= k < rs.len() && (#[trigger] rs[k]).side_of(idx) != Direction::Neither;
            lemma_oldest_touched_exists(rs, idx, some);
            let t = choose|t: int| oldest_touched(rs, idx, t);
            let peak = rs[t].peak;
            assert(rs[t].wf());
            assert(rs[t].holds(peak));
            assert(visited(ranking, from + 1, peak));
            let j = choose|j: int| from + 1 <= j < ranking.len() && #[trigger] ranking[j] as int == peak;
            assert(at_most(x[ranking[from] as int], x[ranking[j] as int]));
            assert forall|k: int, p: int|
                0 <= k < after.len() && #[trigger] after[k].holds(p) && p
                    != after[k].peak implies at_most(x[p], x[after[k].peak]) by {
                if p != idx || k != t {
                    assert(rs[k].holds(p));
                }
            }
            assert forall|j: int, k: int| 0 <= j < k < after.len() implies at_most(
                x[(#[trigger] after[k]).peak],
                x[(#[trigger] after[j]).peak],
            ) by {
                assert(after[k].peak == rs[k].peak && after[j].peak == rs[j].peak);
            }
        }
    }
}

/// A sequence has one set of regions at most: what `find_homologies` returns
/// for it is the same at every call, and so are the peaks.
pub proof fn lemma_region_set_unique<T: PartialOrd>(x: Seq<T>, a: Seq<Region>, b: Seq<Region>)
    requires
        coherent(x),
        is_region_set(x, a),
        is_region_set(x, b),
    ensures
        a == b,
        peaks_of(a) == peaks_of(b),
{
    let ra = choose|ranking: Seq<usize>| is_ranking(x, ranking) && #[trigger] sweep(ranking, 0) == a;
    let rb = choose|ranking: Seq<usize>| is_ranking(x, ranking) && #[trigger] sweep(ranking, 0) == b;
    lemma_ranking_unique(x, ra, rb);
}

/// Finds the regions of `x`: its positions are ranked by ascending value and
/// swept from the highest value down.
///
/// Fails when `x` is empty, and when the ranking meets a comparison without
/// an answer. Whatever the comparisons answer, the regions returned
/// partition the positions of `x`.
pub fn find_homologies<T: PartialOrd>(x: &[T]) -> (r: Result<Vec<Homology>, Unsortable>)
    ensures
        x.len() == 0 ==> r is Err,
        r matches Ok(hs) ==> is_swept(views(hs@), x@.len()) && partitions(
            views(hs@),
            x.len() as int,
        ),
        faithful::<T>() && r is Err ==> x.len() == 0 || has_unrelated_pair(x@),
        faithful::<T>() && has_unrelated_value(x@) ==> r is Err,
        faithful::<T>() && coherent(x@) ==> (r is Err <==> x.len() == 0 || has_unrelated_pair(
            x@,
        )),
        faithful::<T>() && coherent(x@) ==> (r matches Ok(hs) ==> is_region_set(x@, views(hs@))
            && dominated(x@, views(hs@)) && peaks_descend(x@, views(hs@))),
{
    let ranking = match sorted_indices(x) {
        Ok(ranking) => ranking,
        Err(e) => {
            return Err(e);
        },
    };
    let regions = grow_regions(ranking.as_slice());
    proof {
        lemma_sweep_partitions(ranking@, x.len());
        assert(sweep(ranking@, 0) == views(regions@));
        if faithful::<T>() && coherent(x@) {
            lemma_sweep_dominated(x@, ranking@, 0);
        }
    }
    Ok(regions)
}

/// The peak of each region, in the order of the regions: the order in which
/// they were founded.
pub fn get_peaks(x: &[Homology]) -> (peaks: Vec<usize>)
    ensures
        peaks@.len() == x@.len(),
        forall|i: int| 0 <= i < peaks@.len() ==> #[trigger] peaks@[i] as int == peaks_of(views(x@))[i],
{
    let mut peaks: Vec<usize> = Vec::new();
    let mut i: usize = 0;
    while i < x.len()
        invariant
            i <= x.len(),
            peaks@.len() == i,
            forall|k: int| 0 <= k < i ==> #[trigger] peaks@[k] as int == x@[k]@.peak,
        decreases x.len() - i,
    {
        peaks.push(x[i].get_peak_idx());
        i += 1;
    }
    peaks
}

} // verus!
