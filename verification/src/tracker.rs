//! The sweep: positions are visited from the highest value down, and each
//! one widens the oldest region that it touches or founds a new region.

use crate::ranking::is_permutation;
use crate::region::{views, Direction, Homology, Region};
use vstd::prelude::*;

verus! {

/// Position `idx` touches none of the regions `rs`.
pub open spec fn untouched(rs: Seq<Region>, idx: int) -> bool {
    forall|k: int| 0 <= k < rs.len() ==> (#[trigger] rs[k]).side_of(idx) == Direction::Neither
}

/// Region `k` is the oldest of the regions `rs` that position `idx` touches.
pub open spec fn oldest_touched(rs: Seq<Region>, idx: int, k: int) -> bool {
    &&& 0 <= k < rs.len()
    &&& rs[k].side_of(idx) != Direction::Neither
    &&& forall|j: int| 0 <= j < k ==> (#[trigger] rs[j]).side_of(idx) == Direction::Neither
}

/// The regions after position `idx` was visited: the oldest region that it
/// touches has taken it in, and no other region has changed; where it
/// touches none, it has founded a region, the youngest.
pub open spec fn visit(rs: Seq<Region>, idx: int) -> Seq<Region> {
    if untouched(rs, idx) {
        rs.push(Region::single(idx))
    } else {
        let k = choose|k: int| oldest_touched(rs, idx, k);
        rs.update(k, rs[k].widened(rs[k].side_of(idx)))
    }
}

/// The regions after the positions `ranking[from..]` were visited, the last
/// of them first.
pub open spec fn sweep(ranking: Seq<usize>, from: int) -> Seq<Region>
    decreases ranking.len() - from,
{
    if 0 <= from < ranking.len() {
        visit(sweep(ranking, from + 1), ranking[from] as int)
    } else {
        Seq::empty()
    }
}

/// Where a position touches a region, one of the regions that it touches is
/// the oldest.
pub proof fn lemma_oldest_touched_exists(rs: Seq<Region>, idx: int, k: int)
    requires
        0 <= k < rs.len(),
        rs[k].side_of(idx) != Direction::Neither,
    ensures
        exists|t: int| oldest_touched(rs, idx, t),
    decreases k,
{
    if forall|j: int| 0 <= j < k ==> (#[trigger] rs[j]).side_of(idx) == Direction::Neither {
        assert(oldest_touched(rs, idx, k));
    } else {
        let j = choose|j: int| 0 <= j < k && (#[trigger] rs[j]).side_of(idx) != Direction::Neither;
        lemma_oldest_touched_exists(rs, idx, j);
    }
}

/// A visit changes the oldest touched region, whichever way it is found.
pub proof fn lemma_visit_widens(rs: Seq<Region>, idx: int, k: int)
    requires
        oldest_touched(rs, idx, k),
    ensures
        visit(rs, idx) == rs.update(k, rs[k].widened(rs[k].side_of(idx))),
{
    assert(!untouched(rs, idx));
    let c = choose|c: int| oldest_touched(rs, idx, c);
    assert(c == k);
}

/// A visit deletes no region and moves no peak, and no extent moves inward.
pub proof fn lemma_visit_grows(rs: Seq<Region>, idx: int)
    ensures
        visit(rs, idx).len() >= rs.len(),
        forall|k: int|
            0 <= k < rs.len() ==> {
                let wide = #[trigger] visit(rs, idx)[k];
                &&& wide.peak == rs[k].peak
                &&& rs[k].left - 1 <= wide.left <= rs[k].left
                &&& rs[k].right <= wide.right <= rs[k].right + 1
            },
{
    if !untouched(rs, idx) {
        let some = choose|k: int|
            0 <= k < rs.len() && (#[trigger] rs[k]).side_of(idx) != Direction::Neither;
        lemma_oldest_touched_exists(rs, idx, some);
    }
}

/// Position `p` is one of `ranking[from..]`.
pub open spec fn visited(ranking: Seq<usize>, from: int, p: int) -> bool {
    exists|i: int| from <= i < ranking.len() && #[trigger] ranking[i] as int == p
}

/// Position `p` lies in one of the regions `rs`.
pub open spec fn covered(rs: Seq<Region>, p: int) -> bool {
    exists|k: int| 0 <= k < rs.len() && #[trigger] rs[k].holds(p)
}

/// No position lies in two of the regions `rs`.
pub open spec fn disjoint(rs: Seq<Region>) -> bool {
    forall|j: int, k: int, p: int|
        0 <= j < rs.len() && 0 <= k < rs.len() && #[trigger] rs[j].holds(p)
            && #[trigger] rs[k].holds(p) ==> j == k
}

/// The regions `rs` hold the positions `ranking[from..]` and no others, each
/// in one region, and each region holds its peak.
pub open spec fn claims(ranking: Seq<usize>, from: int, rs: Seq<Region>) -> bool {
    &&& forall|k: int| 0 <= k < rs.len() ==> (#[trigger] rs[k]).wf()
    &&& forall|k: int, p: int|
        0 <= k < rs.len() && #[trigger] rs[k].holds(p) ==> visited(ranking, from, p)
    &&& forall|i: int| from <= i < ranking.len() ==> covered(rs, #[trigger] ranking[i] as int)
    &&& disjoint(rs)
}

/// Each of the positions `0..n` lies in exactly one of the regions `rs`, no
/// region reaches beyond them, and each region holds its peak.
pub open spec fn partitions(rs: Seq<Region>, n: int) -> bool {
    &&& forall|k: int| 0 <= k < rs.len() ==> (#[trigger] rs[k]).wf() && rs[k].right < n
    &&& forall|p: int| 0 <= p < n ==> #[trigger] covered(rs, p)
    &&& disjoint(rs)
}

/// A visit of a position that no region holds keeps the regions apart and
/// adds that position to what they hold, and nothing else.
pub proof fn lemma_visit_claims(ranking: Seq<usize>, from: int, rs: Seq<Region>)
    requires
        ranking.no_duplicates(),
        0 <= from < ranking.len(),
        claims(ranking, from + 1, rs),
    ensures
        claims(ranking, from, visit(rs, ranking[from] as int)),
{
    let idx = ranking[from] as int;
    let after = visit(rs, idx);
    assert(!visited(ranking, from + 1, idx));
    assert forall|k: int| 0 <= k < rs.len() implies !(#[trigger] rs[k].holds(idx)) by {
        if rs[k].holds(idx) {
            assert(visited(ranking, from + 1, idx));
        }
    }
    assert forall|p: int| visited(ranking, from + 1, p) implies visited(ranking, from, p) by {
        let i = choose|i: int| from + 1 <= i < ranking.len() && #[trigger] ranking[i] as int == p;
        assert(from <= i < ranking.len() && ranking[i] as int == p);
    }
    assert(visited(ranking, from, idx));
    if untouched(rs, idx) {
        let young = rs.len() as int;
        assert(after[young] == Region::single(idx));
        assert forall|k: int, p: int| 0 <= k < after.len() && #[trigger] after[k].holds(
            p,
        ) implies visited(ranking, from, p) by {
            if k < young {
                assert(rs[k].holds(p));
            }
        }
        assert forall|i: int| from <= i < ranking.len() implies covered(
            after,
            #[trigger] ranking[i] as int,
        ) by {
            if i == from {
                assert(after[young].holds(idx));
            } else {
                let k = choose|k: int| 0 <= k < rs.len() && #[trigger] rs[k].holds(ranking[i] as int);
                assert(after[k].holds(ranking[i] as int));
            }
        }
        assert forall|j: int, k: int, p: int|
            0 <= j < after.len() && 0 <= k < after.len() && #[trigger] after[j].holds(p)
                && #[trigger] after[k].holds(p) implies j == k by {
            if j < young && k < young {
                assert(rs[j].holds(p) && rs[k].holds(p));
            } else if j < young {
                assert(rs[j].holds(idx));
            } else if k < young {
                assert(rs[k].holds(idx));
            }
        }
    } else {
        let some = choose|k: int|
            0 <= k < rs.len() && (#[trigger] rs[k]).side_of(idx) != Direction::Neither;
        lemma_oldest_touched_exists(rs, idx, some);
        let t = choose|t: int| oldest_touched(rs, idx, t);
        let wide = rs[t].widened(rs[t].side_of(idx));
        assert(after == rs.update(t, wide));
        assert(rs[t].wf());
        assert(forall|p: int| wide.holds(p) <==> rs[t].holds(p) || p == idx);
        assert forall|k: int, p: int| 0 <= k < after.len() && #[trigger] after[k].holds(
            p,
        ) implies visited(ranking, from, p) by {
            if p != idx {
                assert(rs[k].holds(p));
            }
        }
        assert forall|i: int| from <= i < ranking.len() implies covered(
            after,
            #[trigger] ranking[i] as int,
        ) by {
            if i == from {
                assert(after[t].holds(idx));
            } else {
                let k = choose|k: int| 0 <= k < rs.len() && #[trigger] rs[k].holds(ranking[i] as int);
                assert(after[k].holds(ranking[i] as int));
            }
        }
        assert forall|j: int, k: int, p: int|
            0 <= j < after.len() && 0 <= k < after.len() && #[trigger] after[j].holds(p)
                && #[trigger] after[k].holds(p) implies j == k by {
            if p == idx {
                if j != t {
                    assert(rs[j].holds(idx));
                }
                if k != t {
                    assert(rs[k].holds(idx));
                }
            } else {
                assert(rs[j].holds(p) && rs[k].holds(p));
            }
        }
    }
}

/// At each point of the sweep the regions hold exactly the positions that
/// were visited, each in one region.
pub proof fn lemma_sweep_claims(ranking: Seq<usize>, from: int)
    requires
        ranking.no_duplicates(),
        0 <= from <= ranking.len(),
    ensures
        claims(ranking, from, sweep(ranking, from)),
    decreases ranking.len() - from,
{
    if from < ranking.len() {
        lemma_sweep_claims(ranking, from + 1);
        lemma_visit_claims(ranking, from, sweep(ranking, from + 1));
    }
}

/// The regions of a sweep over a permutation of `0..n` partition `0..n`:
/// every position lies in the interval of exactly one region. A position
/// that touches two regions goes to the older one, and the two stay apart.
pub proof fn lemma_sweep_partitions(ranking: Seq<usize>, n: usize)
    requires
        is_permutation(ranking, n as nat),
    ensures
        partitions(sweep(ranking, 0), n as int),
{
    let rs = sweep(ranking, 0);
    lemma_sweep_claims(ranking, 0);
    assert forall|k: int| 0 <= k < rs.len() implies (#[trigger] rs[k]).wf() && rs[k].right < n by {
        assert(rs[k].holds(rs[k].right));
        assert(visited(ranking, 0, rs[k].right));
    }
    assert forall|p: int| 0 <= p < n implies #[trigger] covered(rs, p) by {
        assert(ranking.contains(p as usize));
        let i = choose|i: int| 0 <= i < ranking.len() && ranking[i] == p as usize;
        assert(covered(rs, ranking[i] as int));
    }
}

/// Visits one position: the oldest region that `idx` touches takes it in;
/// where it touches none, it founds a region at the end of the list.
pub fn visit_position(regions: &mut Vec<Homology>, idx: usize)
    ensures
        views(final(regions)@) == visit(views(old(regions)@), idx as int),
{
    let ghost before = views(regions@);
    let mut k: usize = 0;
    while k < regions.len()
        invariant
            k <= regions.len(),
            views(regions@) == before,
            before == views(old(regions)@),
            forall|j: int|
                0 <= j < k ==> (#[trigger] before[j]).side_of(idx as int) == Direction::Neither,
        decreases regions.len() - k,
    {
        let side = regions[k].is_adjacent(idx);
        assert(side == before[k as int].side_of(idx as int));
        match side {
            Direction::Left => {
                regions[k].extend_left();
                proof {
                    lemma_visit_widens(before, idx as int, k as int);
                    assert(views(regions@) =~= before.update(
                        k as int,
                        before[k as int].widened(side),
                    ));
                }
                return ;
            },
            Direction::Right => {
                regions[k].extend_right();
                proof {
                    lemma_visit_widens(before, idx as int, k as int);
                    assert(views(regions@) =~= before.update(
                        k as int,
                        before[k as int].widened(side),
                    ));
                }
                return ;
            },
            Direction::Neither => {},
        }
        k += 1;
    }
    regions.push(Homology::new(idx));
    proof {
        assert(untouched(before, idx as int));
        assert(views(regions@) =~= before.push(Region::single(idx as int)));
    }
}

/// Grows the regions of a ranking: its positions are visited from the last,
/// which has the highest value, to the first.
pub fn grow_regions(ranking: &[usize]) -> (regions: Vec<Homology>)
    ensures
        views(regions@) == sweep(ranking@, 0),
{
    let mut regions: Vec<Homology> = Vec::new();
    let mut at: usize = ranking.len();
    proof {
        assert(views(regions@) =~= sweep(ranking@, at as int));
    }
    while at > 0
        invariant
            at <= ranking.len(),
            views(regions@) == sweep(ranking@, at as int),
        decreases at,
    {
        at -= 1;
        visit_position(&mut regions, ranking[at]);
    }
    regions
}

} // verus!
