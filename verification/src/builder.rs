//! One-shot construction of the pruned neutron neighbor graph.
//!
//! For each neutron `s`, the candidates are all neutrons strictly closer than
//! a hard cutoff, sorted by ascending distance from `s` (ties keep catalog
//! order).  Walking the candidates in that order, a candidate within one
//! base-range jump is always admitted; a farther candidate is admitted only
//! if no already-admitted neighbor sits strictly closer to it than `s` does
//! (the dominance rule).  Admitted neighbors are recorded as indices into the
//! neutron sequence, not the global catalog.

use vstd::prelude::*;

use crate::geometry::{sq_dist, sq_dist_spec};
use crate::route::MAX_JUMP_DISTANCE;
use crate::system::{neutrons_wf, systems_wf, NeutronStarSystem, StarSystem};

verus! {

/// Hard candidate cutoff: neutrons at or beyond this distance are never
/// considered as direct neighbors.
pub const MAX_DISTANCE: u64 = 5000;

/// Global indices of the neutron systems, in catalog order.
pub open spec fn neutron_indices(ss: Seq<StarSystem>) -> Seq<u32>
    decreases ss.len(),
{
    if ss.len() == 0 {
        Seq::empty()
    } else if ss.last().is_neutron {
        neutron_indices(ss.drop_last()).push((ss.len() - 1) as u32)
    } else {
        neutron_indices(ss.drop_last())
    }
}

/// Every listed index is a neutron, indices are strictly increasing, and
/// there are no more entries than systems.
pub proof fn lemma_neutron_indices(ss: Seq<StarSystem>)
    requires
        ss.len() <= 0xffff_ffff,
    ensures
        neutron_indices(ss).len() <= ss.len(),
        forall|k: int|
            0 <= k < neutron_indices(ss).len() ==> (#[trigger] neutron_indices(ss)[k] as int)
                < ss.len() && ss[neutron_indices(ss)[k] as int].is_neutron,
        forall|k: int, l: int|
            0 <= k < l < neutron_indices(ss).len() ==> neutron_indices(ss)[k] < neutron_indices(
                ss,
            )[l],
    decreases ss.len(),
{
    if ss.len() > 0 {
        lemma_neutron_indices(ss.drop_last());
        let dl = ss.drop_last();
        let pre = neutron_indices(dl);
        assert(forall|k: int| 0 <= k < dl.len() ==> #[trigger] dl[k] == ss[k]);
        let r = neutron_indices(ss);
        assert forall|k: int| 0 <= k < r.len() implies (#[trigger] r[k] as int) < ss.len()
            && ss[r[k] as int].is_neutron by {
            if k < pre.len() {
                assert(r[k] == pre[k]);
                assert((pre[k] as int) < dl.len());
                assert(dl[pre[k] as int].is_neutron);
            } else {
                assert(r[k] == (ss.len() - 1) as u32);
            }
        }
        assert forall|k: int, l: int| 0 <= k < l < r.len() implies r[k] < r[l] by {
            if l < pre.len() {
                assert(r[k] == pre[k] && r[l] == pre[l]);
            } else if l == pre.len() && l < r.len() {
                assert(r[k] == pre[k]);
                assert((pre[k] as int) < dl.len());
                assert(r[l] == (ss.len() - 1) as u32);
            }
        }
    }
}

/// Candidate key: squared distance from the source neutron.
pub open spec fn cand_key(ss: Seq<StarSystem>, s: int, c: (u32, u32)) -> int {
    sq_dist_spec(ss[s].coords, ss[c.1 as int].coords)
}

/// The candidate set for the neutron at global index `s`: every pair
/// `(position in the neutron sequence, global index)` whose squared distance
/// from `s` is strictly below the cutoff, in neutron-sequence order.
pub open spec fn candidate_list(ss: Seq<StarSystem>, nstars: Seq<u32>, s: int) -> Seq<(u32, u32)>
    decreases nstars.len(),
{
    if nstars.len() == 0 {
        Seq::empty()
    } else {
        let pre = candidate_list(ss, nstars.drop_last(), s);
        let gi = nstars.last();
        if sq_dist_spec(ss[s].coords, ss[gi as int].coords) < MAX_DISTANCE * MAX_DISTANCE {
            pre.push(((nstars.len() - 1) as u32, gi))
        } else {
            pre
        }
    }
}

/// Every candidate's position is in range and names its global index.
pub proof fn lemma_candidate_list(ss: Seq<StarSystem>, nstars: Seq<u32>, s: int)
    requires
        nstars.len() <= 0xffff_ffff,
    ensures
        forall|i: int|
            0 <= i < candidate_list(ss, nstars, s).len() ==> {
                let c = #[trigger] candidate_list(ss, nstars, s)[i];
                &&& (c.0 as int) < nstars.len()
                &&& nstars[c.0 as int] == c.1
                &&& cand_key(ss, s, c) < MAX_DISTANCE * MAX_DISTANCE
            },
    decreases nstars.len(),
{
    if nstars.len() > 0 {
        lemma_candidate_list(ss, nstars.drop_last(), s);
        let dl = nstars.drop_last();
        let pre = candidate_list(ss, dl, s);
        assert(forall|k: int| 0 <= k < dl.len() ==> #[trigger] dl[k] == nstars[k]);
        let r = candidate_list(ss, nstars, s);
        assert forall|i: int| 0 <= i < r.len() implies {
            let c = #[trigger] r[i];
            &&& (c.0 as int) < nstars.len()
            &&& nstars[c.0 as int] == c.1
            &&& cand_key(ss, s, c) < MAX_DISTANCE * MAX_DISTANCE
        } by {
            if i < pre.len() {
                assert(r[i] == pre[i]);
                assert((pre[i].0 as int) < dl.len());
                assert(dl[pre[i].0 as int] == pre[i].1);
            } else {
                assert(r[i] == ((nstars.len() - 1) as u32, nstars.last()));
            }
        }
    }
}

/// Candidates in ascending order of squared distance from the source.
pub open spec fn candidates_sorted(ss: Seq<StarSystem>, s: int, cs: Seq<(u32, u32)>) -> bool {
    forall|i: int, j: int|
        0 <= i < j < cs.len() ==> cand_key(ss, s, #[trigger] cs[i]) <= cand_key(
            ss,
            s,
            #[trigger] cs[j],
        )
}

/// Stable insertion of a candidate into a distance-sorted list.
pub open spec fn insert_candidate(
    ss: Seq<StarSystem>,
    s: int,
    sorted: Seq<(u32, u32)>,
    x: (u32, u32),
) -> Seq<(u32, u32)>
    decreases sorted.len(),
{
    if sorted.len() == 0 {
        seq![x]
    } else if cand_key(ss, s, x) < cand_key(ss, s, sorted.last()) {
        insert_candidate(ss, s, sorted.drop_last(), x).push(sorted.last())
    } else {
        sorted.push(x)
    }
}

/// Stable sort of the candidate list by ascending distance from the source.
pub open spec fn sort_candidates(ss: Seq<StarSystem>, s: int, cs: Seq<(u32, u32)>) -> Seq<
    (u32, u32),
>
    decreases cs.len(),
{
    if cs.len() == 0 {
        Seq::empty()
    } else {
        insert_candidate(ss, s, sort_candidates(ss, s, cs.drop_last()), cs.last())
    }
}

proof fn lemma_insert_candidate(ss: Seq<StarSystem>, s: int, sorted: Seq<(u32, u32)>, x: (u32, u32))
    requires
        candidates_sorted(ss, s, sorted),
    ensures
        candidates_sorted(ss, s, insert_candidate(ss, s, sorted, x)),
        insert_candidate(ss, s, sorted, x).len() == sorted.len() + 1,
        insert_candidate(ss, s, sorted, x).to_multiset() == sorted.to_multiset().insert(x),
    decreases sorted.len(),
{
    sorted.to_multiset_ensures();
    if sorted.len() == 0 {
        assert(insert_candidate(ss, s, sorted, x) =~= sorted.push(x));
        assert(sorted.push(x).to_multiset() =~= sorted.to_multiset().insert(x));
    } else if cand_key(ss, s, x) < cand_key(ss, s, sorted.last()) {
        let inner = insert_candidate(ss, s, sorted.drop_last(), x);
        assert(candidates_sorted(ss, s, sorted.drop_last())) by {
            assert(forall|i: int|
                0 <= i < sorted.drop_last().len() ==> #[trigger] sorted.drop_last()[i]
                    == sorted[i]);
        }
        lemma_insert_candidate(ss, s, sorted.drop_last(), x);
        let r = inner.push(sorted.last());
        assert forall|i: int, j: int| 0 <= i < j < r.len() implies cand_key(
            ss,
            s,
            #[trigger] r[i],
        ) <= cand_key(ss, s, #[trigger] r[j]) by {
            if j < inner.len() {
            } else {
                assert(r[j] == sorted.last());
                assert(inner.to_multiset().contains(r[i])) by {
                    inner.to_multiset_ensures();
                }
                assert(sorted.drop_last().to_multiset().insert(x).contains(r[i]));
                if r[i] == x {
                } else {
                    assert(sorted.drop_last().to_multiset().contains(r[i]));
                    sorted.drop_last().to_multiset_ensures();
                    let k = choose|k: int|
                        0 <= k < sorted.drop_last().len() && sorted.drop_last()[k] == r[i];
                    assert(sorted[k] == r[i]);
                    assert(cand_key(ss, s, sorted[k]) <= cand_key(ss, s, sorted.last()));
                }
            }
        }
        assert(r.to_multiset() =~= sorted.to_multiset().insert(x)) by {
            inner.to_multiset_ensures();
            sorted.drop_last().to_multiset_ensures();
            assert(inner.push(sorted.last()).to_multiset() =~= inner.to_multiset().insert(
                sorted.last(),
            ));
            assert(sorted.drop_last().push(sorted.last()) =~= sorted);
            assert(sorted.drop_last().push(sorted.last()).to_multiset()
                =~= sorted.drop_last().to_multiset().insert(sorted.last()));
        }
    } else {
        let r = sorted.push(x);
        assert forall|i: int, j: int| 0 <= i < j < r.len() implies cand_key(
            ss,
            s,
            #[trigger] r[i],
        ) <= cand_key(ss, s, #[trigger] r[j]) by {
            if j < sorted.len() {
            } else {
                assert(r[j] == x);
                assert(cand_key(ss, s, sorted[i]) <= cand_key(ss, s, sorted.last()));
            }
        }
        assert(sorted.push(x).to_multiset() =~= sorted.to_multiset().insert(x));
    }
}

/// The candidate sort really sorts and keeps exactly the input pairs.
pub proof fn lemma_sort_candidates(ss: Seq<StarSystem>, s: int, cs: Seq<(u32, u32)>)
    ensures
        candidates_sorted(ss, s, sort_candidates(ss, s, cs)),
        sort_candidates(ss, s, cs).len() == cs.len(),
        sort_candidates(ss, s, cs).to_multiset() == cs.to_multiset(),
    decreases cs.len(),
{
    if cs.len() == 0 {
        assert(cs =~= Seq::<(u32, u32)>::empty());
    } else {
        lemma_sort_candidates(ss, s, cs.drop_last());
        lemma_insert_candidate(ss, s, sort_candidates(ss, s, cs.drop_last()), cs.last());
        cs.drop_last().to_multiset_ensures();
        assert(cs.drop_last().push(cs.last()) =~= cs);
        assert(cs.drop_last().push(cs.last()).to_multiset() =~= cs.drop_last().to_multiset().insert(
            cs.last(),
        ));
    }
}

/// The candidate `x` belongs at position `p` of the sorted list.
proof fn lemma_candidate_position(
    ss: Seq<StarSystem>,
    s: int,
    sorted: Seq<(u32, u32)>,
    x: (u32, u32),
    p: int,
)
    requires
        candidates_sorted(ss, s, sorted),
        0 <= p <= sorted.len(),
        forall|i: int| 0 <= i < p ==> cand_key(ss, s, #[trigger] sorted[i]) <= cand_key(ss, s, x),
        forall|i: int|
            p <= i < sorted.len() ==> cand_key(ss, s, #[trigger] sorted[i]) > cand_key(ss, s, x),
    ensures
        insert_candidate(ss, s, sorted, x) == sorted.take(p) + seq![x] + sorted.skip(p),
    decreases sorted.len(),
{
    if sorted.len() == 0 {
        assert(insert_candidate(ss, s, sorted, x) =~= sorted.take(p) + seq![x] + sorted.skip(p));
    } else if p == sorted.len() {
        assert(!(cand_key(ss, s, x) < cand_key(ss, s, sorted.last())));
        assert(sorted.push(x) =~= sorted.take(p) + seq![x] + sorted.skip(p));
    } else {
        assert(cand_key(ss, s, sorted.last()) > cand_key(ss, s, x));
        assert(candidates_sorted(ss, s, sorted.drop_last())) by {
            assert(forall|i: int|
                0 <= i < sorted.drop_last().len() ==> #[trigger] sorted.drop_last()[i]
                    == sorted[i]);
        }
        assert(forall|i: int|
            0 <= i < p ==> cand_key(ss, s, #[trigger] sorted.drop_last()[i]) <= cand_key(ss, s, x));
        assert(forall|i: int|
            p <= i < sorted.drop_last().len() ==> cand_key(ss, s, #[trigger] sorted.drop_last()[i])
                > cand_key(ss, s, x));
        lemma_candidate_position(ss, s, sorted.drop_last(), x, p);
        assert((sorted.drop_last().take(p) + seq![x] + sorted.drop_last().skip(p)).push(
            sorted.last(),
        ) =~= sorted.take(p) + seq![x] + sorted.skip(p));
    }
}

/// The admitted neighbor `u` (a neutron-sequence position) dominates the
/// candidate at global index `t` with respect to the source `s`: `u` sits
/// strictly closer to `t` than `s` does.
pub open spec fn dominates(ss: Seq<StarSystem>, nstars: Seq<u32>, u: u32, t: u32, s: u32) -> bool {
    sq_dist_spec(ss[t as int].coords, ss[nstars[u as int] as int].coords) < sq_dist_spec(
        ss[s as int].coords,
        ss[t as int].coords,
    )
}

/// The admission walk over distance-sorted candidates, accumulating admitted
/// neighbors (as neutron-sequence positions) into `acc`.
pub open spec fn admit_walk(
    ss: Seq<StarSystem>,
    nstars: Seq<u32>,
    s: u32,
    cands: Seq<(u32, u32)>,
    acc: Seq<u32>,
    d: int,
) -> Seq<u32>
    decreases cands.len(),
{
    if cands.len() == 0 {
        acc
    } else {
        let c = cands.first();
        let rest = cands.drop_first();
        if c.1 == s {
            admit_walk(ss, nstars, s, rest, acc, d)
        } else if sq_dist_spec(ss[s as int].coords, ss[c.1 as int].coords) <= d * d {
            admit_walk(ss, nstars, s, rest, acc.push(c.0), d)
        } else if exists|j: int| 0 <= j < acc.len() && dominates(ss, nstars, acc[j], c.1, s) {
            admit_walk(ss, nstars, s, rest, acc, d)
        } else {
            admit_walk(ss, nstars, s, rest, acc.push(c.0), d)
        }
    }
}

/// Every admitted neighbor is either within one base-range jump of the
/// source, or not dominated by any neighbor admitted before it.
pub open spec fn dominance_free(
    ss: Seq<StarSystem>,
    nstars: Seq<u32>,
    s: u32,
    nb: Seq<u32>,
    d: int,
) -> bool {
    forall|m: int|
        0 <= m < nb.len() ==> {
            let t = nstars[#[trigger] nb[m] as int];
            ||| sq_dist_spec(ss[s as int].coords, ss[t as int].coords) <= d * d
            ||| forall|j: int| 0 <= j < m ==> !dominates(ss, nstars, #[trigger] nb[j], t, s)
        }
}

/// The neighbor list ascends by squared distance from the source: admission
/// order is distance order.
pub open spec fn neighbors_by_distance(
    ss: Seq<StarSystem>,
    nstars: Seq<u32>,
    s: u32,
    nb: Seq<u32>,
) -> bool {
    forall|i: int, j: int|
        0 <= i < j < nb.len() ==> sq_dist_spec(
            ss[s as int].coords,
            ss[nstars[#[trigger] nb[i] as int] as int].coords,
        ) <= sq_dist_spec(ss[s as int].coords, ss[nstars[#[trigger] nb[j] as int] as int].coords)
}

/// Walking distance-sorted candidates admits neighbors in distance order.
pub proof fn lemma_admit_walk_ordered(
    ss: Seq<StarSystem>,
    nstars: Seq<u32>,
    s: u32,
    cands: Seq<(u32, u32)>,
    acc: Seq<u32>,
    d: int,
)
    requires
        candidates_sorted(ss, s as int, cands),
        forall|i: int|
            0 <= i < cands.len() ==> ((#[trigger] cands[i]).0 as int) < nstars.len()
                && nstars[cands[i].0 as int] == cands[i].1,
        neighbors_by_distance(ss, nstars, s, acc),
        forall|i: int, j: int|
            0 <= i < acc.len() && 0 <= j < cands.len() ==> sq_dist_spec(
                ss[s as int].coords,
                ss[nstars[#[trigger] acc[i] as int] as int].coords,
            ) <= cand_key(ss, s as int, #[trigger] cands[j]),
    ensures
        neighbors_by_distance(ss, nstars, s, admit_walk(ss, nstars, s, cands, acc, d)),
    decreases cands.len(),
{
    if cands.len() == 0 {
    } else {
        let c = cands.first();
        let rest = cands.drop_first();
        assert(cands[0] == c);
        assert(forall|i: int| 0 <= i < rest.len() ==> #[trigger] rest[i] == cands[i + 1]);
        let keep = c.1 == s || (!(sq_dist_spec(ss[s as int].coords, ss[c.1 as int].coords) <= d
            * d) && exists|j: int| 0 <= j < acc.len() && dominates(ss, nstars, acc[j], c.1, s));
        if keep {
            lemma_admit_walk_ordered(ss, nstars, s, rest, acc, d);
        } else {
            let acc2 = acc.push(c.0);
            assert(neighbors_by_distance(ss, nstars, s, acc2)) by {
                assert forall|i: int, j: int| 0 <= i < j < acc2.len() implies sq_dist_spec(
                    ss[s as int].coords,
                    ss[nstars[#[trigger] acc2[i] as int] as int].coords,
                ) <= sq_dist_spec(
                    ss[s as int].coords,
                    ss[nstars[#[trigger] acc2[j] as int] as int].coords,
                ) by {
                    if j < acc.len() {
                        assert(acc2[i] == acc[i] && acc2[j] == acc[j]);
                    } else {
                        assert(acc2[i] == acc[i] && acc2[j] == c.0);
                        assert(sq_dist_spec(
                            ss[s as int].coords,
                            ss[nstars[acc[i] as int] as int].coords,
                        ) <= cand_key(ss, s as int, cands[0]));
                    }
                }
            }
            assert forall|i: int, j: int|
                0 <= i < acc2.len() && 0 <= j < rest.len() implies sq_dist_spec(
                ss[s as int].coords,
                ss[nstars[#[trigger] acc2[i] as int] as int].coords,
            ) <= cand_key(ss, s as int, #[trigger] rest[j]) by {
                assert(rest[j] == cands[j + 1]);
                if i < acc.len() {
                    assert(acc2[i] == acc[i]);
                } else {
                    assert(acc2[i] == c.0);
                    assert(cand_key(ss, s as int, cands[0]) <= cand_key(ss, s as int, cands[j + 1]));
                }
            }
            lemma_admit_walk_ordered(ss, nstars, s, rest, acc2, d);
        }
    }
}

/// The admission walk only appends, keeps positions in range, and keeps the
/// accumulated list dominance-free.
pub proof fn lemma_admit_walk(
    ss: Seq<StarSystem>,
    nstars: Seq<u32>,
    s: u32,
    cands: Seq<(u32, u32)>,
    acc: Seq<u32>,
    d: int,
)
    requires
        forall|i: int|
            0 <= i < cands.len() ==> ((#[trigger] cands[i]).0 as int) < nstars.len()
                && nstars[cands[i].0 as int] == cands[i].1,
        forall|i: int| 0 <= i < acc.len() ==> (#[trigger] acc[i] as int) < nstars.len(),
        dominance_free(ss, nstars, s, acc, d),
    ensures
        forall|i: int|
            0 <= i < admit_walk(ss, nstars, s, cands, acc, d).len() ==> (#[trigger] admit_walk(
                ss,
                nstars,
                s,
                cands,
                acc,
                d,
            )[i] as int) < nstars.len(),
        dominance_free(ss, nstars, s, admit_walk(ss, nstars, s, cands, acc, d), d),
    decreases cands.len(),
{
    if cands.len() == 0 {
    } else {
        let c = cands.first();
        let rest = cands.drop_first();
        assert(forall|i: int|
            0 <= i < rest.len() ==> #[trigger] rest[i] == cands[i + 1]);
        if c.1 == s {
            lemma_admit_walk(ss, nstars, s, rest, acc, d);
        } else if sq_dist_spec(ss[s as int].coords, ss[c.1 as int].coords) <= d * d {
            let acc2 = acc.push(c.0);
            assert(cands[0] == c);
            assert(dominance_free(ss, nstars, s, acc2, d)) by {
                assert forall|m: int| 0 <= m < acc2.len() implies {
                    let t = nstars[#[trigger] acc2[m] as int];
                    ||| sq_dist_spec(ss[s as int].coords, ss[t as int].coords) <= d * d
                    ||| forall|j: int| 0 <= j < m ==> !dominates(ss, nstars, #[trigger] acc2[j], t, s)
                } by {
                    if m < acc.len() {
                        assert(acc2[m] == acc[m]);
                        assert(forall|j: int| 0 <= j < m ==> #[trigger] acc2[j] == acc[j]);
                    } else {
                        assert(acc2[m] == c.0);
                        assert(nstars[c.0 as int] == c.1);
                    }
                }
            }
            lemma_admit_walk(ss, nstars, s, rest, acc2, d);
        } else if exists|j: int| 0 <= j < acc.len() && dominates(ss, nstars, acc[j], c.1, s) {
            lemma_admit_walk(ss, nstars, s, rest, acc, d);
        } else {
            let acc2 = acc.push(c.0);
            assert(cands[0] == c);
            assert(dominance_free(ss, nstars, s, acc2, d)) by {
                assert forall|m: int| 0 <= m < acc2.len() implies {
                    let t = nstars[#[trigger] acc2[m] as int];
                    ||| sq_dist_spec(ss[s as int].coords, ss[t as int].coords) <= d * d
                    ||| forall|j: int| 0 <= j < m ==> !dominates(ss, nstars, #[trigger] acc2[j], t, s)
                } by {
                    if m < acc.len() {
                        assert(acc2[m] == acc[m]);
                        assert(forall|j: int| 0 <= j < m ==> #[trigger] acc2[j] == acc[j]);
                    } else {
                        assert(acc2[m] == c.0);
                        assert(nstars[c.0 as int] == c.1);
                        assert forall|j: int| 0 <= j < m implies !dominates(
                            ss,
                            nstars,
                            #[trigger] acc2[j],
                            nstars[acc2[m] as int],
                            s,
                        ) by {
                            assert(acc2[j] == acc[j]);
                            assert(!(exists|jj: int|
                                0 <= jj < acc.len() && dominates(ss, nstars, acc[jj], c.1, s)));
                        }
                    }
                }
            }
            lemma_admit_walk(ss, nstars, s, rest, acc2, d);
        }
    }
}

/// Collects the global indices of the neutron systems, in catalog order.
pub fn neutron_star_indices(systems: &Vec<StarSystem>) -> (r: Vec<u32>)
    requires
        systems@.len() <= 0xffff_ffff,
    ensures
        r@ == neutron_indices(systems@),
{
    let mut r: Vec<u32> = Vec::new();
    let mut i: usize = 0;
    while i < systems.len()
        invariant
            i <= systems@.len(),
            systems@.len() <= 0xffff_ffff,
            r@ == neutron_indices(systems@.take(i as int)),
        decreases systems@.len() - i,
    {
        proof {
            assert(systems@.take(i + 1).drop_last() =~= systems@.take(i as int));
            assert(systems@.take(i + 1).last() == systems@[i as int]);
        }
        if systems[i].is_neutron {
            r.push(i as u32);
        }
        i = i + 1;
    }
    proof {
        assert(systems@.take(systems@.len() as int) =~= systems@);
    }
    r
}

/// Builds the pruned neighbor entry for the neutron at position `k` of the
/// neutron sequence: candidates below the cutoff, sorted by distance, walked
/// under the admission rule.
pub fn make_neutron_entry(
    systems: &Vec<StarSystem>,
    neutron_stars: &Vec<u32>,
    k: usize,
    max_jump_distance: u64,
) -> (r: NeutronStarSystem)
    requires
        systems_wf(systems@),
        neutron_stars@ == neutron_indices(systems@),
        (k as int) < neutron_stars@.len(),
        1 <= max_jump_distance <= MAX_JUMP_DISTANCE,
    ensures
        r.idx == neutron_stars@[k as int],
        r.neighbors@ == admit_walk(
            systems@,
            neutron_stars@,
            neutron_stars@[k as int],
            sort_candidates(
                systems@,
                neutron_stars@[k as int] as int,
                candidate_list(systems@, neutron_stars@, neutron_stars@[k as int] as int),
            ),
            Seq::empty(),
            max_jump_distance as int,
        ),
        forall|i: int|
            0 <= i < r.neighbors@.len() ==> (#[trigger] r.neighbors@[i] as int)
                < neutron_stars@.len(),
        dominance_free(
            systems@,
            neutron_stars@,
            r.idx,
            r.neighbors@,
            max_jump_distance as int,
        ),
        neighbors_by_distance(systems@, neutron_stars@, r.idx, r.neighbors@),
{
    let ghost ss = systems@;
    let ghost nst = neutron_stars@;
    let ghost d = max_jump_distance as int;
    let s_idx = neutron_stars[k];
    proof {
        lemma_neutron_indices(ss);
    }
    let ghost si = s_idx as int;
    // Gather the candidates below the cutoff, in neutron-sequence order.
    let mut cands: Vec<(u32, u32)> = Vec::new();
    let mut m: usize = 0;
    while m < neutron_stars.len()
        invariant
            ss == systems@,
            nst == neutron_stars@,
            systems_wf(ss),
            nst == neutron_indices(ss),
            forall|i: int| 0 <= i < nst.len() ==> (#[trigger] nst[i] as int) < ss.len(),
            m <= nst.len(),
            si == s_idx as int,
            si < ss.len(),
            cands@ == candidate_list(ss, nst.take(m as int), si),
        decreases nst.len() - m,
    {
        proof {
            assert(nst.take(m + 1).drop_last() =~= nst.take(m as int));
            assert(nst.take(m + 1).last() == nst[m as int]);
        }
        let gi = neutron_stars[m];
        let sq = sq_dist(systems[s_idx as usize].coords, systems[gi as usize].coords);
        if sq < MAX_DISTANCE * MAX_DISTANCE {
            cands.push((m as u32, gi));
        }
        m = m + 1;
    }
    proof {
        assert(nst.take(nst.len() as int) =~= nst);
        lemma_candidate_list(ss, nst, si);
    }
    let ghost call = candidate_list(ss, nst, si);
    // Stable insertion sort by ascending squared distance from the source.
    let mut rest = cands;
    let mut sorted: Vec<(u32, u32)> = Vec::new();
    let ghost ncand = call.len() as int;
    while rest.len() > 0
        invariant
            ss == systems@,
            systems_wf(ss),
            0 <= si < ss.len(),
            si == s_idx as int,
            rest@ =~= call.skip(ncand - rest@.len() as int),
            0 <= rest@.len() <= ncand == call.len(),
            sorted@ == sort_candidates(ss, si, call.take(ncand - rest@.len() as int)),
            candidates_sorted(ss, si, sorted@),
            forall|i: int|
                0 <= i < call.len() ==> ((#[trigger] call[i]).1 as int) < ss.len(),
            forall|i: int|
                0 <= i < sorted@.len() ==> ((#[trigger] sorted@[i]).1 as int) < ss.len(),
        decreases rest@.len(),
    {
        let ghost done = ncand - rest@.len() as int;
        let x = rest.remove(0);
        proof {
            assert(rest@ =~= call.skip(done + 1));
            assert(x == call[done]);
            assert(x == call.take(done + 1).last());
            assert(call.take(done + 1).drop_last() =~= call.take(done));
        }
        let kx = sq_dist(systems[s_idx as usize].coords, systems[x.1 as usize].coords);
        let mut p: usize = sorted.len();
        while p > 0
            invariant_except_break
                ss == systems@,
                systems_wf(ss),
                0 <= si < ss.len(),
                si == s_idx as int,
                kx == cand_key(ss, si, x),
                forall|i: int|
                    0 <= i < sorted@.len() ==> ((#[trigger] sorted@[i]).1 as int) < ss.len(),
                0 <= p <= sorted@.len(),
                forall|i: int|
                    p <= i < sorted@.len() ==> cand_key(ss, si, #[trigger] sorted@[i]) > cand_key(
                        ss,
                        si,
                        x,
                    ),
            ensures
                0 <= p <= sorted@.len(),
                forall|i: int|
                    p <= i < sorted@.len() ==> cand_key(ss, si, #[trigger] sorted@[i]) > cand_key(
                        ss,
                        si,
                        x,
                    ),
                p > 0 ==> cand_key(ss, si, sorted@[p - 1]) <= cand_key(ss, si, x),
            decreases p,
        {
            let kp = sq_dist(
                systems[s_idx as usize].coords,
                systems[sorted[p - 1].1 as usize].coords,
            );
            if kp <= kx {
                break ;
            }
            p = p - 1;
        }
        proof {
            assert(forall|i: int|
                0 <= i < p ==> cand_key(ss, si, #[trigger] sorted@[i]) <= cand_key(ss, si, x)) by {
                if p > 0 {
                    assert(forall|i: int|
                        0 <= i < p ==> cand_key(ss, si, #[trigger] sorted@[i]) <= cand_key(
                            ss,
                            si,
                            sorted@[p - 1],
                        ));
                }
            }
            lemma_candidate_position(ss, si, sorted@, x, p as int);
            lemma_insert_candidate(ss, si, sorted@, x);
        }
        let ghost pre = sorted@;
        sorted.insert(p, x);
        proof {
            assert(sorted@ =~= pre.take(p as int) + seq![x] + pre.skip(p as int));
            assert(sorted@ == insert_candidate(ss, si, pre, x));
            assert(sorted@ == sort_candidates(ss, si, call.take(done + 1)));
            assert forall|i: int| 0 <= i < sorted@.len() implies ((#[trigger] sorted@[i]).1 as int)
                < ss.len() by {
                if i < p {
                    assert(sorted@[i] == pre[i]);
                } else if i == p {
                    assert(sorted@[i] == x);
                } else {
                    assert(sorted@[i] == pre[i - 1]);
                }
            }
        }
    }
    proof {
        assert(call.take(ncand) =~= call);
    }
    let ghost sorted_all = sorted@;
    // The admission walk over the sorted candidates.
    proof {
        assert(max_jump_distance * max_jump_distance <= 0x1_0000_0000_0000) by (nonlinear_arith)
            requires
                0 <= max_jump_distance <= 0x100_0000,
        ;
        lemma_sort_candidates(ss, si, call);
    }
    let dd: u64 = max_jump_distance * max_jump_distance;
    let mut nbrs: Vec<u32> = Vec::new();
    let mut i: usize = 0;
    proof {
        // Every sorted candidate names its neutron-sequence position.
        assert forall|j: int| 0 <= j < sorted_all.len() implies {
            let c = #[trigger] sorted_all[j];
            &&& (c.0 as int) < nst.len()
            &&& nst[c.0 as int] == c.1
        } by {
            sorted_all.to_multiset_ensures();
            call.to_multiset_ensures();
            assert(sorted_all.to_multiset().contains(sorted_all[j]));
            assert(call.to_multiset().contains(sorted_all[j]));
            let jj = choose|jj: int| 0 <= jj < call.len() && call[jj] == sorted_all[j];
            assert(call[jj] == sorted_all[j]);
        }
        assert(sorted_all.skip(0) =~= sorted_all);
    }
    while i < sorted.len()
        invariant
            ss == systems@,
            systems_wf(ss),
            nst == neutron_stars@,
            forall|t: int| 0 <= t < nst.len() ==> (#[trigger] nst[t] as int) < ss.len(),
            0 <= si < ss.len(),
            si == s_idx as int,
            d == max_jump_distance as int,
            dd == max_jump_distance * max_jump_distance,
            1 <= max_jump_distance <= MAX_JUMP_DISTANCE,
            i <= sorted@.len(),
            sorted@ == sorted_all,
            forall|j: int|
                0 <= j < sorted_all.len() ==> ((#[trigger] sorted_all[j]).0 as int) < nst.len()
                    && nst[sorted_all[j].0 as int] == sorted_all[j].1,
            admit_walk(ss, nst, s_idx, sorted_all, Seq::empty(), d) == admit_walk(
                ss,
                nst,
                s_idx,
                sorted_all.skip(i as int),
                nbrs@,
                d,
            ),
            forall|j: int| 0 <= j < nbrs@.len() ==> (#[trigger] nbrs@[j] as int) < nst.len(),
        decreases sorted@.len() - i,
    {
        let c = sorted[i];
        proof {
            assert(sorted_all.skip(i as int).first() == sorted_all[i as int]);
            assert(sorted_all.skip(i as int).drop_first() =~= sorted_all.skip(i + 1));
        }
        if c.1 == s_idx {
            // the source itself is never its own neighbor
        } else {
            let sq_st = sq_dist(systems[s_idx as usize].coords, systems[c.1 as usize].coords);
            if sq_st <= dd {
                nbrs.push(c.0);
            } else {
                let mut dominated = false;
                let mut j: usize = 0;
                while j < nbrs.len() && !dominated
                    invariant
                        ss == systems@,
                        systems_wf(ss),
                        nst == neutron_stars@,
                        forall|t: int| 0 <= t < nst.len() ==> (#[trigger] nst[t] as int) < ss.len(),
                        0 <= si < ss.len(),
                        si == s_idx as int,
                        (c.1 as int) < ss.len(),
                        sq_st == sq_dist_spec(ss[si].coords, ss[c.1 as int].coords),
                        j <= nbrs@.len(),
                        forall|t: int|
                            0 <= t < nbrs@.len() ==> (#[trigger] nbrs@[t] as int) < nst.len(),
                        dominated ==> exists|t: int|
                            0 <= t < nbrs@.len() && dominates(ss, nst, nbrs@[t], c.1, s_idx),
                        !dominated ==> forall|t: int|
                            0 <= t < j ==> !dominates(ss, nst, #[trigger] nbrs@[t], c.1, s_idx),
                    decreases nbrs@.len() - j, (if dominated { 0int } else { 1int }),
                {
                    let u_g = neutron_stars[nbrs[j] as usize];
                    let sq_tu = sq_dist(systems[c.1 as usize].coords, systems[u_g as usize].coords);
                    if sq_tu < sq_st {
                        dominated = true;
                    } else {
                        j = j + 1;
                    }
                }
                proof {
                    assert(dominated == (exists|t: int|
                        0 <= t < nbrs@.len() && dominates(ss, nst, nbrs@[t], c.1, s_idx)));
                }
                if !dominated {
                    nbrs.push(c.0);
                }
            }
        }
        i = i + 1;
    }
    proof {
        assert(sorted_all.skip(sorted_all.len() as int) =~= Seq::<(u32, u32)>::empty());
        lemma_admit_walk(ss, nst, s_idx, sorted_all, Seq::empty(), d);
        lemma_admit_walk_ordered(ss, nst, s_idx, sorted_all, Seq::empty(), d);
    }
    NeutronStarSystem { idx: s_idx, neighbors: nbrs }
}

/// Builds one pruned neighbor entry per neutron, in neutron-sequence order.
/// The result satisfies the adjacency invariant the long-range router
/// requires, and every entry's neighbor list obeys the dominance rule.
pub fn make_neutron_star_systems(systems: &Vec<StarSystem>, max_jump_distance: u64) -> (r: Vec<
    NeutronStarSystem,
>)
    requires
        systems_wf(systems@),
        1 <= max_jump_distance <= MAX_JUMP_DISTANCE,
    ensures
        r@.len() == neutron_indices(systems@).len(),
        forall|k: int|
            0 <= k < r@.len() ==> {
                let nst = neutron_indices(systems@);
                &&& (#[trigger] r@[k]).idx == nst[k]
                &&& r@[k].neighbors@ == admit_walk(
                    systems@,
                    nst,
                    nst[k],
                    sort_candidates(
                        systems@,
                        nst[k] as int,
                        candidate_list(systems@, nst, nst[k] as int),
                    ),
                    Seq::empty(),
                    max_jump_distance as int,
                )
                &&& dominance_free(systems@, nst, nst[k], r@[k].neighbors@, max_jump_distance as int)
                &&& neighbors_by_distance(systems@, nst, nst[k], r@[k].neighbors@)
            },
        neutrons_wf(systems@, r@),
{
    let ghost ss = systems@;
    let ghost nst = neutron_indices(ss);
    let neutron_stars = neutron_star_indices(systems);
    proof {
        lemma_neutron_indices(ss);
    }
    let mut retval: Vec<NeutronStarSystem> = Vec::new();
    let mut k: usize = 0;
    while k < neutron_stars.len()
        invariant
            ss == systems@,
            systems_wf(ss),
            nst == neutron_indices(ss),
            neutron_stars@ == nst,
            1 <= max_jump_distance <= MAX_JUMP_DISTANCE,
            k <= nst.len(),
            retval@.len() == k,
            forall|t: int|
                0 <= t < retval@.len() ==> {
                    &&& (#[trigger] retval@[t]).idx == nst[t]
                    &&& retval@[t].neighbors@ == admit_walk(
                        ss,
                        nst,
                        nst[t],
                        sort_candidates(ss, nst[t] as int, candidate_list(ss, nst, nst[t] as int)),
                        Seq::empty(),
                        max_jump_distance as int,
                    )
                    &&& dominance_free(
                        ss,
                        nst,
                        nst[t],
                        retval@[t].neighbors@,
                        max_jump_distance as int,
                    )
                    &&& neighbors_by_distance(ss, nst, nst[t], retval@[t].neighbors@)
                    &&& forall|j: int|
                        0 <= j < retval@[t].neighbors@.len() ==> (#[trigger] retval@[t].neighbors@[
                        j] as int) < nst.len()
                },
        decreases nst.len() - k,
    {
        let e = make_neutron_entry(systems, &neutron_stars, k, max_jump_distance);
        retval.push(e);
        k = k + 1;
    }
    proof {
        lemma_neutron_indices(ss);
        assert(neutrons_wf(ss, retval@)) by {
            assert(retval@.len() == nst.len());
            assert(nst.len() <= ss.len());
            assert forall|t: int| 0 <= t < retval@.len() implies {
                &&& ((#[trigger] retval@[t]).idx as int) < ss.len()
                &&& ss[retval@[t].idx as int].is_neutron
                &&& forall|j: int|
                    0 <= j < retval@[t].neighbors.len() ==> (#[trigger] retval@[t].neighbors[j]
                        as int) < retval@.len()
            } by {
                assert(retval@[t].idx == nst[t]);
            }
            assert forall|t: int, l: int| 0 <= t < l < retval@.len() implies (
            #[trigger] retval@[t]).idx < (#[trigger] retval@[l]).idx by {
                assert(retval@[t].idx == nst[t] && retval@[l].idx == nst[l]);
            }
        }
    }
    retval
}

} // verus!
