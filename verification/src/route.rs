//! The local router: A* between two arbitrary systems, driven by
//! jumps-then-distance scores.
//!
//! Neighbors of a system are enumerated by walking the catalog upward and
//! downward from the system's position in the distance-from-origin order,
//! stopping as soon as the one-dimensional distance bound fails.  The
//! downward walk deliberately uses an exclusive upper bound that skips the
//! record immediately below the source; the on-disk catalogs were built
//! against that behavior, so it is kept.
//!
//! The search keeps the canonical stale-entry pattern: relaxations push new
//! entries, pops whose score no longer matches the stored score are skipped,
//! and a popped node is closed and never re-opened.

use vstd::pervasive::VecAdditionalExecFns;
use vstd::prelude::*;

use crate::geometry::{
    ceil_div, ceil_div_spec, dist_ceil, distance_v, lemma_dist_ceil, sq_dist, sq_dist_spec,
    MAX_DIST,
};
use crate::score::{hs_lt, HScore};
use crate::system::{system_wf, systems_wf, StarSystem, DFS_LIMIT};

verus! {

/// Largest jump-distance parameter the routers accept.
pub const MAX_JUMP_DISTANCE: u64 = 0x40_0000;

/// Range of a jump out of `s`: the base range, boosted fourfold when `s` is
/// a neutron star.
pub open spec fn effective_range(s: StarSystem, d: int) -> int {
    if s.is_neutron {
        4 * d
    } else {
        d
    }
}

/// The hop from `ss[u]` to `ss[v]` is within `ss[u]`'s effective range.
pub open spec fn valid_jump(ss: Seq<StarSystem>, u: int, v: int, d: int) -> bool {
    sq_dist_spec(ss[u].coords, ss[v].coords) <= effective_range(ss[u], d) * effective_range(
        ss[u],
        d,
    )
}

/// A returned route: starts at `start`, ends at `goal`, every index in
/// bounds, and every consecutive hop within the source hop's effective range.
pub open spec fn valid_route(
    ss: Seq<StarSystem>,
    path: Seq<u32>,
    start: u32,
    goal: u32,
    d: int,
) -> bool {
    &&& path.len() >= 1
    &&& path[0] == start
    &&& path.last() == goal
    &&& forall|i: int| 0 <= i < path.len() ==> (#[trigger] path[i]) < ss.len()
    &&& forall|i: int|
        0 <= i < path.len() - 1 ==> valid_jump(ss, #[trigger] path[i] as int, path[i + 1] as int, d)
}

/// The upward neighbor walk from position `j`: candidates in catalog order
/// until one lies more than `eff` farther from the origin than the source.
pub open spec fn scan_up(ss: Seq<StarSystem>, s: int, eff: int, j: int) -> Seq<u32>
    decreases ss.len() - j,
{
    if j < 0 || j >= ss.len() {
        Seq::empty()
    } else if ss[j].distance_from_sol > ss[s].distance_from_sol + eff {
        Seq::empty()
    } else if sq_dist_spec(ss[s].coords, ss[j].coords) <= eff * eff {
        seq![j as u32] + scan_up(ss, s, eff, j + 1)
    } else {
        scan_up(ss, s, eff, j + 1)
    }
}

/// The downward neighbor walk from position `j` toward the origin.
pub open spec fn scan_down(ss: Seq<StarSystem>, s: int, eff: int, j: int) -> Seq<u32>
    decreases j + 1,
{
    if j < 0 || j >= ss.len() {
        Seq::empty()
    } else if ss[j].distance_from_sol + eff < ss[s].distance_from_sol {
        Seq::empty()
    } else if sq_dist_spec(ss[s].coords, ss[j].coords) <= eff * eff {
        seq![j as u32] + scan_down(ss, s, eff, j - 1)
    } else {
        scan_down(ss, s, eff, j - 1)
    }
}

/// All neighbors of `ss[s]` reachable in one jump of base range `d`, in the
/// order the two walks emit them.  The downward walk starts at `s - 2`: the
/// record at `s - 1` is skipped (see the module note).
pub open spec fn neighbor_list(ss: Seq<StarSystem>, s: int, d: int) -> Seq<u32> {
    let eff = effective_range(ss[s], d);
    scan_up(ss, s, eff, s + 1) + scan_down(ss, s, eff, s - 2)
}

/// Enumerates the one-jump neighbors of `systems[system_idx]`.
pub fn neighbors(systems: &Vec<StarSystem>, system_idx: u32, jump_distance: u64) -> (r: Vec<u32>)
    requires
        systems_wf(systems@),
        (system_idx as int) < systems@.len(),
        1 <= jump_distance <= MAX_JUMP_DISTANCE,
    ensures
        r@ == neighbor_list(systems@, system_idx as int, jump_distance as int),
        forall|k: int|
            0 <= k < r@.len() ==> (#[trigger] r@[k] as int) < systems@.len() && valid_jump(
                systems@,
                system_idx as int,
                r@[k] as int,
                jump_distance as int,
            ),
{
    let ghost ss = systems@;
    let ghost d = jump_distance as int;
    let sx = system_idx as usize;
    let s_neutron = systems[sx].is_neutron;
    let s_dfs = systems[sx].distance_from_sol;
    let eff: u64 = if s_neutron {
        jump_distance * 4
    } else {
        jump_distance
    };
    let ghost effi = effective_range(ss[sx as int], d);
    proof {
        assert(system_wf(ss[sx as int]));
        assert(eff <= 0x100_0000);
        assert(eff * eff <= 0x1_0000_0000_0000) by (nonlinear_arith)
            requires
                0 <= eff <= 0x100_0000,
        ;
    }
    let eff_sq: u64 = eff * eff;
    let mut retval: Vec<u32> = Vec::new();
    let mut j: usize = sx + 1;
    while j < systems.len() && systems[j].distance_from_sol <= s_dfs + eff
        invariant
            systems_wf(ss),
            ss == systems@,
            sx < ss.len(),
            sx + 1 <= j <= ss.len(),
            eff == effi,
            eff <= 0x100_0000,
            eff_sq == effi * effi,
            effi == effective_range(ss[sx as int], d),
            d == jump_distance as int,
            s_dfs <= DFS_LIMIT,
            s_dfs == ss[sx as int].distance_from_sol,
            retval@ + scan_up(ss, sx as int, effi, j as int) == scan_up(
                ss,
                sx as int,
                effi,
                sx + 1,
            ),
            forall|k: int|
                0 <= k < retval@.len() ==> (#[trigger] retval@[k] as int) < ss.len() && valid_jump(
                    ss,
                    sx as int,
                    retval@[k] as int,
                    d,
                ),
        decreases ss.len() - j,
    {
        let sq = sq_dist(systems[sx].coords, systems[j].coords);
        let ghost pre = retval@;
        if sq <= eff_sq {
            retval.push(j as u32);
            proof {
                assert(scan_up(ss, sx as int, effi, j as int) == seq![j as u32] + scan_up(
                    ss,
                    sx as int,
                    effi,
                    j + 1,
                ));
                assert(retval@ + scan_up(ss, sx as int, effi, j + 1) =~= pre + scan_up(
                    ss,
                    sx as int,
                    effi,
                    j as int,
                ));
            }
        } else {
            proof {
                assert(scan_up(ss, sx as int, effi, j as int) == scan_up(
                    ss,
                    sx as int,
                    effi,
                    j + 1,
                ));
            }
        }
        j = j + 1;
    }
    proof {
        assert(scan_up(ss, sx as int, effi, j as int) =~= Seq::<u32>::empty());
        assert(retval@ =~= scan_up(ss, sx as int, effi, sx + 1));
    }
    let ghost up_total = retval@;
    if sx >= 2 {
        let mut k: usize = sx - 1;
        while k > 0 && systems[k - 1].distance_from_sol + eff >= s_dfs
            invariant
                systems_wf(ss),
                ss == systems@,
                sx < ss.len(),
                2 <= sx,
                0 <= k <= sx - 1,
                eff == effi,
                eff <= 0x100_0000,
                eff_sq == effi * effi,
                effi == effective_range(ss[sx as int], d),
                d == jump_distance as int,
                s_dfs <= DFS_LIMIT,
                s_dfs == ss[sx as int].distance_from_sol,
                retval@ + scan_down(ss, sx as int, effi, k - 1) == up_total + scan_down(
                    ss,
                    sx as int,
                    effi,
                    sx - 2,
                ),
                forall|m: int|
                    0 <= m < retval@.len() ==> (#[trigger] retval@[m] as int) < ss.len()
                        && valid_jump(ss, sx as int, retval@[m] as int, d),
            decreases k,
        {
            let sq = sq_dist(systems[sx].coords, systems[k - 1].coords);
            let ghost pre = retval@;
            if sq <= eff_sq {
                retval.push((k - 1) as u32);
                proof {
                    assert(scan_down(ss, sx as int, effi, k - 1) == seq![(k - 1) as u32]
                        + scan_down(ss, sx as int, effi, k - 2));
                    assert(retval@ + scan_down(ss, sx as int, effi, k - 2) =~= pre + scan_down(
                        ss,
                        sx as int,
                        effi,
                        k - 1,
                    ));
                }
            } else {
                proof {
                    assert(scan_down(ss, sx as int, effi, k - 1) == scan_down(
                        ss,
                        sx as int,
                        effi,
                        k - 2,
                    ));
                }
            }
            k = k - 1;
        }
        proof {
            assert(scan_down(ss, sx as int, effi, k - 1) =~= Seq::<u32>::empty());
            assert(retval@ =~= up_total + scan_down(ss, sx as int, effi, sx - 2));
        }
    } else {
        proof {
            assert(scan_down(ss, sx as int, effi, sx - 2) =~= Seq::<u32>::empty());
            assert(retval@ =~= up_total + scan_down(ss, sx as int, effi, sx - 2));
        }
    }
    retval
}

/// A walk through the enumerated-neighbor graph: every hop goes to one of
/// the source's emitted neighbors, so the preserved downward-walk skip is
/// part of the graph.
pub open spec fn graph_path(ss: Seq<StarSystem>, p: Seq<u32>, d: int) -> bool {
    &&& p.len() >= 1
    &&& forall|i: int| 0 <= i < p.len() ==> (#[trigger] p[i] as int) < ss.len()
    &&& forall|i: int|
        0 <= i < p.len() - 1 ==> neighbor_list(ss, #[trigger] p[i] as int, d).contains(p[i + 1])
}

/// The goal can be reached from the start along enumerated-neighbor hops.
pub open spec fn reachable(ss: Seq<StarSystem>, start: u32, goal: u32, d: int) -> bool {
    exists|p: Seq<u32>| graph_path(ss, p, d) && p.first() == start && p.last() == goal
}

/// Every neighbor of a closed node has been scored: the search never
/// abandons a frontier it has touched.
pub(crate) open spec fn closed_neighbors_seen(
    ss: Seq<StarSystem>,
    d: int,
    h: Seq<Option<HScore>>,
    closed: Seq<bool>,
) -> bool {
    forall|u: int, k: int|
        0 <= u < ss.len() && closed[u] && 0 <= k < neighbor_list(ss, u, d).len() && ((
        #[trigger] neighbor_list(ss, u, d)[k]) as int) < ss.len() ==> h[neighbor_list(
            ss,
            u,
            d,
        )[k] as int] is Some
}

/// Along any graph path whose first node is scored, if every scored node is
/// closed and closed nodes have scored neighbors, the last node is scored.
pub(crate) proof fn lemma_path_seen(
    ss: Seq<StarSystem>,
    d: int,
    p: Seq<u32>,
    h: Seq<Option<HScore>>,
    closed: Seq<bool>,
)
    requires
        h.len() == ss.len(),
        closed.len() == ss.len(),
        graph_path(ss, p, d),
        h[p.first() as int] is Some,
        forall|w: int| 0 <= w < ss.len() && (#[trigger] h[w]) is Some ==> closed[w],
        closed_neighbors_seen(ss, d, h, closed),
    ensures
        h[p.last() as int] is Some,
    decreases p.len(),
{
    if p.len() > 1 {
        assert(closed[p[0] as int]);
        assert(neighbor_list(ss, p[0] as int, d).contains(p[1]));
        let k = choose|k: int|
            0 <= k < neighbor_list(ss, p[0] as int, d).len() && neighbor_list(
                ss,
                p[0] as int,
                d,
            )[k] == p[1];
        assert((neighbor_list(ss, p[0] as int, d)[k] as int) < ss.len());
        assert(h[neighbor_list(ss, p[0] as int, d)[k] as int] is Some);
        let q = p.drop_first();
        assert(graph_path(ss, q, d)) by {
            assert(forall|i: int| 0 <= i < q.len() ==> #[trigger] q[i] == p[i + 1]);
            assert forall|i: int| 0 <= i < q.len() - 1 implies neighbor_list(
                ss,
                #[trigger] q[i] as int,
                d,
            ).contains(q[i + 1]) by {
                assert(q[i] == p[i + 1] && q[i + 1] == p[i + 2]);
            }
        }
        assert(q.first() == p[1]);
        lemma_path_seen(ss, d, q, h, closed);
        assert(q.last() == p.last());
    }
}

/// After `swap_remove`, every entry other than the removed one is still
/// present.
pub(crate) proof fn lemma_swap_remove_keeps<T>(pre: Seq<T>, post: Seq<T>, best: int, v: T)
    requires
        0 <= best < pre.len(),
        post == pre.update(best, pre.last()).drop_last(),
        v != pre[best],
        exists|i: int| 0 <= i < pre.len() && pre[i] == v,
    ensures
        exists|i: int| 0 <= i < post.len() && post[i] == v,
{
    let i = choose|i: int| 0 <= i < pre.len() && pre[i] == v;
    if i < pre.len() - 1 {
        assert(post[i] == v);
    } else {
        assert(best < i);
        assert(post[best] == v);
    }
}

/// Open-set witnesses survive a pop: after removing an entry that is either
/// for a closed node or strictly above its node's stored score, every open
/// node still has an entry carrying exactly its stored score.
pub(crate) proof fn lemma_witnesses_survive(
    n: int,
    h: Seq<Option<HScore>>,
    closed: Seq<bool>,
    pre: Seq<(HScore, u32)>,
    post: Seq<(HScore, u32)>,
    best: int,
)
    requires
        0 <= best < pre.len(),
        post == pre.update(best, pre.last()).drop_last(),
        forall|w: int|
            0 <= w < n && (#[trigger] h[w]) is Some && !closed[w] ==> exists|e: int|
                0 <= e < pre.len() && pre[e].1 == w && pre[e].0 == h[w]->0,
        closed[pre[best].1 as int] || (0 <= (pre[best].1 as int) < n && h[pre[best].1 as int] is Some
            && hs_lt(h[pre[best].1 as int]->0, pre[best].0)),
    ensures
        forall|w: int|
            0 <= w < n && (#[trigger] h[w]) is Some && !closed[w] ==> exists|e: int|
                0 <= e < post.len() && post[e].1 == w && post[e].0 == h[w]->0,
{
    assert forall|w: int| 0 <= w < n && (#[trigger] h[w]) is Some && !closed[w] implies exists|e: int|
        0 <= e < post.len() && post[e].1 == w && post[e].0 == h[w]->0 by {
        let e0 = choose|e: int| 0 <= e < pre.len() && pre[e].1 == w && pre[e].0 == h[w]->0;
        let v = pre[e0];
        assert(v != pre[best]) by {
            if v == pre[best] {
                assert(pre[best].1 == w && !closed[w]);
                assert(hs_lt(h[w]->0, pre[best].0));
                assert(pre[best].0 == h[w]->0);
            }
        }
        lemma_swap_remove_keeps(pre, post, best, v);
        let e1 = choose|e: int| 0 <= e < post.len() && post[e] == v;
        assert(post[e1].1 == w && post[e1].0 == h[w]->0);
    }
}

/// Jump count of the admissible estimate from `v` to `goal` at base range `d`.
pub open spec fn local_h_jumps(ss: Seq<StarSystem>, v: int, goal: int, d: int) -> int {
    let sq = sq_dist_spec(ss[v].coords, ss[goal].coords);
    if v == goal {
        0
    } else if ss[v].is_neutron {
        if sq <= (4 * d) * (4 * d) {
            1
        } else {
            ceil_div_spec(dist_ceil(sq) - 4 * d, d) + 1
        }
    } else {
        ceil_div_spec(dist_ceil(sq), d)
    }
}

/// Distance component of the admissible estimate from `v` to `goal`.
pub open spec fn local_h_dist(ss: Seq<StarSystem>, v: int, goal: int) -> int {
    if v == goal {
        0
    } else {
        dist_ceil(sq_dist_spec(ss[v].coords, ss[goal].coords))
    }
}

/// The local heuristic: a lower-bound (jumps, distance) estimate from `v` to
/// `goal`.  A neutron gets one boosted jump before reverting to base range.
fn h_local(systems: &Vec<StarSystem>, v: u32, goal: u32, jump_distance: u64) -> (r: HScore)
    requires
        systems_wf(systems@),
        (v as int) < systems@.len(),
        (goal as int) < systems@.len(),
        1 <= jump_distance <= MAX_JUMP_DISTANCE,
    ensures
        r.jumps == local_h_jumps(systems@, v as int, goal as int, jump_distance as int),
        r.distance == local_h_dist(systems@, v as int, goal as int),
        0 <= r.jumps <= MAX_DIST + 1,
        r.distance <= MAX_DIST,
{
    if v == goal {
        return HScore { jumps: 0, distance: 0 };
    }
    let sq = sq_dist(systems[v as usize].coords, systems[goal as usize].coords);
    let c = distance_v(systems[v as usize].coords, systems[goal as usize].coords);
    let d = jump_distance;
    if systems[v as usize].is_neutron {
        let boosted = 4 * d;
        proof {
            assert(boosted * boosted <= 0x1_0000_0000_0000) by (nonlinear_arith)
                requires
                    0 <= boosted <= 0x100_0000,
            ;
        }
        if sq <= boosted * boosted {
            HScore { jumps: 1, distance: c }
        } else {
            proof {
                lemma_dist_ceil(sq as int);
                assert(c > boosted) by (nonlinear_arith)
                    requires
                        (c as int) * (c as int) >= sq,
                        (sq as int) > (boosted as int) * (boosted as int),
                        c >= 0,
                        boosted >= 0,
                ;
            }
            let j = ceil_div(c - boosted, d) + 1;
            HScore { jumps: j as i64, distance: c }
        }
    } else {
        let j = ceil_div(c, d);
        HScore { jumps: j as i64, distance: c }
    }
}

/// Number of `false` entries: how many systems are not yet closed.
pub(crate) open spec fn count_false(s: Seq<bool>) -> int
    decreases s.len(),
{
    if s.len() == 0 {
        0
    } else {
        (if s[0] {
            0int
        } else {
            1int
        }) + count_false(s.drop_first())
    }
}

pub(crate) proof fn lemma_count_false_bounds(s: Seq<bool>)
    ensures
        0 <= count_false(s) <= s.len(),
    decreases s.len(),
{
    if s.len() > 0 {
        lemma_count_false_bounds(s.drop_first());
    }
}

pub(crate) proof fn lemma_count_false_update(s: Seq<bool>, i: int)
    requires
        0 <= i < s.len(),
        !s[i],
    ensures
        count_false(s.update(i, true)) == count_false(s) - 1,
    decreases s.len(),
{
    if i == 0 {
        assert(s.update(0, true).drop_first() =~= s.drop_first());
    } else {
        assert(s.update(i, true).drop_first() =~= s.drop_first().update(i - 1, true));
        lemma_count_false_update(s.drop_first(), i - 1);
    }
}

/// A vector of `n` copies of `x`.
pub(crate) fn filled_vec<T: Copy>(n: usize, x: T) -> (r: Vec<T>)
    ensures
        r@.len() == n,
        forall|i: int| 0 <= i < n ==> r@[i] == x,
{
    let mut v: Vec<T> = Vec::new();
    while v.len() < n
        invariant
            v@.len() <= n,
            forall|i: int| 0 <= i < v@.len() ==> v@[i] == x,
        decreases n - v@.len(),
    {
        v.push(x);
    }
    v
}

/// Bookkeeping invariant shared by both routers' search states.
///
/// `g`, `h`, `par`, `closed` are the per-index tables; `rank` records the
/// order in which indices were closed; `count` is the number closed so far.
/// Parent links always point at closed nodes with strictly smaller rank, so
/// every parent chain is acyclic and ends at `start`.
pub(crate) open spec fn table_inv(
    n: int,
    start: u32,
    g: Seq<Option<HScore>>,
    h: Seq<Option<HScore>>,
    par: Seq<Option<u32>>,
    closed: Seq<bool>,
    rank: Map<u32, int>,
    count: int,
) -> bool {
    &&& g.len() == n && h.len() == n && par.len() == n && closed.len() == n
    &&& (start as int) < n
    &&& count == n - count_false(closed)
    &&& 0 <= count <= n
    &&& forall|w: int| 0 <= w < n && h[w] is Some && w != start as int ==> (#[trigger] par[w]) is Some
    &&& forall|w: int| 0 <= w < n && closed[w] ==> (#[trigger] h[w]) is Some
    &&& forall|w: int|
        0 <= w < n && (#[trigger] par[w]) is Some ==> {
            let p = par[w]->0;
            &&& w != start as int
            &&& (p as int) < n
            &&& closed[p as int]
            &&& g[p as int] is Some
            &&& rank.dom().contains(p)
            &&& 0 <= rank[p] < count
        }
    &&& forall|w: int|
        0 <= w < n && #[trigger] closed[w] ==> rank.dom().contains(w as u32) && 0 <= rank[w as u32]
            < count
    &&& forall|w: int|
        0 <= w < n && closed[w] && (#[trigger] par[w]) is Some ==> rank[par[w]->0] < rank[w as u32]
}

/// Steps left in a parent-chain walk standing at `cur`.
pub(crate) open spec fn chain_measure(
    closed: Seq<bool>,
    rank: Map<u32, int>,
    count: int,
    cur: u32,
    start: u32,
) -> int {
    if cur == start {
        0
    } else if closed[cur as int] {
        rank[cur] + 1
    } else {
        count + 1
    }
}

/// A* between `start_idx` and `goal_idx` at base range `jump_distance`,
/// driven by jumps-then-distance scores.
///
/// A route is returned exactly when the goal is reachable from the start
/// along enumerated-neighbor hops; it runs from start to goal with every hop
/// inside the effective range of its source system.  When start and goal
/// coincide the one-system route is returned.
pub fn a_star(
    systems: &Vec<StarSystem>,
    start_idx: u32,
    goal_idx: u32,
    jump_distance: u64,
) -> (r: Option<Vec<u32>>)
    requires
        systems_wf(systems@),
        (start_idx as int) < systems@.len(),
        (goal_idx as int) < systems@.len(),
        1 <= jump_distance <= MAX_JUMP_DISTANCE,
    ensures
        r matches Some(p) ==> valid_route(systems@, p@, start_idx, goal_idx, jump_distance as int),
        r matches Some(p) ==> p@.len() <= systems@.len() + 2,
        r is Some <==> reachable(systems@, start_idx, goal_idx, jump_distance as int),
        start_idx == goal_idx ==> (r matches Some(p) && p@ == seq![start_idx]),
{
    let ghost ss = systems@;
    let ghost d = jump_distance as int;
    let n = systems.len();
    if start_idx == goal_idx {
        let mut p: Vec<u32> = Vec::new();
        p.push(start_idx);
        proof {
            assert(p@ =~= seq![start_idx]);
            assert(graph_path(ss, p@, d));
            assert(p@.first() == start_idx && p@.last() == goal_idx);
            assert(reachable(ss, start_idx, goal_idx, d));
        }
        return Some(p);
    }
    let mut g_score: Vec<Option<HScore>> = filled_vec(n, None);
    let mut h_score: Vec<Option<HScore>> = filled_vec(n, None);
    let mut parent: Vec<Option<u32>> = filled_vec(n, None);
    let mut closed: Vec<bool> = filled_vec(n, false);
    let mut open: Vec<(HScore, u32)> = Vec::new();
    let mut closed_count: usize = 0;
    let ghost mut rank: Map<u32, int> = Map::empty();
    let start_h = HScore { jumps: 0, distance: 0 };
    g_score.set(start_idx as usize, Some(start_h));
    h_score.set(start_idx as usize, Some(start_h));
    open.push((start_h, start_idx));
    proof {
        lemma_count_false_all_false(closed@);
        assert(open@[0] == (start_h, start_idx));
        assert forall|w: int|
            0 <= w < n && (#[trigger] h_score@[w]) is Some && !closed@[w] implies exists|e: int|
            0 <= e < open@.len() && open@[e].1 == w && open@[e].0 == h_score@[w]->0 by {
            assert(w == start_idx as int);
            assert(open@[0].1 == w && open@[0].0 == h_score@[w]->0);
        }
    }
    let mut found = false;
    while !found && open.len() > 0
        invariant
            ss == systems@,
            systems_wf(ss),
            n == ss.len(),
            d == jump_distance as int,
            1 <= jump_distance <= MAX_JUMP_DISTANCE,
            (start_idx as int) < n,
            (goal_idx as int) < n,
            start_idx != goal_idx,
            start_h == (HScore { jumps: 0, distance: 0 }),
            table_inv(
                n as int,
                start_idx,
                g_score@,
                h_score@,
                parent@,
                closed@,
                rank,
                closed_count as int,
            ),
            h_score@[start_idx as int] == Some(start_h),
            parent@[start_idx as int] is None,
            !closed@[goal_idx as int],
            forall|w: int|
                0 <= w < n ==> ((#[trigger] h_score@[w]) is Some <==> g_score@[w] is Some),
            forall|w: int|
                0 <= w < n && (#[trigger] parent@[w]) is Some ==> valid_jump(
                    ss,
                    (parent@[w]->0) as int,
                    w,
                    d,
                ) && neighbor_list(ss, (parent@[w]->0) as int, d).contains(w as u32),
            forall|e: int|
                0 <= e < open@.len() ==> ((#[trigger] open@[e]).1 as int) < n
                    && h_score@[open@[e].1 as int] is Some,
            forall|w: int|
                0 <= w < n && (#[trigger] g_score@[w]) is Some ==> {
                    let sc = g_score@[w]->0;
                    &&& 0 <= sc.jumps
                    &&& 0 <= sc.distance
                    &&& (closed@[w] ==> sc.jumps <= closed_count && sc.distance <= closed_count
                        * 0x40_0000)
                    &&& (!closed@[w] ==> sc.jumps <= closed_count + 1 && sc.distance <= (
                    closed_count + 1) * 0x40_0000)
                },
            found ==> h_score@[goal_idx as int] is Some,
            closed_neighbors_seen(ss, d, h_score@, closed@),
            !found ==> forall|w: int|
                0 <= w < n && (#[trigger] h_score@[w]) is Some && !closed@[w] ==> exists|e: int|
                    0 <= e < open@.len() && open@[e].1 == w && open@[e].0 == h_score@[w]->0,
        decreases count_false(closed@), open@.len(),
    {
        let mut best: usize = 0;
        let mut kk: usize = 1;
        while kk < open.len()
            invariant
                0 < open@.len(),
                best < open@.len(),
                kk <= open@.len(),
            decreases open@.len() - kk,
        {
            let b = open[best];
            let c = open[kk];
            if c.0.lt(&b.0) || (c.0 == b.0 && c.1 < b.1) {
                best = kk;
            }
            kk = kk + 1;
        }
        let ghost open_pre = open@;
        let entry = open.swap_remove(best);
        let cur_f = entry.0;
        let cur = entry.1;
        proof {
            assert forall|e: int| 0 <= e < open@.len() implies ((#[trigger] open@[e]).1 as int) < n
                && h_score@[open@[e].1 as int] is Some by {
                assert(open@[e] == open_pre[e] || open@[e] == open_pre.last());
            }
            assert((cur as int) < n && h_score@[cur as int] is Some);
        }
        if cur == goal_idx {
            found = true;
        } else if closed[cur as usize] {
            // A better entry for this node was already expanded.
            proof {
                assert(open_pre[best as int] == entry);
                lemma_witnesses_survive(n as int, h_score@, closed@, open_pre, open@, best as int);
            }
        } else {
            let stored = h_score[cur as usize].unwrap();
            if stored.lt(&cur_f) {
                // Stale entry: a relaxation improved this node after the push.
                proof {
                    assert(open_pre[best as int] == entry);
                    lemma_witnesses_survive(
                        n as int,
                        h_score@,
                        closed@,
                        open_pre,
                        open@,
                        best as int,
                    );
                }
            } else {
                proof {
                    lemma_count_false_update(closed@, cur as int);
                    lemma_count_false_bounds(closed@.update(cur as int, true));
                    rank = rank.insert(cur, closed_count as int);
                }
                closed.set(cur as usize, true);
                closed_count = closed_count + 1;
                proof {
                    assert(open_pre[best as int] == entry);
                    lemma_witnesses_survive(
                        n as int,
                        h_score@,
                        closed@,
                        open_pre,
                        open@,
                        best as int,
                    );
                }
                let cur_g = g_score[cur as usize].unwrap();
                let nbrs = neighbors(systems, cur, jump_distance);
                let mut i: usize = 0;
                while i < nbrs.len()
                    invariant
                        ss == systems@,
                        systems_wf(ss),
                        n == ss.len(),
                        d == jump_distance as int,
                        1 <= jump_distance <= MAX_JUMP_DISTANCE,
                        (start_idx as int) < n,
                        (goal_idx as int) < n,
                        start_idx != goal_idx,
                        start_h == (HScore { jumps: 0, distance: 0 }),
                        table_inv(
                            n as int,
                            start_idx,
                            g_score@,
                            h_score@,
                            parent@,
                            closed@,
                            rank,
                            closed_count as int,
                        ),
                        h_score@[start_idx as int] == Some(start_h),
                        parent@[start_idx as int] is None,
                        !closed@[goal_idx as int],
                        forall|w: int|
                            0 <= w < n ==> ((#[trigger] h_score@[w]) is Some
                                <==> g_score@[w] is Some),
                        forall|w: int|
                            0 <= w < n && (#[trigger] parent@[w]) is Some ==> valid_jump(
                                ss,
                                (parent@[w]->0) as int,
                                w,
                                d,
                            ) && neighbor_list(ss, (parent@[w]->0) as int, d).contains(w as u32),
                        forall|e: int|
                            0 <= e < open@.len() ==> ((#[trigger] open@[e]).1 as int) < n
                                && h_score@[open@[e].1 as int] is Some,
                        forall|w: int|
                            0 <= w < n && (#[trigger] g_score@[w]) is Some ==> {
                                let sc = g_score@[w]->0;
                                &&& 0 <= sc.jumps
                                &&& 0 <= sc.distance
                                &&& (closed@[w] ==> sc.jumps <= closed_count && sc.distance
                                    <= closed_count * 0x40_0000)
                                &&& (!closed@[w] ==> sc.jumps <= closed_count + 1 && sc.distance
                                    <= (closed_count + 1) * 0x40_0000)
                            },
                        (cur as int) < n,
                        closed@[cur as int],
                        g_score@[cur as int] == Some(cur_g),
                        i <= nbrs@.len(),
                        nbrs@ == neighbor_list(ss, cur as int, d),
                        forall|k: int|
                            0 <= k < nbrs@.len() ==> (#[trigger] nbrs@[k] as int) < n
                                && valid_jump(ss, cur as int, nbrs@[k] as int, d),
                        forall|u: int, k: int|
                            0 <= u < n && closed@[u] && u != cur as int && 0 <= k < neighbor_list(
                                ss,
                                u,
                                d,
                            ).len() && ((#[trigger] neighbor_list(ss, u, d)[k]) as int) < n
                                ==> h_score@[neighbor_list(ss, u, d)[k] as int] is Some,
                        forall|k: int|
                            0 <= k < i ==> h_score@[(#[trigger] nbrs@[k]) as int] is Some,
                        forall|w: int|
                            0 <= w < n && (#[trigger] h_score@[w]) is Some && !closed@[w]
                                ==> exists|e: int|
                                0 <= e < open@.len() && open@[e].1 == w && open@[e].0
                                    == h_score@[w]->0,
                    decreases nbrs@.len() - i,
                {
                    let w = nbrs[i];
                    if !closed[w as usize] {
                        let edge = distance_v(
                            systems[cur as usize].coords,
                            systems[w as usize].coords,
                        );
                        let new_g = HScore {
                            jumps: cur_g.jumps + 1,
                            distance: cur_g.distance + edge,
                        };
                        let hh = h_local(systems, w, goal_idx, jump_distance);
                        let new_f = HScore {
                            jumps: new_g.jumps + hh.jumps,
                            distance: new_g.distance + hh.distance,
                        };
                        let prev_f = h_score[w as usize];
                        let relax = match prev_f {
                            Option::None => true,
                            Option::Some(of) => new_f.lt(&of),
                        };
                        if relax {
                            proof {
                                if w == start_idx {
                                    assert(hs_lt(new_f, start_h));
                                    assert(new_f.jumps >= 1);
                                    assert(false);
                                }
                            }
                            let ghost h_pre = h_score@;
                            let ghost open_pre2 = open@;
                            h_score.set(w as usize, Some(new_f));
                            g_score.set(w as usize, Some(new_g));
                            parent.set(w as usize, Some(cur));
                            open.push((new_f, w));
                            proof {
                                assert(neighbor_list(ss, cur as int, d)[i as int] == w);
                                assert(neighbor_list(ss, cur as int, d).contains(w));
                                assert forall|ww: int|
                                    0 <= ww < n && (#[trigger] h_score@[ww]) is Some
                                        && !closed@[ww] implies exists|e: int|
                                    0 <= e < open@.len() && open@[e].1 == ww && open@[e].0
                                        == h_score@[ww]->0 by {
                                    if ww == w as int {
                                        assert(open@[open@.len() - 1] == (new_f, w));
                                    } else {
                                        let e0 = choose|e: int|
                                            0 <= e < open_pre2.len() && open_pre2[e].1 == ww
                                                && open_pre2[e].0 == h_pre[ww]->0;
                                        assert(open@[e0] == open_pre2[e0]);
                                    }
                                }
                                assert forall|u: int, k: int|
                                    0 <= u < n && closed@[u] && u != cur as int && 0 <= k
                                        < neighbor_list(ss, u, d).len() && ((
                                #[trigger] neighbor_list(ss, u, d)[k]) as int) < n implies
                                    h_score@[neighbor_list(ss, u, d)[k] as int] is Some by {
                                    let x = neighbor_list(ss, u, d)[k] as int;
                                    if x != w as int {
                                        assert(h_score@[x] == h_pre[x]);
                                    }
                                }
                            }
                        }
                    }
                    proof {
                        assert(h_score@[nbrs@[i as int] as int] is Some);
                    }
                    i = i + 1;
                }
                proof {
                    assert forall|u: int, k: int|
                        0 <= u < n && closed@[u] && 0 <= k < neighbor_list(ss, u, d).len() && ((
                    #[trigger] neighbor_list(ss, u, d)[k]) as int) < n implies h_score@[
                    neighbor_list(ss, u, d)[k] as int] is Some by {
                        if u == cur as int {
                            assert(neighbor_list(ss, u, d)[k] == nbrs@[k]);
                        }
                    }
                }
            }
        }
    }
    if !found {
        proof {
            // The frontier is exhausted: every scored node is closed, the
            // goal was never scored, and any route from the start would have
            // forced the goal to be scored.
            assert forall|w: int| 0 <= w < n && (#[trigger] h_score@[w]) is Some implies closed@[w]
                by {
                if !closed@[w] {
                    let e = choose|e: int|
                        0 <= e < open@.len() && open@[e].1 == w && open@[e].0 == h_score@[w]->0;
                    assert(false);
                }
            }
            if reachable(ss, start_idx, goal_idx, d) {
                let p = choose|p: Seq<u32>|
                    graph_path(ss, p, d) && p.first() == start_idx && p.last() == goal_idx;
                lemma_path_seen(ss, d, p, h_score@, closed@);
                assert(closed@[goal_idx as int]);
            }
        }
        return None;
    }
    let ghost count = closed_count as int;
    let mut rev: Vec<u32> = Vec::new();
    rev.push(goal_idx);
    let mut cur = goal_idx;
    while cur != start_idx
        invariant
            ss == systems@,
            systems_wf(ss),
            n == ss.len(),
            d == jump_distance as int,
            (start_idx as int) < n,
            (goal_idx as int) < n,
            table_inv(n as int, start_idx, g_score@, h_score@, parent@, closed@, rank, count),
            forall|w: int|
                0 <= w < n && (#[trigger] parent@[w]) is Some ==> valid_jump(
                    ss,
                    (parent@[w]->0) as int,
                    w,
                    d,
                ) && neighbor_list(ss, (parent@[w]->0) as int, d).contains(w as u32),
            (cur as int) < n,
            h_score@[cur as int] is Some,
            rev@.len() >= 1,
            rev@[0] == goal_idx,
            rev@.last() == cur,
            forall|k: int| 0 <= k < rev@.len() ==> (#[trigger] rev@[k] as int) < n,
            forall|k: int|
                0 <= k < rev@.len() - 1 ==> valid_jump(
                    ss,
                    rev@[k + 1] as int,
                    #[trigger] rev@[k] as int,
                    d,
                ),
            forall|k: int|
                0 <= k < rev@.len() - 1 ==> neighbor_list(ss, rev@[k + 1] as int, d).contains(
                    #[trigger] rev@[k],
                ),
            rev@.len() + chain_measure(closed@, rank, count, cur, start_idx) <= n + 2,
        decreases chain_measure(closed@, rank, count, cur, start_idx),
    {
        let p = parent[cur as usize].unwrap();
        rev.push(p);
        cur = p;
    }
    let mut path: Vec<u32> = Vec::new();
    let mut i: usize = rev.len();
    while i > 0
        invariant
            i <= rev@.len(),
            path@.len() == rev@.len() - i,
            forall|k: int|
                0 <= k < path@.len() ==> #[trigger] path@[k] == rev@[rev@.len() - 1 - k],
        decreases i,
    {
        i = i - 1;
        path.push(rev[i]);
    }
    proof {
        assert(path@.len() == rev@.len());
        assert(path@[0] == rev@.last());
        assert(path@.last() == rev@[0]);
        assert forall|k: int| 0 <= k < path@.len() - 1 implies valid_jump(
            ss,
            #[trigger] path@[k] as int,
            path@[k + 1] as int,
            d,
        ) by {
            let ll = rev@.len() as int;
            assert(path@[k] == rev@[ll - 1 - k]);
            assert(path@[k + 1] == rev@[ll - 1 - (k + 1)]);
            assert(valid_jump(ss, rev@[(ll - 2 - k) + 1] as int, rev@[ll - 2 - k] as int, d));
        }
        assert forall|k: int| 0 <= k < path@.len() - 1 implies neighbor_list(
            ss,
            #[trigger] path@[k] as int,
            d,
        ).contains(path@[k + 1]) by {
            let ll = rev@.len() as int;
            assert(path@[k] == rev@[ll - 1 - k]);
            assert(path@[k + 1] == rev@[ll - 1 - (k + 1)]);
            assert(neighbor_list(ss, rev@[(ll - 2 - k) + 1] as int, d).contains(rev@[ll - 2 - k]));
        }
        assert(graph_path(ss, path@, d));
        assert(path@.first() == start_idx && path@.last() == goal_idx);
        assert(reachable(ss, start_idx, goal_idx, d));
    }
    Some(path)
}

pub(crate) proof fn lemma_count_false_all_false(s: Seq<bool>)
    requires
        forall|i: int| 0 <= i < s.len() ==> !(#[trigger] s[i]),
    ensures
        count_false(s) == s.len(),
    decreases s.len(),
{
    if s.len() > 0 {
        lemma_count_false_all_false(s.drop_first());
    }
}

} // verus!
