//! The long-range router: A* over an abstract graph whose nodes are the
//! neutron stars plus the designated goal.
//!
//! The search starts from a no-neutron baseline route, which seeds the goal's
//! score and acts as an upper bound.  Every neutron whose admissible estimate
//! from the start beats the baseline is seeded into the open set.  Expanding
//! a neutron realizes the hop from its recorded parent (a single jump, or a
//! local-router sub-route), records the realized route from the start, and
//! relaxes the neutron's precomputed neighbors with optimistic estimates.
//! The goal itself is only ever relaxed with a fully realized route, so the
//! route held for the goal is always concrete and never longer than the
//! baseline; when the goal is popped, that route is the answer.

use vstd::pervasive::VecAdditionalExecFns;
use vstd::prelude::*;

use crate::geometry::{
    ceil_div, ceil_div_spec, dist_ceil, distance_v, lemma_dist_ceil, sq_dist, sq_dist_spec,
};
use crate::route::{
    a_star, count_false, filled_vec, lemma_count_false_all_false, lemma_count_false_bounds,
    lemma_count_false_update, lemma_swap_remove_keeps, reachable, table_inv, valid_jump,
    valid_route, MAX_JUMP_DISTANCE,
};
use crate::score::{hs_lt, HScore};
use crate::system::{neutrons_wf, systems_wf, NeutronStarSystem, StarSystem};

verus! {

/// Jump count of the waypoint estimate: realized-style jumps from `from` to
/// the neutron `v`, plus optimistic chained-boost jumps from `v` to `goal`
/// (the distance to the goal is divided by the boosted range).
pub open spec fn neutron_h_jumps(ss: Seq<StarSystem>, from: int, v: int, goal: int, d: int) -> int {
    let sqf = sq_dist_spec(ss[from].coords, ss[v].coords);
    let cf = dist_ceil(sqf);
    let from_jumps = if ss[from].is_neutron {
        if sqf < (4 * d) * (4 * d) {
            1
        } else {
            ceil_div_spec(cf - 4 * d, d) + 1
        }
    } else {
        ceil_div_spec(cf, d)
    };
    let cg = dist_ceil(sq_dist_spec(ss[v].coords, ss[goal].coords));
    from_jumps + ceil_div_spec(cg, 4 * d)
}

/// Distance component of the waypoint estimate: ceiling distance from `from`
/// to `v` plus ceiling distance from `v` to `goal`.
pub open spec fn neutron_h_dist(ss: Seq<StarSystem>, from: int, v: int, goal: int) -> int {
    dist_ceil(sq_dist_spec(ss[from].coords, ss[v].coords)) + dist_ceil(
        sq_dist_spec(ss[v].coords, ss[goal].coords),
    )
}

/// The waypoint heuristic of the long-range search.
fn h_neutron(systems: &Vec<StarSystem>, from: u32, v: u32, goal: u32, jump_distance: u64) -> (r:
    HScore)
    requires
        systems_wf(systems@),
        (from as int) < systems@.len(),
        (v as int) < systems@.len(),
        (goal as int) < systems@.len(),
        1 <= jump_distance <= MAX_JUMP_DISTANCE,
    ensures
        r.jumps == neutron_h_jumps(
            systems@,
            from as int,
            v as int,
            goal as int,
            jump_distance as int,
        ),
        r.distance == neutron_h_dist(systems@, from as int, v as int, goal as int),
        0 <= r.jumps <= 0x100_0000,
        r.distance <= 0x100_0000,
{
    let sqf = sq_dist(systems[from as usize].coords, systems[v as usize].coords);
    let cf = distance_v(systems[from as usize].coords, systems[v as usize].coords);
    let boosted = 4 * jump_distance;
    proof {
        assert(boosted * boosted <= 0x1_0000_0000_0000) by (nonlinear_arith)
            requires
                0 <= boosted <= 0x100_0000,
        ;
    }
    let from_jumps: u64 = if systems[from as usize].is_neutron {
        if sqf < boosted * boosted {
            1
        } else {
            proof {
                lemma_dist_ceil(sqf as int);
                assert(cf >= boosted) by (nonlinear_arith)
                    requires
                        (cf as int) * (cf as int) >= sqf,
                        (sqf as int) >= (boosted as int) * (boosted as int),
                        cf >= 0,
                        boosted >= 0,
                ;
            }
            ceil_div(cf - boosted, jump_distance) + 1
        }
    } else {
        ceil_div(cf, jump_distance)
    };
    let cg = distance_v(systems[v as usize].coords, systems[goal as usize].coords);
    let goal_jumps = ceil_div(cg, boosted);
    HScore { jumps: (from_jumps + goal_jumps) as i64, distance: cf + cg }
}

/// A vector of `n` empty route slots.
fn none_routes(n: usize) -> (r: Vec<Option<Vec<u32>>>)
    ensures
        r@.len() == n,
        forall|i: int| 0 <= i < n ==> r@[i] is None,
{
    let mut v: Vec<Option<Vec<u32>>> = Vec::new();
    while v.len() < n
        invariant
            v@.len() <= n,
            forall|i: int| 0 <= i < v@.len() ==> v@[i] is None,
        decreases n - v@.len(),
    {
        v.push(None);
    }
    v
}

/// Concatenates a route ending at some system with a route starting there,
/// dropping the shared node.
fn join_route(prefix: &Vec<u32>, sub: &Vec<u32>) -> (r: Vec<u32>)
    requires
        prefix@.len() >= 1,
        sub@.len() >= 1,
    ensures
        r@ == prefix@ + sub@.skip(1),
{
    let mut r: Vec<u32> = Vec::new();
    let mut i: usize = 0;
    while i < prefix.len()
        invariant
            i <= prefix@.len(),
            r@ == prefix@.take(i as int),
        decreases prefix@.len() - i,
    {
        r.push(prefix[i]);
        proof {
            assert(prefix@.take(i + 1) =~= prefix@.take(i as int).push(prefix@[i as int]));
        }
        i = i + 1;
    }
    let mut j: usize = 1;
    while j < sub.len()
        invariant
            1 <= j <= sub@.len(),
            r@ == prefix@.take(prefix@.len() as int) + sub@.subrange(1, j as int),
        decreases sub@.len() - j,
    {
        r.push(sub[j]);
        proof {
            assert(sub@.subrange(1, j + 1) =~= sub@.subrange(1, j as int).push(sub@[j as int]));
        }
        j = j + 1;
    }
    proof {
        assert(prefix@.take(prefix@.len() as int) =~= prefix@);
        assert(sub@.subrange(1, sub@.len() as int) =~= sub@.skip(1));
        assert(r@ =~= prefix@ + sub@.skip(1));
    }
    r
}

/// Joining a route from `s` to `m` with a route from `m` to `t` gives a
/// route from `s` to `t`.
proof fn lemma_join_routes(ss: Seq<StarSystem>, a: Seq<u32>, b: Seq<u32>, s: u32, m: u32, t: u32, d: int)
    requires
        valid_route(ss, a, s, m, d),
        valid_route(ss, b, m, t, d),
    ensures
        valid_route(ss, a + b.skip(1), s, t, d),
        (a + b.skip(1)).len() == a.len() + b.len() - 1,
{
    let r = a + b.skip(1);
    assert(r.len() == a.len() + b.len() - 1);
    assert(r[0] == a[0]);
    if b.len() == 1 {
        assert(r =~= a);
        assert(t == b.last() && b.last() == b[0] && b[0] == m);
    } else {
        assert(r.last() == b.last());
    }
    assert forall|i: int| 0 <= i < r.len() implies (#[trigger] r[i]) < ss.len() by {
        if i < a.len() {
        } else {
            assert(r[i] == b[i - a.len() + 1]);
        }
    }
    assert forall|i: int| 0 <= i < r.len() - 1 implies valid_jump(
        ss,
        #[trigger] r[i] as int,
        r[i + 1] as int,
        d,
    ) by {
        if i < a.len() - 1 {
            assert(r[i] == a[i] && r[i + 1] == a[i + 1]);
        } else if i == a.len() - 1 {
            assert(r[i] == a.last() && a.last() == m && m == b[0]);
            assert(r[i + 1] == b[1]);
            assert(valid_jump(ss, b[0] as int, b[1] as int, d));
        } else {
            assert(r[i] == b[i - a.len() + 1]);
            assert(r[i + 1] == b[i - a.len() + 2]);
            assert(valid_jump(ss, b[i - a.len() + 1] as int, b[(i - a.len() + 1) + 1] as int, d));
        }
    }
}

/// The waypoint search proper, driven by a no-neutron baseline route.
///
/// Always returns a route from start to goal that is never longer (in jumps)
/// than the given baseline: the goal starts out holding the baseline route
/// and is only ever re-relaxed with fully realized routes that strictly beat
/// the score it holds.
#[verifier::rlimit(100)]
pub fn neutron_search(
    systems: &Vec<StarSystem>,
    neutron_systems: &Vec<NeutronStarSystem>,
    start_idx: u32,
    goal_idx: u32,
    jump_distance: u64,
    baseline: Vec<u32>,
) -> (r: Vec<u32>)
    requires
        systems_wf(systems@),
        neutrons_wf(systems@, neutron_systems@),
        (start_idx as int) < systems@.len(),
        (goal_idx as int) < systems@.len(),
        start_idx != goal_idx,
        1 <= jump_distance <= MAX_JUMP_DISTANCE,
        valid_route(systems@, baseline@, start_idx, goal_idx, jump_distance as int),
        baseline@.len() <= 0x4000_0000_0000_0000,
    ensures
        valid_route(systems@, r@, start_idx, goal_idx, jump_distance as int),
        r@.len() <= baseline@.len(),
{
    let ghost ss = systems@;
    let ghost ns = neutron_systems@;
    let ghost d = jump_distance as int;
    let n = systems.len();
    let mut g_score: Vec<Option<HScore>> = filled_vec(n, None);
    let mut h_score: Vec<Option<HScore>> = filled_vec(n, None);
    let mut parent: Vec<Option<u32>> = filled_vec(n, None);
    let mut closed: Vec<bool> = filled_vec(n, false);
    let mut route_to: Vec<Option<Vec<u32>>> = none_routes(n);
    let mut open: Vec<(HScore, u32, u32)> = Vec::new();
    let ghost mut rank: Map<u32, int> = Map::empty();
    let start_h = HScore { jumps: 0, distance: 0 };
    g_score.set(start_idx as usize, Some(start_h));
    h_score.set(start_idx as usize, Some(start_h));
    let mut start_route: Vec<u32> = Vec::new();
    start_route.push(start_idx);
    proof {
        assert(start_route@ =~= seq![start_idx]);
        assert(valid_route(ss, start_route@, start_idx, start_idx, d));
        lemma_count_false_all_false(closed@);
        lemma_count_false_update(closed@, start_idx as int);
        rank = rank.insert(start_idx, 0);
    }
    route_to.set(start_idx as usize, Some(start_route));
    // The start's cost is final; it is closed from the outset.
    closed.set(start_idx as usize, true);
    let mut closed_count: usize = 1;

    proof {
        assert(baseline@.len() >= 2);
    }
    let baseline_h = HScore { jumps: (baseline.len() - 1) as i64, distance: 0 };
    h_score.set(goal_idx as usize, Some(baseline_h));
    parent.set(goal_idx as usize, Some(start_idx));
    route_to.set(goal_idx as usize, Some(baseline));
    open.push((baseline_h, goal_idx, 0));
    proof {
        assert(open@[0].1 == goal_idx);
    }

    // Seed every neutron whose estimate from the start beats the baseline.
    // The goal keeps its realized baseline route: estimates never touch it.
    let mut k: usize = 0;
    while k < neutron_systems.len()
        invariant
            ss == systems@,
            ns == neutron_systems@,
            systems_wf(ss),
            neutrons_wf(ss, ns),
            n == ss.len(),
            d == jump_distance as int,
            1 <= jump_distance <= MAX_JUMP_DISTANCE,
            (start_idx as int) < n,
            (goal_idx as int) < n,
            start_idx != goal_idx,
            k <= ns.len(),
            table_inv(
                n as int,
                start_idx,
                g_score@,
                h_score@,
                parent@,
                closed@,
                rank,
                closed_count as int,
            ),
            closed_count >= 1,
            closed@[start_idx as int],
            g_score@[start_idx as int] is Some,
            !closed@[goal_idx as int],
            route_to@.len() == n,
            baseline_h.distance == 0,
            0 <= baseline_h.jumps,
            forall|w: int|
                0 <= w < n && (#[trigger] g_score@[w]) is Some ==> {
                    let sc = g_score@[w]->0;
                    &&& 0 <= sc.jumps
                    &&& 0 <= sc.distance
                    &&& closed@[w]
                    &&& sc.jumps <= (rank[w as u32] + 1) * (n + 2)
                    &&& sc.distance <= (rank[w as u32] + 1) * 0x40_0000
                },
            forall|w: int|
                0 <= w < n && (#[trigger] g_score@[w]) is Some ==> (route_to@[w] matches Some(rt)
                    && valid_route(ss, rt@, start_idx, w as u32, d) && rt@.len() == g_score@[w]->0.jumps
                    + 1),
            route_to@[goal_idx as int] matches Some(grt) && h_score@[goal_idx as int] matches Some(
                gh,
            ) && valid_route(ss, grt@, start_idx, goal_idx, d) && grt@.len() == gh.jumps + 1 && (
            hs_lt(gh, baseline_h) || gh == baseline_h),
            forall|e: int|
                0 <= e < open@.len() ==> {
                    let en = #[trigger] open@[e];
                    &&& (en.1 as int) < n
                    &&& h_score@[en.1 as int] is Some
                    &&& (en.1 == goal_idx || ((en.2 as int) < ns.len() && ns[en.2 as int].idx
                        == en.1))
                },
            exists|e: int| 0 <= e < open@.len() && (#[trigger] open@[e]).1 == goal_idx,
        decreases ns.len() - k,
    {
        let n_idx = neutron_systems[k].idx;
        if !closed[n_idx as usize] && n_idx != goal_idx {
            let h = h_neutron(systems, start_idx, n_idx, goal_idx, jump_distance);
            if h.lt(&baseline_h) {
                let ghost open_pre = open@;
                h_score.set(n_idx as usize, Some(h));
                parent.set(n_idx as usize, Some(start_idx));
                open.push((h, n_idx, k as u32));
                proof {
                    let e0 = choose|e: int|
                        0 <= e < open_pre.len() && (#[trigger] open_pre[e]).1 == goal_idx;
                    assert(open@[e0] == open_pre[e0]);
                }
            }
        }
        k = k + 1;
    }

    let mut found = false;
    while !found && open.len() > 0
        invariant
            ss == systems@,
            ns == neutron_systems@,
            systems_wf(ss),
            neutrons_wf(ss, ns),
            n == ss.len(),
            d == jump_distance as int,
            1 <= jump_distance <= MAX_JUMP_DISTANCE,
            (start_idx as int) < n,
            (goal_idx as int) < n,
            start_idx != goal_idx,
            table_inv(
                n as int,
                start_idx,
                g_score@,
                h_score@,
                parent@,
                closed@,
                rank,
                closed_count as int,
            ),
            closed_count >= 1,
            closed@[start_idx as int],
            g_score@[start_idx as int] is Some,
            !closed@[goal_idx as int],
            route_to@.len() == n,
            baseline_h.distance == 0,
            0 <= baseline_h.jumps,
            forall|w: int|
                0 <= w < n && (#[trigger] g_score@[w]) is Some ==> {
                    let sc = g_score@[w]->0;
                    &&& 0 <= sc.jumps
                    &&& 0 <= sc.distance
                    &&& closed@[w]
                    &&& sc.jumps <= (rank[w as u32] + 1) * (n + 2)
                    &&& sc.distance <= (rank[w as u32] + 1) * 0x40_0000
                },
            forall|w: int|
                0 <= w < n && (#[trigger] g_score@[w]) is Some ==> (route_to@[w] matches Some(rt)
                    && valid_route(ss, rt@, start_idx, w as u32, d) && rt@.len() == g_score@[w]->0.jumps
                    + 1),
            route_to@[goal_idx as int] matches Some(grt) && h_score@[goal_idx as int] matches Some(
                gh,
            ) && valid_route(ss, grt@, start_idx, goal_idx, d) && grt@.len() == gh.jumps + 1 && (
            hs_lt(gh, baseline_h) || gh == baseline_h),
            forall|e: int|
                0 <= e < open@.len() ==> {
                    let en = #[trigger] open@[e];
                    &&& (en.1 as int) < n
                    &&& h_score@[en.1 as int] is Some
                    &&& (en.1 == goal_idx || ((en.2 as int) < ns.len() && ns[en.2 as int].idx
                        == en.1))
                },
            !found ==> exists|e: int| 0 <= e < open@.len() && (#[trigger] open@[e]).1 == goal_idx,
        decreases count_false(closed@), open@.len(),
    {
        let mut best: usize = 0;
        let mut kk: usize = 1;
        while kk < open.len()
            invariant
                0 < open@.len(),
                best < open@.len(),
                kk <= open@.len(),
            decreases open@.len() - kk,
        {
            let b = open[best];
            let c = open[kk];
            if c.0.lt(&b.0) || (c.0 == b.0 && (c.1 < b.1 || (c.1 == b.1 && c.2 < b.2))) {
                best = kk;
            }
            kk = kk + 1;
        }
        let ghost open_pre = open@;
        let entry = open.swap_remove(best);
        let cur_f = entry.0;
        let cur = entry.1;
        let cur_k = entry.2;
        proof {
            assert(open_pre[best as int] == entry);
            assert forall|e: int| 0 <= e < open@.len() implies {
                let en = #[trigger] open@[e];
                &&& (en.1 as int) < n
                &&& h_score@[en.1 as int] is Some
                &&& (en.1 == goal_idx || ((en.2 as int) < ns.len() && ns[en.2 as int].idx == en.1))
            } by {
                assert(open@[e] == open_pre[e] || open@[e] == open_pre.last());
            }
            assert((cur as int) < n && h_score@[cur as int] is Some);
            assert(cur == goal_idx || ((cur_k as int) < ns.len() && ns[cur_k as int].idx == cur));
            if cur != goal_idx {
                let e0 = choose|e: int|
                    0 <= e < open_pre.len() && (#[trigger] open_pre[e]).1 == goal_idx;
                let v = open_pre[e0];
                assert(v != entry);
                lemma_swap_remove_keeps(open_pre, open@, best as int, v);
                let e1 = choose|e: int| 0 <= e < open@.len() && open@[e] == v;
                assert((#[trigger] open@[e1]).1 == goal_idx);
            }
        }
        if cur == goal_idx {
            found = true;
        } else if closed[cur as usize] {
            // A better entry for this waypoint was already expanded.
        } else {
            let stored = h_score[cur as usize].unwrap();
            if stored.lt(&cur_f) {
                // Stale entry: a relaxation improved this waypoint after the push.
            } else {
                proof {
                    lemma_count_false_update(closed@, cur as int);
                    lemma_count_false_bounds(closed@.update(cur as int, true));
                    rank = rank.insert(cur, closed_count as int);
                    assert forall|w: int|
                        0 <= w < n && (#[trigger] g_score@[w]) is Some implies {
                        let sc = g_score@[w]->0;
                        sc.jumps <= (rank[w as u32] + 1) * (n + 2) && sc.distance <= (rank[w as u32]
                            + 1) * 0x40_0000
                    } by {
                        assert(w != cur as int);
                    }
                }
                closed.set(cur as usize, true);
                closed_count = closed_count + 1;
                // Realize the hop from the recorded parent.
                let p = parent[cur as usize].unwrap();
                let sq_pv = sq_dist(systems[p as usize].coords, systems[cur as usize].coords);
                let c_pv = distance_v(systems[p as usize].coords, systems[cur as usize].coords);
                let boosted = 4 * jump_distance;
                proof {
                    assert(boosted * boosted <= 0x1_0000_0000_0000) by (nonlinear_arith)
                        requires
                            0 <= boosted <= 0x100_0000,
                    ;
                    assert(jump_distance * jump_distance <= 0x1_0000_0000_0000) by (
                    nonlinear_arith)
                        requires
                            0 <= jump_distance <= 0x100_0000,
                    ;
                    assert(jump_distance * jump_distance <= boosted * boosted) by (nonlinear_arith)
                        requires
                            0 <= jump_distance,
                            boosted == 4 * jump_distance,
                    ;
                }
                let mut skip = false;
                let mut sub: Vec<u32> = Vec::new();
                if (systems[p as usize].is_neutron && sq_pv <= boosted * boosted) || sq_pv
                    <= jump_distance * jump_distance {
                    // one direct jump, boosted or plain
                    sub.push(p);
                    sub.push(cur);
                    proof {
                        assert(sub@ =~= seq![p, cur]);
                        assert(valid_jump(ss, p as int, cur as int, d));
                        assert(valid_route(ss, sub@, p, cur, d));
                    }
                } else {
                    match a_star(systems, p, cur, jump_distance) {
                        Option::None => {
                            // This waypoint cannot actually be reached this way;
                            // leave it closed and move on.
                            skip = true;
                        },
                        Option::Some(s) => {
                            sub = s;
                        },
                    }
                }
                if !skip {
                    proof {
                        assert(valid_route(ss, sub@, p, cur, d));
                        assert(1 <= sub@.len() <= n + 2);
                    }
                    let from_path_len: i64 = (sub.len() - 1) as i64;
                    let p_g = g_score[p as usize].unwrap();
                    proof {
                        assert(rank[p] + 1 <= rank[cur]);
                        assert((rank[p] + 1) * (n + 2) + (n + 2) <= (rank[cur] + 1) * (n + 2)) by (
                        nonlinear_arith)
                            requires
                                rank[p] + 1 <= rank[cur],
                                n >= 0,
                        ;
                        assert((rank[p] + 1) * 0x40_0000 + 0x40_0000 <= (rank[cur] + 1)
                            * 0x40_0000) by (nonlinear_arith)
                            requires
                                rank[p] + 1 <= rank[cur],
                        ;
                        assert((rank[cur] + 1) * (n + 2) <= 0x100_0000_0000_0000) by (
                        nonlinear_arith)
                            requires
                                0 <= rank[cur] < n + 1,
                                0 <= n <= 0x800_0000,
                        ;
                        assert((rank[cur] + 1) * 0x40_0000 <= 0x40_0000_0000_0000) by (
                        nonlinear_arith)
                            requires
                                0 <= rank[cur] < n + 1,
                                0 <= n <= 0x800_0000,
                        ;
                    }
                    let cur_g = HScore {
                        jumps: p_g.jumps + from_path_len,
                        distance: p_g.distance + c_pv,
                    };
                    g_score.set(cur as usize, Some(cur_g));
                    let prev = route_to[p as usize].as_ref().unwrap();
                    proof {
                        lemma_join_routes(ss, prev@, sub@, start_idx, p, cur, d);
                    }
                    let joined = join_route(prev, &sub);
                    route_to.set(cur as usize, Some(joined));
                    // Relax the goal, but only with a fully realized route.
                    let c_vg = distance_v(
                        systems[cur as usize].coords,
                        systems[goal_idx as usize].coords,
                    );
                    let to_goal_jumps = ceil_div(c_vg, jump_distance);
                    let to_goal_est = HScore {
                        jumps: cur_g.jumps + to_goal_jumps as i64,
                        distance: cur_g.distance + c_vg,
                    };
                    let goal_h = h_score[goal_idx as usize].unwrap();
                    if to_goal_est.lt(&goal_h) {
                        match a_star(systems, cur, goal_idx, jump_distance) {
                            Option::None => {},
                            Option::Some(gsub) => {
                                proof {
                                    assert(1 <= gsub@.len() <= n + 2);
                                }
                                let realized = HScore {
                                    jumps: cur_g.jumps + (gsub.len() - 1) as i64,
                                    distance: cur_g.distance + c_vg,
                                };
                                if realized.lt(&goal_h) {
                                    let ghost open_pre2 = open@;
                                    h_score.set(goal_idx as usize, Some(realized));
                                    parent.set(goal_idx as usize, Some(cur));
                                    let prev2 = route_to[cur as usize].as_ref().unwrap();
                                    proof {
                                        lemma_join_routes(
                                            ss,
                                            prev2@,
                                            gsub@,
                                            start_idx,
                                            cur,
                                            goal_idx,
                                            d,
                                        );
                                    }
                                    let groute = join_route(prev2, &gsub);
                                    route_to.set(goal_idx as usize, Some(groute));
                                    open.push((realized, goal_idx, 0));
                                    proof {
                                        assert(open@[open@.len() - 1].1 == goal_idx);
                                    }
                                }
                            },
                        }
                    }
                    // Relax the waypoint's precomputed neutron neighbors with
                    // optimistic estimates; the goal is never among them.
                    let nbr_count = neutron_systems[cur_k as usize].neighbors.len();
                    let mut i: usize = 0;
                    while i < nbr_count
                        invariant
                            ss == systems@,
                            ns == neutron_systems@,
                            systems_wf(ss),
                            neutrons_wf(ss, ns),
                            n == ss.len(),
                            d == jump_distance as int,
                            1 <= jump_distance <= MAX_JUMP_DISTANCE,
                            (start_idx as int) < n,
                            (goal_idx as int) < n,
                            start_idx != goal_idx,
                            table_inv(
                                n as int,
                                start_idx,
                                g_score@,
                                h_score@,
                                parent@,
                                closed@,
                                rank,
                                closed_count as int,
                            ),
                            closed_count >= 1,
                            closed@[start_idx as int],
                            g_score@[start_idx as int] is Some,
                            !closed@[goal_idx as int],
                            route_to@.len() == n,
                            baseline_h.distance == 0,
                            0 <= baseline_h.jumps,
                            forall|w: int|
                                0 <= w < n && (#[trigger] g_score@[w]) is Some ==> {
                                    let sc = g_score@[w]->0;
                                    &&& 0 <= sc.jumps
                                    &&& 0 <= sc.distance
                                    &&& closed@[w]
                                    &&& sc.jumps <= (rank[w as u32] + 1) * (n + 2)
                                    &&& sc.distance <= (rank[w as u32] + 1) * 0x40_0000
                                },
                            forall|w: int|
                                0 <= w < n && (#[trigger] g_score@[w]) is Some ==> (route_to@[w]
                                    matches Some(rt) && valid_route(ss, rt@, start_idx, w as u32, d)
                                    && rt@.len() == g_score@[w]->0.jumps + 1),
                            route_to@[goal_idx as int] matches Some(grt)
                                && h_score@[goal_idx as int] matches Some(gh) && valid_route(
                                ss,
                                grt@,
                                start_idx,
                                goal_idx,
                                d,
                            ) && grt@.len() == gh.jumps + 1 && (hs_lt(gh, baseline_h) || gh
                                == baseline_h),
                            forall|e: int|
                                0 <= e < open@.len() ==> {
                                    let en = #[trigger] open@[e];
                                    &&& (en.1 as int) < n
                                    &&& h_score@[en.1 as int] is Some
                                    &&& (en.1 == goal_idx || ((en.2 as int) < ns.len() && ns[
                                    en.2 as int].idx == en.1))
                                },
                            exists|e: int|
                                0 <= e < open@.len() && (#[trigger] open@[e]).1 == goal_idx,
                            (cur as int) < n,
                            (cur_k as int) < ns.len(),
                            closed@[cur as int],
                            cur != goal_idx,
                            cur_g == g_score@[cur as int]->0,
                            g_score@[cur as int] is Some,
                            0 <= cur_g.jumps <= 0x100_0000_0000_0000,
                            0 <= cur_g.distance <= 0x40_0000_0000_0000,
                            i <= nbr_count,
                            nbr_count == ns[cur_k as int].neighbors.len(),
                        decreases nbr_count - i,
                    {
                        let nn = neutron_systems[cur_k as usize].neighbors[i];
                        let nb_idx = neutron_systems[nn as usize].idx;
                        if nb_idx != goal_idx {
                            let hh = h_neutron(systems, cur, nb_idx, goal_idx, jump_distance);
                            let new_h = HScore {
                                jumps: cur_g.jumps + hh.jumps,
                                distance: cur_g.distance + hh.distance,
                            };
                            if new_h.lt(&baseline_h) {
                                if !closed[nb_idx as usize] {
                                    let prev_h = h_score[nb_idx as usize];
                                    let relax = match prev_h {
                                        Option::None => true,
                                        Option::Some(of) => new_h.lt(&of),
                                    };
                                    if relax {
                                        let ghost open_pre3 = open@;
                                        h_score.set(nb_idx as usize, Some(new_h));
                                        parent.set(nb_idx as usize, Some(cur));
                                        open.push((new_h, nb_idx, nn));
                                        proof {
                                            let e0 = choose|e: int|
                                                0 <= e < open_pre3.len() && (
                                                #[trigger] open_pre3[e]).1 == goal_idx;
                                            assert(open@[e0] == open_pre3[e0]);
                                        }
                                    }
                                }
                            }
                        }
                        i = i + 1;
                    }
                }
            }
        }
    }
    proof {
        assert(found) by {
            if !found {
                let e = choose|e: int|
                    0 <= e < open@.len() && (#[trigger] open@[e]).1 == goal_idx;
                assert(false);
            }
        }
    }
    let out = route_to.swap_remove(goal_idx as usize);
    let rt = out.unwrap();
    proof {
        assert(rt@.len() <= baseline@.len());
    }
    rt
}

/// Long-range A* from `start_idx` to `goal_idx` over the neutron waypoint
/// graph, with the local router realizing concrete sub-routes.
///
/// A route is returned exactly when the local router can reach the goal at
/// all (the no-neutron baseline); the returned route runs from start to goal
/// with every hop inside the effective range of its source system, and — by
/// `neutron_search`'s contract — never takes more jumps than that baseline.
/// When start and goal coincide the one-system route is returned.
pub fn neutron_a_star(
    systems: &Vec<StarSystem>,
    neutron_systems: &Vec<NeutronStarSystem>,
    start_idx: u32,
    goal_idx: u32,
    jump_distance: u64,
) -> (r: Option<Vec<u32>>)
    requires
        systems_wf(systems@),
        neutrons_wf(systems@, neutron_systems@),
        (start_idx as int) < systems@.len(),
        (goal_idx as int) < systems@.len(),
        1 <= jump_distance <= MAX_JUMP_DISTANCE,
    ensures
        r matches Some(p) ==> valid_route(systems@, p@, start_idx, goal_idx, jump_distance as int),
        r is Some <==> reachable(systems@, start_idx, goal_idx, jump_distance as int),
        start_idx == goal_idx ==> (r matches Some(p) && p@ == seq![start_idx]),
{
    let ghost ss = systems@;
    let ghost d = jump_distance as int;
    if start_idx == goal_idx {
        let mut p: Vec<u32> = Vec::new();
        p.push(start_idx);
        proof {
            assert(p@ =~= seq![start_idx]);
            assert(crate::route::graph_path(ss, p@, d));
            assert(p@.first() == start_idx && p@.last() == goal_idx);
            assert(reachable(ss, start_idx, goal_idx, d));
        }
        return Some(p);
    }
    match a_star(systems, start_idx, goal_idx, jump_distance) {
        Option::None => Option::None,
        Option::Some(baseline) => Some(
            neutron_search(
                systems,
                neutron_systems,
                start_idx,
                goal_idx,
                jump_distance,
                baseline,
            ),
        ),
    }
}

} // verus!
