use neutron_route_finder::{a_star, neighbors, neutron_a_star, neutron_search, sq_dist, StarSystem, V3};
use neutron_route_finder::builder::make_neutron_star_systems;

fn sys(name: &str, star_type: &str, coords: V3) -> StarSystem {
    let dfs = neutron_route_finder::distance_v((0, 0, 0), coords);
    StarSystem::new(name.to_string(), star_type.to_string(), coords, dfs)
}

fn plain(name: &str, coords: V3) -> StarSystem {
    sys(name, "M", coords)
}

fn neutron(name: &str, coords: V3) -> StarSystem {
    sys(name, "Neutron Star", coords)
}

/// Every consecutive hop of `path` is within the effective range of its
/// source: the routers' central guarantee, checked again at run time.
fn assert_route_valid(systems: &Vec<StarSystem>, path: &Vec<u32>, start: u32, goal: u32, d: u64) {
    assert!(!path.is_empty());
    assert_eq!(path[0], start);
    assert_eq!(*path.last().unwrap(), goal);
    for w in path.windows(2) {
        let u = &systems[w[0] as usize];
        let v = &systems[w[1] as usize];
        let eff = if u.is_neutron { 4 * d } else { d };
        assert!(sq_dist(u.coords, v.coords) <= eff * eff);
    }
}

#[test]
fn is_neutron_derived_from_label() {
    assert!(neutron("n", (0, 0, 0)).is_neutron);
    assert!(!plain("p", (0, 0, 0)).is_neutron);
    assert!(!sys("q", "neutron star", (0, 0, 0)).is_neutron);
}

#[test]
fn trivial_three_collinear() {
    let systems = vec![
        plain("a", (0, 0, 0)),
        plain("b", (50, 0, 0)),
        plain("c", (100, 0, 0)),
    ];
    let path = a_star(&systems, 0, 2, 60).expect("route exists");
    assert_eq!(path, vec![0, 1, 2]);
    assert_route_valid(&systems, &path, 0, 2, 60);

    let entries = make_neutron_star_systems(&systems, 60);
    assert!(entries.is_empty());
    let npath = neutron_a_star(&systems, &entries, 0, 2, 60).expect("route exists");
    assert_eq!(npath, vec![0, 1, 2]);
}

#[test]
fn out_of_range_pair() {
    let systems = vec![plain("a", (0, 0, 0)), plain("b", (200, 0, 0))];
    assert_eq!(a_star(&systems, 0, 1, 60), None);
    let entries = make_neutron_star_systems(&systems, 60);
    assert_eq!(neutron_a_star(&systems, &entries, 0, 1, 60), None);
}

#[test]
fn start_equals_goal() {
    let systems = vec![plain("a", (0, 0, 0)), plain("b", (50, 0, 0))];
    assert_eq!(a_star(&systems, 1, 1, 60), Some(vec![1]));
    let entries = make_neutron_star_systems(&systems, 60);
    assert_eq!(neutron_a_star(&systems, &entries, 1, 1, 60), Some(vec![1]));
}

#[test]
fn neutron_shortcut() {
    // The hop from the neutron to the far system needs the fourfold boost:
    // 250 units at a base range of 63 (4 * 63 = 252).
    let systems = vec![
        plain("a", (0, 0, 0)),
        neutron("n", (30, 0, 0)),
        plain("b", (280, 0, 0)),
        plain("c", (340, 0, 0)),
    ];
    let d = 63;
    let path = a_star(&systems, 0, 3, d).expect("route exists");
    assert_eq!(path, vec![0, 1, 2, 3]);
    assert_route_valid(&systems, &path, 0, 3, d);

    let entries = make_neutron_star_systems(&systems, d);
    let npath = neutron_a_star(&systems, &entries, 0, 3, d).expect("route exists");
    assert_eq!(npath, vec![0, 1, 2, 3]);
    assert_eq!(npath.len() - 1, 3);
}

#[test]
fn grid_route_matches_lower_bound() {
    // A 10x10x10 grid spaced 50 apart at range 60: only single-axis steps are
    // in range, so an optimal corner-to-corner route makes 27 jumps.
    let mut systems = Vec::new();
    for x in 0..10i64 {
        for y in 0..10i64 {
            for z in 0..10i64 {
                let name = format!("g{}-{}-{}", x, y, z);
                systems.push(plain(&name, (50 * x, 50 * y, 50 * z)));
            }
        }
    }
    let systems = neutron_route_finder::sort_star_systems(systems);
    let mut start = u32::MAX;
    let mut goal = u32::MAX;
    for (i, s) in systems.iter().enumerate() {
        if s.name == "g0-0-0" {
            start = i as u32;
        }
        if s.name == "g9-9-9" {
            goal = i as u32;
        }
    }
    assert!(start != u32::MAX && goal != u32::MAX);
    let path = a_star(&systems, start, goal, 60).expect("route exists");
    assert_eq!(path.len(), 28);
    assert_route_valid(&systems, &path, start, goal, 60);
}

#[test]
fn seeded_waypoints_fall_back_to_baseline() {
    // Two neutrons whose optimistic chained-boost estimates beat the
    // baseline, so they are seeded and expanded; neither actually shortens
    // the route, so the search falls back to the no-neutron baseline.
    let d = 60;
    let systems = vec![
        plain("a", (0, 0, 0)),
        neutron("n", (50, 0, 0)),
        neutron("m", (50, 60, 0)),
        plain("p1", (110, 0, 0)),
        plain("p2", (170, 0, 0)),
        plain("p3", (230, 0, 0)),
        plain("p4", (290, 0, 0)),
        plain("p5", (350, 0, 0)),
        plain("p6", (410, 0, 0)),
        plain("p7", (470, 0, 0)),
        plain("g", (530, 0, 0)),
    ];
    let goal = (systems.len() - 1) as u32;
    let base = a_star(&systems, 0, goal, d).expect("route exists");
    assert_eq!(base.len(), 7);
    let entries = make_neutron_star_systems(&systems, d);
    assert_eq!(entries.len(), 2);
    // The two neutrons are within one jump of each other, so each admits the
    // other unconditionally.
    assert_eq!(entries[0].neighbors, vec![1]);
    assert_eq!(entries[1].neighbors, vec![0]);
    let npath = neutron_a_star(&systems, &entries, 0, goal, d).expect("route exists");
    assert_eq!(npath.len(), base.len());
    assert_route_valid(&systems, &npath, 0, goal, d);
}

#[test]
fn search_never_worse_than_its_baseline() {
    let systems = vec![
        plain("a", (0, 0, 0)),
        neutron("n", (30, 0, 0)),
        plain("b", (280, 0, 0)),
        plain("c", (340, 0, 0)),
    ];
    let d = 63;
    let entries = make_neutron_star_systems(&systems, d);
    let baseline = a_star(&systems, 0, 3, d).expect("route exists");
    let found = neutron_search(&systems, &entries, 0, 3, d, baseline.clone());
    assert!(found.len() <= baseline.len());
    assert_route_valid(&systems, &found, 0, 3, d);
}

#[test]
fn unreachable_goal_fails_both_routers() {
    // Reachability is two-sided: a route is returned exactly when the goal
    // can be reached along enumerated-neighbor hops.
    let systems = vec![
        plain("a", (0, 0, 0)),
        plain("b", (50, 0, 0)),
        plain("gap", (500, 0, 0)),
        plain("c", (550, 0, 0)),
    ];
    assert_eq!(a_star(&systems, 0, 3, 60), None);
    let entries = make_neutron_star_systems(&systems, 60);
    assert_eq!(neutron_a_star(&systems, &entries, 0, 3, 60), None);
    assert!(a_star(&systems, 2, 3, 60).is_some());
}

#[test]
fn downward_walk_skips_immediate_predecessor() {
    // The record immediately below the source in distance-from-origin order
    // is skipped by the downward walk; the one below that is still found.
    let systems = vec![
        plain("a", (0, 0, 0)),
        plain("b", (10, 0, 0)),
        plain("c", (20, 0, 0)),
    ];
    assert_eq!(neighbors(&systems, 2, 60), vec![0]);
    assert_eq!(neighbors(&systems, 0, 60), vec![1, 2]);
}
