use neutron_route_finder::builder::{make_neutron_entry, make_neutron_star_systems, neutron_star_indices};
use neutron_route_finder::{sort_star_systems, StarSystem, V3};

fn neutron(name: &str, coords: V3) -> StarSystem {
    let dfs = neutron_route_finder::distance_v((0, 0, 0), coords);
    StarSystem::new(name.to_string(), "Neutron Star".to_string(), coords, dfs)
}

fn plain(name: &str, coords: V3) -> StarSystem {
    let dfs = neutron_route_finder::distance_v((0, 0, 0), coords);
    StarSystem::new(name.to_string(), "M".to_string(), coords, dfs)
}

#[test]
fn dominance_pruning() {
    // S at the origin; A and C one axis step beyond range; B collinear with A
    // and closer to A than to S; E on the opposite side.  B is dominated by A
    // and pruned; A, C and E are admitted.
    let d = 60;
    let systems = vec![
        neutron("s", (0, 0, 0)),
        neutron("a", (70, 0, 0)),
        neutron("c", (0, 70, 0)),
        neutron("b", (80, 0, 0)),
        neutron("e", (-120, 0, 0)),
    ];
    let entries = make_neutron_star_systems(&systems, d);
    assert_eq!(entries.len(), 5);
    assert_eq!(entries[0].idx, 0);
    assert_eq!(entries[0].neighbors, vec![1, 2, 4]);
}

#[test]
fn neighbors_within_range_always_admitted() {
    let d = 60;
    let systems = vec![
        neutron("s", (0, 0, 0)),
        neutron("a", (50, 0, 0)),
        neutron("b", (55, 0, 0)),
    ];
    let entries = make_neutron_star_systems(&systems, d);
    // Both are within one jump of s, so neither is pruned, in distance order.
    assert_eq!(entries[0].neighbors, vec![1, 2]);
    // a sees b and s within range too, nearest first.
    assert_eq!(entries[1].neighbors, vec![2, 0]);
}

#[test]
fn candidates_beyond_cutoff_never_admitted() {
    let systems = vec![neutron("s", (0, 0, 0)), neutron("far", (6000, 0, 0))];
    let entries = make_neutron_star_systems(&systems, 400);
    assert_eq!(entries[0].neighbors, Vec::<u32>::new());
    assert_eq!(entries[1].neighbors, Vec::<u32>::new());
}

#[test]
fn entries_follow_neutron_sequence() {
    let systems = vec![
        plain("p0", (0, 0, 0)),
        neutron("n0", (10, 0, 0)),
        plain("p1", (20, 0, 0)),
        neutron("n1", (30, 0, 0)),
        neutron("n2", (4000, 0, 0)),
    ];
    let idxs = neutron_star_indices(&systems);
    assert_eq!(idxs, vec![1, 3, 4]);
    let entries = make_neutron_star_systems(&systems, 60);
    assert_eq!(entries.len(), 3);
    for (k, e) in entries.iter().enumerate() {
        assert_eq!(e.idx, idxs[k]);
    }
    let single = make_neutron_entry(&systems, &idxs, 0, 60);
    assert_eq!(single.idx, entries[0].idx);
    assert_eq!(single.neighbors, entries[0].neighbors);
}

#[test]
fn sort_orders_by_distance_from_origin() {
    let systems = vec![
        plain("far", (100, 0, 0)),
        plain("near", (1, 0, 0)),
        plain("mid", (50, 0, 0)),
        plain("near2", (1, 0, 0)),
    ];
    let sorted = sort_star_systems(systems);
    assert_eq!(sorted.len(), 4);
    let names: Vec<&str> = sorted.iter().map(|s| s.name.as_str()).collect();
    // Stable: the two equal keys keep their input order.
    assert_eq!(names, vec!["near", "near2", "mid", "far"]);
    for w in sorted.windows(2) {
        assert!(w[0].distance_from_sol <= w[1].distance_from_sol);
    }
}
