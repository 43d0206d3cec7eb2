use neutron_route_finder::{distance, distance_v, sq_dist, HScore, StarSystem};

fn at(coords: (i64, i64, i64)) -> StarSystem {
    StarSystem::new("x".to_string(), "M".to_string(), coords, 0)
}

#[test]
fn squared_distance_exact() {
    assert_eq!(sq_dist((0, 0, 0), (3, 4, 0)), 25);
    assert_eq!(sq_dist((1, 2, 3), (1, 2, 3)), 0);
    assert_eq!(sq_dist((-5, 0, 0), (5, 0, 0)), 100);
}

#[test]
fn ceiling_distance_exact() {
    assert_eq!(distance_v((0, 0, 0), (3, 4, 0)), 5);
    assert_eq!(distance_v((0, 0, 0), (1, 1, 0)), 2);
    assert_eq!(distance_v((0, 0, 0), (0, 0, 0)), 0);
    assert_eq!(distance_v((0, 0, 0), (2, 0, 0)), 2);
    assert_eq!(distance(&at((0, 0, 0)), &at((0, 0, 7))), 7);
}

#[test]
fn score_order_is_lexicographic() {
    let a = HScore { jumps: 1, distance: 500 };
    let b = HScore { jumps: 2, distance: 0 };
    let c = HScore { jumps: 1, distance: 501 };
    assert!(a.lt(&b));
    assert!(a.lt(&c));
    assert!(!b.lt(&a));
    assert!(!a.lt(&a));
    let s = a.add(b);
    assert_eq!(s.jumps, 3);
    assert_eq!(s.distance, 500);
}
