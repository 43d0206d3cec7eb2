//! The star catalog: one record per system, sorted by distance from the
//! origin ("Sol"), plus the neutron adjacency records derived from it.

use vstd::prelude::*;

use crate::geometry::{
    coords_bounded, dist_ceil, distance_v, sq_dist_spec, COORD_LIMIT, MAX_DIST, V3,
};

verus! {

/// Largest catalog length the routers accept.
pub const MAX_SYSTEMS: usize = 0x800_0000;

/// Largest stored distance-from-origin the routers accept.
pub const DFS_LIMIT: u64 = 0x1_0000_0000;

/// One star system.  `is_neutron` is derived from the main-star-type label:
/// true exactly when the label is the literal "Neutron Star".
pub struct StarSystem {
    pub name: String,
    pub main_star_type: String,
    pub coords: V3,
    pub distance_from_sol: u64,
    pub is_neutron: bool,
}

/// One neutron star: its index into the global system sequence, and its
/// admitted neighbors as indices into the neutron sequence itself.
#[derive(Clone, Debug)]
pub struct NeutronStarSystem {
    pub idx: u32,
    pub neighbors: Vec<u32>,
}

/// A single system is within the bounds the routers accept.
pub open spec fn system_wf(s: StarSystem) -> bool {
    &&& coords_bounded(s.coords)
    &&& s.distance_from_sol <= DFS_LIMIT
}

/// The catalog is sorted by ascending distance from the origin.
pub open spec fn sorted_by_distance(ss: Seq<StarSystem>) -> bool {
    forall|i: int, j: int|
        0 <= i < j < ss.len() ==> #[trigger] ss[i].distance_from_sol
            <= #[trigger] ss[j].distance_from_sol
}

/// The catalog invariant assumed by both routers: bounded size, every record
/// in bounds, and sorted by distance from the origin.
pub open spec fn systems_wf(ss: Seq<StarSystem>) -> bool {
    &&& ss.len() <= MAX_SYSTEMS
    &&& forall|i: int| 0 <= i < ss.len() ==> system_wf(#[trigger] ss[i])
    &&& sorted_by_distance(ss)
}

/// The neutron sequence is consistent with the catalog: every entry points at
/// a neutron system, entries appear in catalog order, and every neighbor
/// reference stays inside the neutron sequence.
pub open spec fn neutrons_wf(ss: Seq<StarSystem>, ns: Seq<NeutronStarSystem>) -> bool {
    &&& ns.len() <= ss.len()
    &&& forall|k: int|
        0 <= k < ns.len() ==> {
            &&& (#[trigger] ns[k]).idx < ss.len()
            &&& ss[ns[k].idx as int].is_neutron
            &&& forall|j: int| 0 <= j < ns[k].neighbors.len() ==> #[trigger] ns[k].neighbors[j]
                < ns.len()
        }
    &&& forall|k: int, l: int| 0 <= k < l < ns.len() ==> (#[trigger] ns[k]).idx < (#[trigger] ns[l]).idx
}

impl StarSystem {
    /// Builds a record, deriving `is_neutron` from the main-star-type label.
    pub fn new(name: String, main_star_type: String, coords: V3, distance_from_sol: u64) -> (s:
        StarSystem)
        ensures
            s.name == name,
            s.main_star_type == main_star_type,
            s.coords == coords,
            s.distance_from_sol == distance_from_sol,
            s.is_neutron == (main_star_type@ == "Neutron Star"@),
    {
        let label: String = "Neutron Star".to_owned();
        let is_neutron = main_star_type == label;
        StarSystem { name, main_star_type, coords, distance_from_sol, is_neutron }
    }
}

/// Ceiling Euclidean distance between two systems.
pub fn distance(a: &StarSystem, b: &StarSystem) -> (r: u64)
    requires
        coords_bounded(a.coords),
        coords_bounded(b.coords),
    ensures
        r == dist_ceil(sq_dist_spec(a.coords, b.coords)),
        r <= MAX_DIST,
{
    distance_v(a.coords, b.coords)
}

/// Stable insertion of `x` into a sequence sorted by distance from origin:
/// `x` goes after every element whose key is less than or equal to its own.
pub open spec fn insert_by_distance(s: Seq<StarSystem>, x: StarSystem) -> Seq<StarSystem>
    decreases s.len(),
{
    if s.len() == 0 {
        seq![x]
    } else if x.distance_from_sol < s.last().distance_from_sol {
        insert_by_distance(s.drop_last(), x).push(s.last())
    } else {
        s.push(x)
    }
}

/// Stable sort of the catalog by distance from origin.
pub open spec fn sort_by_distance_spec(s: Seq<StarSystem>) -> Seq<StarSystem>
    decreases s.len(),
{
    if s.len() == 0 {
        Seq::empty()
    } else {
        insert_by_distance(sort_by_distance_spec(s.drop_last()), s.last())
    }
}

proof fn lemma_insert_by_distance_sorted(s: Seq<StarSystem>, x: StarSystem)
    requires
        sorted_by_distance(s),
    ensures
        sorted_by_distance(insert_by_distance(s, x)),
        insert_by_distance(s, x).len() == s.len() + 1,
        insert_by_distance(s, x).to_multiset() == s.to_multiset().insert(x),
    decreases s.len(),
{
    s.to_multiset_ensures();
    if s.len() == 0 {
        assert(insert_by_distance(s, x) =~= s.push(x));
        assert(s.push(x).to_multiset() =~= s.to_multiset().insert(x));
    } else if x.distance_from_sol < s.last().distance_from_sol {
        let inner = insert_by_distance(s.drop_last(), x);
        assert(sorted_by_distance(s.drop_last())) by {
            assert(forall|i: int, j: int|
                0 <= i < j < s.drop_last().len() ==> #[trigger] s.drop_last()[i].distance_from_sol
                    <= #[trigger] s.drop_last()[j].distance_from_sol) by {
                assert(forall|i: int|
                    0 <= i < s.drop_last().len() ==> #[trigger] s.drop_last()[i] == s[i]);
            }
        }
        lemma_insert_by_distance_sorted(s.drop_last(), x);
        let r = inner.push(s.last());
        // Every element of `inner` is an element of `s.drop_last()` or `x`,
        // all of which have keys at most `s.last()`'s.
        assert forall|i: int, j: int| 0 <= i < j < r.len() implies #[trigger] r[i].distance_from_sol
            <= #[trigger] r[j].distance_from_sol by {
            if j < inner.len() {
            } else {
                // r[j] == s.last(); show r[i]'s key is at most s.last()'s.
                assert(r[j] == s.last());
                assert(inner.to_multiset().contains(r[i])) by {
                    inner.to_multiset_ensures();
                }
                assert(s.drop_last().to_multiset().insert(x).contains(r[i]));
                if r[i] == x {
                } else {
                    assert(s.drop_last().to_multiset().contains(r[i]));
                    s.drop_last().to_multiset_ensures();
                    let k = choose|k: int|
                        0 <= k < s.drop_last().len() && s.drop_last()[k] == r[i];
                    assert(s[k] == r[i]);
                    assert(s[k].distance_from_sol <= s.last().distance_from_sol);
                }
            }
        }
        assert(r.to_multiset() =~= s.to_multiset().insert(x)) by {
            inner.to_multiset_ensures();
            s.drop_last().to_multiset_ensures();
            assert(inner.push(s.last()).to_multiset() =~= inner.to_multiset().insert(s.last()));
            assert(s.drop_last().push(s.last()) =~= s);
            assert(s.drop_last().push(s.last()).to_multiset() =~= s.drop_last().to_multiset()
                .insert(s.last()));
        }
    } else {
        let r = s.push(x);
        assert forall|i: int, j: int| 0 <= i < j < r.len() implies #[trigger] r[i].distance_from_sol
            <= #[trigger] r[j].distance_from_sol by {
            if j < s.len() {
            } else {
                assert(r[j] == x);
                assert(s[i].distance_from_sol <= s.last().distance_from_sol);
            }
        }
        assert(s.push(x).to_multiset() =~= s.to_multiset().insert(x));
    }
}

/// The specified sort really sorts and keeps exactly the input records.
pub proof fn lemma_sort_by_distance_spec(s: Seq<StarSystem>)
    ensures
        sorted_by_distance(sort_by_distance_spec(s)),
        sort_by_distance_spec(s).len() == s.len(),
        sort_by_distance_spec(s).to_multiset() == s.to_multiset(),
    decreases s.len(),
{
    if s.len() == 0 {
        assert(s =~= Seq::<StarSystem>::empty());
    } else {
        lemma_sort_by_distance_spec(s.drop_last());
        lemma_insert_by_distance_sorted(sort_by_distance_spec(s.drop_last()), s.last());
        s.drop_last().to_multiset_ensures();
        assert(s.drop_last().push(s.last()) =~= s);
        assert(s.drop_last().push(s.last()).to_multiset() =~= s.drop_last().to_multiset().insert(
            s.last(),
        ));
        assert(sort_by_distance_spec(s) == insert_by_distance(
            sort_by_distance_spec(s.drop_last()),
            s.last(),
        ));
        assert(sort_by_distance_spec(s).to_multiset() == sort_by_distance_spec(
            s.drop_last(),
        ).to_multiset().insert(s.last()));
    }
}

/// `x` belongs at position `p` of the sorted sequence `s`: everything before
/// `p` has a key at most `x`'s, everything from `p` on has a larger key.
proof fn lemma_insert_position(s: Seq<StarSystem>, x: StarSystem, p: int)
    requires
        sorted_by_distance(s),
        0 <= p <= s.len(),
        forall|i: int| 0 <= i < p ==> (#[trigger] s[i]).distance_from_sol <= x.distance_from_sol,
        forall|i: int| p <= i < s.len() ==> (#[trigger] s[i]).distance_from_sol
            > x.distance_from_sol,
    ensures
        insert_by_distance(s, x) == s.take(p) + seq![x] + s.skip(p),
    decreases s.len(),
{
    if s.len() == 0 {
        assert(insert_by_distance(s, x) =~= s.take(p) + seq![x] + s.skip(p));
    } else if p == s.len() {
        assert(!(x.distance_from_sol < s.last().distance_from_sol));
        assert(insert_by_distance(s, x) == s.push(x));
        assert(s.push(x) =~= s.take(p) + seq![x] + s.skip(p));
    } else {
        assert(s.last().distance_from_sol > x.distance_from_sol);
        assert(sorted_by_distance(s.drop_last())) by {
            assert(forall|i: int|
                0 <= i < s.drop_last().len() ==> #[trigger] s.drop_last()[i] == s[i]);
        }
        assert(forall|i: int|
            0 <= i < p ==> (#[trigger] s.drop_last()[i]).distance_from_sol
                <= x.distance_from_sol);
        assert(forall|i: int|
            p <= i < s.drop_last().len() ==> (#[trigger] s.drop_last()[i]).distance_from_sol
                > x.distance_from_sol);
        lemma_insert_position(s.drop_last(), x, p);
        assert(insert_by_distance(s, x) == insert_by_distance(s.drop_last(), x).push(s.last()));
        assert((s.drop_last().take(p) + seq![x] + s.drop_last().skip(p)).push(s.last()) =~= s.take(
            p,
        ) + seq![x] + s.skip(p));
    }
}

/// Stable insertion sort of the catalog by ascending distance from origin.
/// This is the ordering invariant every other component relies on.
pub fn sort_star_systems(systems: Vec<StarSystem>) -> (r: Vec<StarSystem>)
    ensures
        r@ == sort_by_distance_spec(systems@),
        sorted_by_distance(r@),
        r@.len() == systems@.len(),
        r@.to_multiset() == systems@.to_multiset(),
{
    let ghost orig = systems@;
    let mut rest = systems;
    let mut out: Vec<StarSystem> = Vec::new();
    let ghost n = orig.len() as int;
    while rest.len() > 0
        invariant
            rest@ =~= orig.skip(n - rest@.len() as int),
            0 <= rest@.len() <= n == orig.len(),
            out@ == sort_by_distance_spec(orig.take(n - rest@.len() as int)),
            sorted_by_distance(out@),
        decreases rest@.len(),
    {
        let ghost done = n - rest@.len() as int;
        let x = rest.remove(0);
        proof {
            assert(rest@ =~= orig.skip(done + 1));
            assert(x == orig[done]);
            assert(x == orig.take(done + 1).last());
            assert(orig.take(done + 1).drop_last() =~= orig.take(done));
        }
        // Find the stable insertion point: after every key <= x's key.
        let mut p: usize = out.len();
        while p > 0 && out[p - 1].distance_from_sol > x.distance_from_sol
            invariant
                0 <= p <= out@.len(),
                forall|i: int| p <= i < out@.len() ==> (#[trigger] out@[i]).distance_from_sol
                    > x.distance_from_sol,
            decreases p,
        {
            p = p - 1;
        }
        proof {
            assert(forall|i: int|
                0 <= i < p ==> (#[trigger] out@[i]).distance_from_sol <= x.distance_from_sol) by {
                if p > 0 {
                    assert(out@[p - 1].distance_from_sol <= x.distance_from_sol);
                    assert(forall|i: int|
                        0 <= i < p ==> (#[trigger] out@[i]).distance_from_sol
                            <= out@[p - 1].distance_from_sol);
                }
            }
            lemma_insert_position(out@, x, p as int);
            lemma_insert_by_distance_sorted(out@, x);
        }
        let ghost pre = out@;
        out.insert(p, x);
        proof {
            assert(out@ =~= pre.take(p as int) + seq![x] + pre.skip(p as int));
            assert(out@ == insert_by_distance(pre, x));
            assert(out@ == sort_by_distance_spec(orig.take(done + 1)));
        }
    }
    proof {
        assert(orig.take(n - rest@.len() as int) =~= orig);
        lemma_sort_by_distance_spec(orig);
    }
    out
}

} // verus!
