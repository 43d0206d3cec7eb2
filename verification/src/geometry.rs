//! Integer three-dimensional geometry.
//!
//! Coordinates are whole units on each axis.  Range tests ("is t within one
//! jump of s?") compare squared distances, which is exact.  Where a scalar
//! distance is needed (the secondary component of a route score), the integer
//! ceiling of the Euclidean distance is used: the least `r` with `r * r`
//! at least the squared distance.

use vstd::prelude::*;

verus! {

/// A position in 3D Cartesian space, in whole units per axis.
pub type V3 = (i64, i64, i64);

/// Largest coordinate magnitude the routers accept.  With every coordinate in
/// `[-COORD_LIMIT, COORD_LIMIT]`, a squared distance is at most
/// `3 * (2 * COORD_LIMIT)^2 < u64::MAX` and a ceiling distance fits in 22 bits.
pub const COORD_LIMIT: i64 = 0x10_0000;

/// Largest squared distance between two in-bounds positions.
pub const MAX_SQ_DIST: u64 = 0xC00_0000_0000;

/// Largest ceiling distance between two in-bounds positions.
pub const MAX_DIST: u64 = 0x40_0000;

pub open spec fn coords_bounded(p: V3) -> bool {
    &&& -COORD_LIMIT <= p.0 <= COORD_LIMIT
    &&& -COORD_LIMIT <= p.1 <= COORD_LIMIT
    &&& -COORD_LIMIT <= p.2 <= COORD_LIMIT
}

/// Squared Euclidean distance between two positions.
pub open spec fn sq_dist_spec(a: V3, b: V3) -> int {
    (a.0 - b.0) * (a.0 - b.0) + (a.1 - b.1) * (a.1 - b.1) + (a.2 - b.2) * (a.2 - b.2)
}

/// `r` is the integer ceiling of the square root of `n`.
pub open spec fn is_dist_ceil(n: int, r: int) -> bool {
    &&& 0 <= r
    &&& n <= r * r
    &&& r == 0 || (r - 1) * (r - 1) < n
}

/// The integer ceiling of the square root of `n`: the least `r >= 0` with
/// `r * r >= n`.
pub closed spec fn dist_ceil(n: int) -> int {
    choose|r: int| is_dist_ceil(n, r)
}

proof fn lemma_dist_ceil_exists(n: int) -> (r: int)
    requires
        n >= 0,
    ensures
        is_dist_ceil(n, r),
    decreases n,
{
    if n == 0 {
        0
    } else {
        let p = lemma_dist_ceil_exists(n - 1);
        if n <= p * p {
            assert((p - 1) * (p - 1) < n - 1 + 1);
            p
        } else {
            // p * p == n - 1 exactly, so p + 1 is the ceiling for n.
            assert(n <= (p + 1) * (p + 1)) by (nonlinear_arith)
                requires
                    p >= 0,
                    n == p * p + 1,
            ;
            p + 1
        }
    }
}

/// `dist_ceil(n)` satisfies its defining property for every `n >= 0`.
pub proof fn lemma_dist_ceil(n: int)
    requires
        n >= 0,
    ensures
        is_dist_ceil(n, dist_ceil(n)),
{
    let r = lemma_dist_ceil_exists(n);
    assert(is_dist_ceil(n, dist_ceil(n))) by {
        assert(is_dist_ceil(n, r));
    }
}

/// The integer ceiling of a square root is unique.
pub proof fn lemma_dist_ceil_unique(n: int, r: int)
    requires
        n >= 0,
        is_dist_ceil(n, r),
    ensures
        r == dist_ceil(n),
{
    lemma_dist_ceil(n);
    let c = dist_ceil(n);
    assert(r == c) by (nonlinear_arith)
        requires
            is_dist_ceil(n, r),
            is_dist_ceil(n, c),
            n >= 0,
    ;
}

fn square(a: i64) -> (r: i64)
    requires
        -0x20_0000 <= a <= 0x20_0000,
    ensures
        r == a * a,
        0 <= r <= 0x400_0000_0000,
{
    proof {
        assert(0 <= a * a <= 0x400_0000_0000) by (nonlinear_arith)
            requires
                -0x20_0000 <= a <= 0x20_0000,
        ;
    }
    a * a
}

/// Squared Euclidean distance between two in-bounds positions.
pub fn sq_dist(a: V3, b: V3) -> (r: u64)
    requires
        coords_bounded(a),
        coords_bounded(b),
    ensures
        r == sq_dist_spec(a, b),
        r <= MAX_SQ_DIST,
{
    let dx = square(a.0 - b.0);
    let dy = square(a.1 - b.1);
    let dz = square(a.2 - b.2);
    (dx + dy + dz) as u64
}

/// The least `r` with `r * r >= n`, by binary search.
fn sqrt_ceil(n: u64) -> (r: u64)
    requires
        n <= MAX_SQ_DIST,
    ensures
        r == dist_ceil(n as int),
        r <= MAX_DIST,
{
    let mut lo: u64 = 0;
    let mut hi: u64 = MAX_DIST;
    proof {
        assert(MAX_DIST * MAX_DIST >= n);
    }
    while lo < hi
        invariant
            0 <= lo <= hi <= MAX_DIST,
            hi * hi >= n,
            lo == 0 || (lo - 1) * (lo - 1) < n,
        decreases hi - lo,
    {
        let mid = lo + (hi - lo) / 2;
        proof {
            assert(mid * mid <= MAX_DIST * MAX_DIST) by (nonlinear_arith)
                requires
                    0 <= mid <= MAX_DIST,
            ;
        }
        if mid * mid >= n {
            hi = mid;
        } else {
            lo = mid + 1;
        }
    }
    proof {
        lemma_dist_ceil_unique(n as int, lo as int);
    }
    lo
}

/// Ceiling distance between two in-bounds positions.
pub fn distance_v(a: V3, b: V3) -> (r: u64)
    requires
        coords_bounded(a),
        coords_bounded(b),
    ensures
        r == dist_ceil(sq_dist_spec(a, b)),
        r <= MAX_DIST,
{
    let sq = sq_dist(a, b);
    sqrt_ceil(sq)
}

/// `(a + b - 1) / b`: the least `k` with `k * b >= a`, for `a >= 0`, `b >= 1`.
pub open spec fn ceil_div_spec(a: int, b: int) -> int {
    (a + b - 1) / b
}

/// Ceiling division.
pub fn ceil_div(a: u64, b: u64) -> (r: u64)
    requires
        b >= 1,
        a <= 0x1000_0000_0000_0000,
        b <= 0x1000_0000_0000_0000,
    ensures
        r == ceil_div_spec(a as int, b as int),
        r <= a,
{
    let r = (a + b - 1) / b;
    proof {
        assert(r <= a) by (nonlinear_arith)
            requires
                b >= 1,
                a >= 0,
                r == (a + b - 1) as int / b as int,
        ;
    }
    r
}

} // verus!
