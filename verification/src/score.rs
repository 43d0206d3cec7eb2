//! Route cost scores.
//!
//! A score is a lexicographic pair: number of jumps first, then total ceiling
//! distance as tiebreaker.  Fewer jumps always wins; on equal jumps the
//! smaller accumulated distance wins.  Addition is componentwise.

use vstd::prelude::*;

verus! {

/// Lexicographic (jumps, distance) cost, used for g-scores, h-scores and
/// f-scores in both routers.
#[derive(Clone, Copy, Debug, PartialEq, Eq, Structural)]
pub struct HScore {
    pub jumps: i64,
    pub distance: u64,
}

/// Strict lexicographic order on scores.
pub open spec fn hs_lt(a: HScore, b: HScore) -> bool {
    a.jumps < b.jumps || (a.jumps == b.jumps && a.distance < b.distance)
}

/// Componentwise sum of two scores.
pub open spec fn hs_add_spec(a: HScore, b: HScore) -> HScore {
    HScore { jumps: (a.jumps + b.jumps) as i64, distance: (a.distance + b.distance) as u64 }
}

impl HScore {
    /// Strict lexicographic comparison.
    pub fn lt(&self, other: &HScore) -> (r: bool)
        ensures
            r == hs_lt(*self, *other),
    {
        self.jumps < other.jumps || (self.jumps == other.jumps && self.distance < other.distance)
    }

    /// Componentwise sum.
    pub fn add(self, other: HScore) -> (r: HScore)
        requires
            i64::MIN <= self.jumps + other.jumps <= i64::MAX,
            self.distance + other.distance <= u64::MAX,
        ensures
            r == hs_add_spec(self, other),
            r.jumps == self.jumps + other.jumps,
            r.distance == self.distance + other.distance,
    {
        HScore { jumps: self.jumps + other.jumps, distance: self.distance + other.distance }
    }
}

} // verus!
