//! Overlap tests on pairs of closed integer ranges, each given as a slice
//! `[lo, hi]`.

use vstd::prelude::*;

verus! {

/// One of the two ranges fully contains the other.
pub fn contains(a: &[u32], b: &[u32]) -> (r: bool)
    requires
        a@.len() >= 2,
        b@.len() >= 2,
    ensures
        r == ((a@[0] <= b@[0] && b@[1] <= a@[1]) || (b@[0] <= a@[0] && a@[1] <= b@[1])),
{
    a[0] <= b[0] && b[1] <= a[1] || b[0] <= a[0] && a[1] <= b[1]
}

pub open spec fn between(x: u32, lo: u32, hi: u32) -> bool {
    lo <= x && x <= hi
}

/// The two ranges share at least one endpoint-bounded point.
pub fn overlaps(a: &[u32], b: &[u32]) -> (r: bool)
    requires
        a@.len() >= 2,
        b@.len() >= 2,
    ensures
        r == (between(a@[0], b@[0], b@[1]) || between(a@[1], b@[0], b@[1])
            || between(b@[0], a@[0], a@[1]) || between(b@[1], a@[0], a@[1])),
{
    (b[0] <= a[0] && a[0] <= b[1])
        || (b[0] <= a[1] && a[1] <= b[1])
        || (a[0] <= b[0] && b[0] <= a[1])
        || (a[0] <= b[1] && b[1] <= a[1])
}

} // verus!
