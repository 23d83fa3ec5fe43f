//! Closed integer ranges and a set of disjoint ranges kept normalized by
//! sorting and merging. Merging preserves exactly the covered integers; the
//! stored ranges stay ordered with gaps of at least two between them, so a
//! single uncovered point shows up as a hole between two stored ranges.

use vstd::prelude::*;
use vstd::multiset::Multiset;
use vstd::seq_lib::group_to_multiset_ensures;

verus! {

#[derive(Debug, Eq, PartialEq, Structural, Clone, Copy)]
pub struct Range {
    pub lo: i32,
    pub hi: i32,
}

pub open spec fn range_wf(r: Range) -> bool {
    r.lo <= r.hi
}

/// The ranges share a point, or sit exactly next to each other.
pub open spec fn overlaps_spec(a: Range, b: Range) -> bool {
    !(a.hi < b.lo || a.lo > b.hi) || (a.hi - b.lo == 1 || b.lo - a.hi == 1)
}

/// Lexicographic order on `(lo, hi)`.
pub open spec fn lex_le(a: Range, b: Range) -> bool {
    a.lo < b.lo || (a.lo == b.lo && a.hi <= b.hi)
}

pub open spec fn sorted_lex(s: Seq<Range>) -> bool {
    forall|i: int| 0 <= i < s.len() - 1 ==> lex_le(#[trigger] s[i], s[i + 1])
}

/// Consecutive stored ranges are separated by a gap of at least two.
pub open spec fn normalized(s: Seq<Range>) -> bool {
    forall|i: int| 0 <= i < s.len() - 1 ==> (#[trigger] s[i]).hi + 1 < s[i + 1].lo
}

pub open spec fn all_wf(s: Seq<Range>) -> bool {
    forall|i: int| 0 <= i < s.len() ==> range_wf(#[trigger] s[i])
}

/// `x` lies in one of the ranges.
pub open spec fn covers(s: Seq<Range>, x: int) -> bool {
    exists|i: int| 0 <= i < s.len() && (#[trigger] s[i]).lo <= x <= s[i].hi
}

impl Range {
    /// A closed range from `lo` up to `hi`.
    pub fn new(lo: i32, hi: i32) -> (r: Range)
        requires
            lo <= hi,
        ensures
            r.lo == lo && r.hi == hi,
    {
        Range { lo, hi }
    }

    /// Absorb an overlapping or touching range.
    pub fn extend(&mut self, other: &Range)
        requires
            overlaps_spec(*old(self), *other),
        ensures
            final(self).lo == if old(self).lo <= other.lo {
                old(self).lo
            } else {
                other.lo
            },
            final(self).hi == if old(self).hi >= other.hi {
                old(self).hi
            } else {
                other.hi
            },
    {
        if other.lo < self.lo {
            self.lo = other.lo;
        }
        if other.hi > self.hi {
            self.hi = other.hi;
        }
    }

    /// The ranges share a point or are directly adjacent.
    pub fn overlaps(&self, r: &Range) -> (b: bool)
        ensures
            b == overlaps_spec(*self, *r),
    {
        let share = !(self.hi < r.lo || self.lo > r.hi);
        let touch_hi = self.hi as i64 - r.lo as i64;
        share || touch_hi == 1 || touch_hi == -1
    }
}

#[derive(Debug)]
pub struct RangeSet {
    pub inner: Vec<Range>,
}

/// Covering a normalized pair of touching intervals is the same as covering
/// their hull.
proof fn lemma_hull(a: Range, b: Range, x: int)
    requires
        range_wf(a),
        range_wf(b),
        overlaps_spec(a, b),
    ensures
        ((if a.lo <= b.lo {
            a.lo as int
        } else {
            b.lo as int
        }) <= x <= (if a.hi >= b.hi {
            a.hi as int
        } else {
            b.hi as int
        })) <==> (a.lo <= x <= a.hi || b.lo <= x <= b.hi),
{
}

/// Index of the lexicographically least element of `v`, earliest first.
#[verifier::loop_isolation(false)]
fn min_index(v: &Vec<Range>) -> (m: usize)
    requires
        v@.len() >= 1,
    ensures
        m < v@.len(),
        forall|i: int| 0 <= i < v@.len() ==> lex_le(v@[m as int], #[trigger] v@[i]),
        forall|i: int| 0 <= i < m ==> !lex_le(#[trigger] v@[i], v@[m as int]),
{
    let mut m: usize = 0;
    let mut i: usize = 1;
    while i < v.len()
        invariant
            m < i,
            i <= v@.len(),
            m < v@.len(),
            forall|k: int| 0 <= k < i ==> lex_le(v@[m as int], #[trigger] v@[k]),
            forall|k: int| 0 <= k < m ==> !lex_le(#[trigger] v@[k], v@[m as int]),
        decreases v@.len() - i,
    {
        let c = v[i];
        let best = v[m];
        if c.lo < best.lo || (c.lo == best.lo && c.hi < best.hi) {
            m = i;
        }
        i += 1;
    }
    m
}

/// Sort ranges by `(lo, hi)`, keeping exactly the same elements.
#[verifier::loop_isolation(false)]
fn sort_ranges(v: &Vec<Range>) -> (out: Vec<Range>)
    ensures
        out@.len() == v@.len(),
        sorted_lex(out@),
        out@.to_multiset() == v@.to_multiset(),
        forall|x: int| covers(out@, x) == covers(v@, x),
        all_wf(v@) ==> all_wf(out@),
{
    broadcast use group_to_multiset_ensures;

    let mut rem: Vec<Range> = Vec::new();
    let mut i: usize = 0;
    while i < v.len()
        invariant
            i <= v@.len(),
            rem@ == v@.take(i as int),
        decreases v@.len() - i,
    {
        rem.push(v[i]);
        proof {
            assert(rem@ =~= v@.take(i + 1));
        }
        i += 1;
    }
    proof {
        assert(v@.take(v@.len() as int) =~= v@);
    }

    let mut out: Vec<Range> = Vec::new();
    while rem.len() > 0
        invariant
            out@.to_multiset().add(rem@.to_multiset()) == v@.to_multiset(),
            sorted_lex(out@),
            forall|j: int, k: int|
                0 <= j < out@.len() && 0 <= k < rem@.len() ==> lex_le(
                    #[trigger] out@[j],
                    #[trigger] rem@[k],
                ),
            out@.len() + rem@.len() == v@.len(),
        decreases rem@.len(),
    {
        let m = min_index(&rem);
        let picked = rem[m];
        out.push(picked);
        rem.remove(m);
        proof {
            assert(out@.drop_last() =~= out@.subrange(0, out@.len() - 1));
            assert(out@.to_multiset().add(rem@.to_multiset()) =~= v@.to_multiset());
        }
    }
    proof {
        assert(rem@.to_multiset() =~= Multiset::<Range>::empty());
        assert(out@.to_multiset() =~= v@.to_multiset());
        assert forall|x: int| covers(out@, x) == covers(v@, x) by {
            lemma_multiset_covers(out@, v@, x);
        }
        if all_wf(v@) {
            assert forall|k: int| 0 <= k < out@.len() implies range_wf(#[trigger] out@[k]) by {
                assert(out@.to_multiset().count(out@[k]) > 0);
                assert(v@.contains(out@[k]));
            }
        }
    }
    out
}

/// In a lex-sorted sequence the `lo` bounds are nondecreasing.
proof fn lemma_sorted_lo(s: Seq<Range>, i: int, j: int)
    requires
        sorted_lex(s),
        0 <= i <= j < s.len(),
    ensures
        s[i].lo <= s[j].lo,
    decreases j - i,
{
    if i < j {
        lemma_sorted_lo(s, i, j - 1);
        assert(lex_le(s[j - 1], s[j]));
    }
}

/// Sequences with equal multisets cover the same integers.
proof fn lemma_multiset_covers(a: Seq<Range>, b: Seq<Range>, x: int)
    requires
        a.to_multiset() == b.to_multiset(),
    ensures
        covers(a, x) == covers(b, x),
{
    broadcast use group_to_multiset_ensures;

    if covers(a, x) {
        let i = choose|i: int| 0 <= i < a.len() && (#[trigger] a[i]).lo <= x <= a[i].hi;
        assert(a.contains(a[i]));
        assert(a.to_multiset().count(a[i]) > 0);
        assert(b.to_multiset().count(a[i]) > 0);
        assert(b.contains(a[i]));
        assert(exists|j: int| 0 <= j < b.len() && b[j] == a[i]);
        let j = choose|j: int| 0 <= j < b.len() && b[j] == a[i];
        assert(b[j].lo <= x <= b[j].hi);
        assert(covers(b, x));
    }
    if covers(b, x) {
        let i = choose|i: int| 0 <= i < b.len() && (#[trigger] b[i]).lo <= x <= b[i].hi;
        assert(b.contains(b[i]));
        assert(b.to_multiset().count(b[i]) > 0);
        assert(a.to_multiset().count(b[i]) > 0);
        assert(a.contains(b[i]));
        assert(exists|j: int| 0 <= j < a.len() && a[j] == b[i]);
        let j = choose|j: int| 0 <= j < a.len() && a[j] == b[i];
        assert(a[j].lo <= x <= a[j].hi);
        assert(covers(a, x));
    }
}

impl RangeSet {
    /// An empty set of ranges.
    pub fn new() -> (s: RangeSet)
        ensures
            s.inner@.len() == 0,
    {
        RangeSet { inner: Vec::new() }
    }

    /// More than one stored range: the covered region has a gap.
    pub fn disjoint(&self) -> (r: bool)
        ensures
            r == (self.inner@.len() > 1),
    {
        self.inner.len() > 1
    }

    /// The single integer sitting between two stored ranges, as the midpoint
    /// of the gap boundaries.
    pub fn hole(&self) -> (x: i32)
        requires
            self.inner@.len() == 2,
        ensures
            ({
                let s = self.inner@[0].hi + self.inner@[1].lo;
                if s >= 0 {
                    x == s / 2
                } else {
                    x == -((-s) / 2)
                }
            }),
    {
        let s: i64 = self.inner[0].hi as i64 + self.inner[1].lo as i64;
        if s >= 0 {
            let q: u64 = (s as u64) / 2;
            proof {
                assert(q <= i32::MAX);
            }
            q as i32
        } else {
            let q: u64 = ((-s) as u64) / 2;
            let r: i64 = -(q as i64);
            proof {
                assert(i32::MIN <= r <= 0);
            }
            r as i32
        }
    }

    /// Add `[lo, hi]` to the set and renormalize: afterwards the stored
    /// ranges are sorted, pairwise separated by gaps of at least two, and
    /// cover exactly the integers covered before plus `lo ..= hi`.
    #[verifier::loop_isolation(false)]
    #[verifier::rlimit(80)]
    pub fn union(&mut self, lo: i32, hi: i32)
        requires
            lo <= hi,
            all_wf(old(self).inner@),
        ensures
            all_wf(final(self).inner@),
            sorted_lex(final(self).inner@),
            normalized(final(self).inner@),
            final(self).inner@.len() >= 1,
            forall|x: int|
                covers(final(self).inner@, x) == (covers(old(self).inner@, x) || lo <= x <= hi),
    {
        let ghost s0 = self.inner@;
        self.inner.push(Range { lo, hi });
        let ghost s1 = self.inner@;
        proof {
            assert forall|x: int|
                covers(self.inner@, x) == (covers(s0, x) || lo <= x <= hi) by {
                if covers(s0, x) {
                    let i = choose|i: int|
                        0 <= i < s0.len() && (#[trigger] s0[i]).lo <= x <= s0[i].hi;
                    assert(self.inner@[i] == s0[i]);
                }
                if covers(self.inner@, x) {
                    let i = choose|i: int|
                        0 <= i < self.inner@.len() && (#[trigger] self.inner@[i]).lo <= x
                            <= self.inner@[i].hi;
                    if i < s0.len() {
                        assert(covers(s0, x));
                    }
                }
                if lo <= x <= hi {
                    assert(self.inner@[s0.len() as int].lo <= x <= self.inner@[s0.len() as int].hi);
                }
            }
        }
        let sorted = sort_ranges(&self.inner);
        let ghost sv = sorted@;

        let mut merged: Vec<Range> = Vec::new();
        merged.push(sorted[0]);
        let mut t: usize = 1;
        proof {
            assert forall|k: int| 1 <= k < sv.len() implies sv[0].lo <= (#[trigger] sv[k]).lo by {
                lemma_sorted_lo(sv, 0, k);
            }
            assert(sv.take(1).drop_last() =~= sv.take(0));
            assert forall|x: int| covers(merged@, x) == covers(sv.take(1), x) by {
                if covers(merged@, x) {
                    assert(sv.take(1)[0].lo <= x <= sv.take(1)[0].hi);
                }
                if covers(sv.take(1), x) {
                    let i = choose|i: int|
                        0 <= i < sv.take(1).len() && (#[trigger] sv.take(1)[i]).lo <= x
                            <= sv.take(1)[i].hi;
                    assert(merged@[0].lo <= x <= merged@[0].hi);
                }
            }
        }
        while t < sorted.len()
            invariant
                1 <= t <= sv.len(),
                sv == sorted@,
                merged@.len() >= 1,
                all_wf(sv),
                sorted_lex(sv),
                all_wf(merged@),
                sorted_lex(merged@),
                normalized(merged@),
                // the last merged range opened at or before every unprocessed one
                forall|k: int| t <= k < sv.len() ==> merged@.last().lo <= (#[trigger] sv[k]).lo,
                forall|x: int| covers(merged@, x) == covers(sv.take(t as int), x),
            decreases sv.len() - t,
        {
            let ghost mpre = merged@;
            let last = merged[merged.len() - 1];
            let r = sorted[t];
            proof {
                assert(sv.take(t + 1).drop_last() =~= sv.take(t as int));
                assert(sv.take(t + 1).last() == sv[t as int]);
                assert forall|x: int|
                    covers(sv.take(t + 1), x) == (covers(sv.take(t as int), x) || (sv[t as int].lo
                        <= x <= sv[t as int].hi)) by {
                    let pre = sv.take(t as int);
                    let cur = sv.take(t + 1);
                    if covers(pre, x) {
                        let i = choose|i: int|
                            0 <= i < pre.len() && (#[trigger] pre[i]).lo <= x <= pre[i].hi;
                        assert(cur[i] == pre[i]);
                    }
                    if covers(cur, x) {
                        let i = choose|i: int|
                            0 <= i < cur.len() && (#[trigger] cur[i]).lo <= x <= cur[i].hi;
                        if i < pre.len() {
                            assert(covers(pre, x));
                        }
                    }
                    if sv[t as int].lo <= x <= sv[t as int].hi {
                        assert(cur[t as int].lo <= x <= cur[t as int].hi);
                    }
                }
            }
            if last.overlaps(&r) {
                let mut ext = last;
                ext.extend(&r);
                let mi = merged.len() - 1;
                merged[mi] = ext;
                proof {
                    assert forall|x: int|
                        covers(merged@, x) == covers(sv.take(t + 1), x) by {
                        lemma_hull(last, r, x);
                        if covers(merged@, x) {
                            let i = choose|i: int|
                                0 <= i < merged@.len() && (#[trigger] merged@[i]).lo <= x
                                    <= merged@[i].hi;
                            if i < merged@.len() - 1 {
                                assert(mpre[i].lo <= x <= mpre[i].hi);
                                assert(covers(mpre, x));
                            }
                        }
                        if covers(mpre, x) {
                            let i = choose|i: int|
                                0 <= i < mpre.len() && (#[trigger] mpre[i]).lo <= x <= mpre[i].hi;
                            if i < mpre.len() - 1 {
                                assert(merged@[i].lo <= x <= merged@[i].hi);
                            } else {
                                assert(merged@.last().lo <= x <= merged@.last().hi);
                            }
                        }
                    }
                }
            } else {
                merged.push(r);
                proof {
                    assert forall|k: int|
                        t + 1 <= k < sv.len() implies merged@.last().lo <= (
                    #[trigger] sv[k]).lo by {
                        lemma_sorted_lo(sv, t as int, k);
                    }
                    assert forall|x: int|
                        covers(merged@, x) == covers(sv.take(t + 1), x) by {
                        if covers(mpre, x) {
                            let i = choose|i: int|
                                0 <= i < mpre.len() && (#[trigger] mpre[i]).lo <= x <= mpre[i].hi;
                            assert(merged@[i].lo <= x <= merged@[i].hi);
                        }
                        if covers(merged@, x) {
                            let i = choose|i: int|
                                0 <= i < merged@.len() && (#[trigger] merged@[i]).lo <= x
                                    <= merged@[i].hi;
                            if i < mpre.len() {
                                assert(covers(mpre, x));
                            }
                        }
                    }
                    // separation of the new last element from the previous one
                    assert(last.hi + 1 < r.lo);
                }
            }
            t += 1;
        }
        proof {
            assert(sv.take(sv.len() as int) =~= sv);
            assert forall|x: int|
                covers(merged@, x) == (covers(s0, x) || lo <= x <= hi) by {
                assert(covers(merged@, x) == covers(sv.take(sv.len() as int), x));
                assert(covers(sv, x) == covers(s1, x));
                assert(covers(s1, x) == (covers(s0, x) || lo <= x <= hi));
            }
        }
        self.inner = merged;
    }
}


pub open spec fn iabs(v: int) -> int {
    if v < 0 {
        -v
    } else {
        v
    }
}

/// Manhattan distance between two grid points.
pub fn distance(a: (i32, i32), b: (i32, i32)) -> (d: i32)
    requires
        iabs(a.0 - b.0) + iabs(a.1 - b.1) <= i32::MAX,
    ensures
        d == iabs(a.0 - b.0) + iabs(a.1 - b.1),
{
    let dx = a.0 as i64 - b.0 as i64;
    let dy = a.1 as i64 - b.1 as i64;
    let ax = if dx < 0 {
        -dx
    } else {
        dx
    };
    let ay = if dy < 0 {
        -dy
    } else {
        dy
    };
    (ax + ay) as i32
}

} // verus!
