//! Time-expanded search through a valley of moving blizzards. Snapshots of
//! the blizzard positions are computed one tick at a time and cached, never
//! recomputed; the explorer works on `(position, time)` states, and no state
//! it records is ever blocked at its time.

use vstd::prelude::*;

verus! {

/// Hard recursion ceiling of the explorer: a guard rail, not part of the
/// algorithm.
pub const CEILING: usize = 2000;

#[derive(PartialEq, Eq, Hash, Clone, Copy, Debug)]
pub enum Dir {
    U,
    D,
    L,
    R,
}

#[derive(PartialEq, Eq, Hash, Clone, Copy, Debug)]
pub struct Blizzard {
    pub pos: (i32, i32),
    pub dir: Dir,
}

#[derive(Debug)]
pub struct TimeSlice {
    pub blizzards: Vec<Blizzard>,
}

#[derive(Debug)]
pub struct Time {
    pub width: i32,
    pub height: i32,
    pub slices: Vec<TimeSlice>,
}

/// Deterministic motion of one blizzard, wrapping at the valley edges.
pub open spec fn step_blizzard(b: Blizzard, width: int, height: int) -> Blizzard {
    let (x0, y0) = b.pos;
    let pos = match b.dir {
        Dir::U => (x0 as int, if y0 == 0 { height - 1 } else { y0 - 1 }),
        Dir::D => (x0 as int, if y0 + 1 == height { 0 } else { y0 + 1 }),
        Dir::L => (if x0 == 0 { width - 1 } else { x0 - 1 }, y0 as int),
        Dir::R => (if x0 + 1 == width { 0 } else { x0 + 1 }, y0 as int),
    };
    Blizzard { pos: (pos.0 as i32, pos.1 as i32), dir: b.dir }
}

/// One tick of motion applied to a whole configuration.
pub open spec fn step_all(bs: Seq<Blizzard>, width: int, height: int) -> Seq<Blizzard> {
    bs.map_values(|b: Blizzard| step_blizzard(b, width, height))
}

/// Some blizzard of the slice occupies `(x, y)`.
pub open spec fn blocked_at(bs: Seq<Blizzard>, x: int, y: int) -> bool {
    exists|i: int| 0 <= i < bs.len() && (#[trigger] bs[i]).pos.0 == x && bs[i].pos.1 == y
}

/// Every blizzard of every cached slice lies inside the valley.
pub open spec fn time_wf(t: Time) -> bool {
    &&& t.width >= 1
    &&& t.height >= 1
    &&& t.slices@.len() >= 1
    &&& forall|s: int, i: int|
        0 <= s < t.slices@.len() && 0 <= i < t.slices@[s].blizzards@.len() ==> {
            let b = #[trigger] t.slices@[s].blizzards@[i];
            0 <= b.pos.0 < t.width && 0 <= b.pos.1 < t.height
        }
}

impl TimeSlice {
    /// The first blizzard occupying `(x, y)`, if any.
    pub fn blizzard_at(&self, x: i32, y: i32) -> (r: Option<&Blizzard>)
        ensures
            r.is_some() == blocked_at(self.blizzards@, x as int, y as int),
            match r {
                Some(b) => b.pos.0 == x && b.pos.1 == y && exists|i: int|
                    0 <= i < self.blizzards@.len() && self.blizzards@[i] == *b,
                None => true,
            },
    {
        let mut i: usize = 0;
        while i < self.blizzards.len()
            invariant
                i <= self.blizzards@.len(),
                forall|k: int|
                    0 <= k < i ==> !((#[trigger] self.blizzards@[k]).pos.0 == x
                        && self.blizzards@[k].pos.1 == y),
            decreases self.blizzards@.len() - i,
        {
            let b = &self.blizzards[i];
            if b.pos.0 == x && b.pos.1 == y {
                return Some(b);
            }
            i += 1;
        }
        None
    }
}

impl Time {
    /// Derive and cache the next snapshot: every blizzard of the newest slice
    /// moves one step, wrapping at the edges. Earlier slices are untouched.
    #[verifier::loop_isolation(false)]
    pub fn tick(&mut self)
        requires
            time_wf(*old(self)),
        ensures
            time_wf(*final(self)),
            final(self).width == old(self).width,
            final(self).height == old(self).height,
            final(self).slices@.len() == old(self).slices@.len() + 1,
            forall|s: int|
                0 <= s < old(self).slices@.len() ==> #[trigger] final(self).slices@[s]
                    == old(self).slices@[s],
            final(self).slices@.last().blizzards@ == step_all(
                old(self).slices@.last().blizzards@,
                old(self).width as int,
                old(self).height as int,
            ),
    {
        let n = self.slices.len();
        let w = self.width;
        let h = self.height;
        let ghost lastv = self.slices@.last().blizzards@;
        let mut moved: Vec<Blizzard> = Vec::new();
        let mut i: usize = 0;
        while i < self.slices[n - 1].blizzards.len()
            invariant
                i <= lastv.len(),
                moved@.len() == i,
                self == old(self),
                lastv == self.slices@.last().blizzards@,
                forall|k: int|
                    0 <= k < i ==> #[trigger] moved@[k] == step_blizzard(
                        lastv[k],
                        w as int,
                        h as int,
                    ),
            decreases lastv.len() - i,
        {
            let b = self.slices[n - 1].blizzards[i];
            let (x0, y0) = b.pos;
            let pos = match b.dir {
                Dir::U => (x0, if y0 == 0 { h - 1 } else { y0 - 1 }),
                Dir::D => (x0, if y0 + 1 == h { 0 } else { y0 + 1 }),
                Dir::L => (if x0 == 0 { w - 1 } else { x0 - 1 }, y0),
                Dir::R => (if x0 + 1 == w { 0 } else { x0 + 1 }, y0),
            };
            moved.push(Blizzard { pos, dir: b.dir });
            i += 1;
        }
        proof {
            assert(moved@ =~= step_all(lastv, w as int, h as int));
        }
        self.slices.push(TimeSlice { blizzards: moved });
    }
}

/// A cell outside the valley is never blocked.
proof fn lemma_outside_not_blocked(t: Time, s: int, x: int, y: int)
    requires
        time_wf(t),
        0 <= s < t.slices@.len(),
        x < 0 || x >= t.width || y < 0 || y >= t.height,
    ensures
        !blocked_at(t.slices@[s].blizzards@, x, y),
{
}

/// The blizzard configuration at tick `t`: the cached slice where one
/// exists, the motion rule applied to the newest one beyond them.
pub open spec fn snapshot(tm: Time, t: int) -> Seq<Blizzard>
    decreases t,
{
    if t < 0 {
        Seq::empty()
    } else if t < tm.slices@.len() {
        tm.slices@[t].blizzards@
    } else if t == 0 {
        Seq::empty()
    } else {
        step_all(snapshot(tm, t - 1), tm.width as int, tm.height as int)
    }
}

/// Every snapshot the explorer can reach under its ceiling.
pub open spec fn all_snapshots(tm: Time) -> Seq<Seq<Blizzard>> {
    Seq::new((CEILING + 2) as nat, |i: int| snapshot(tm, i))
}

/// `tm` carries the same world as `tm0`: equal dimensions, and every cached
/// slice equal to the corresponding derived snapshot of `tm0`.
pub open spec fn matches_snaps(tm: Time, tm0: Time) -> bool {
    &&& tm.width == tm0.width
    &&& tm.height == tm0.height
    &&& tm.slices@.len() >= tm0.slices@.len()
    &&& forall|i: int|
        0 <= i < tm.slices@.len() ==> #[trigger] tm.slices@[i].blizzards@ == snapshot(tm0, i)
}

proof fn lemma_snapshot_agrees(tm0: Time, cur: Time, i: int)
    requires
        matches_snaps(cur, tm0),
    ensures
        snapshot(cur, i) == snapshot(tm0, i),
    decreases i,
{
    if i >= 1 && i >= cur.slices@.len() {
        lemma_snapshot_agrees(tm0, cur, i - 1);
    }
}

proof fn lemma_all_snapshots_agree(tm0: Time, cur: Time)
    requires
        matches_snaps(cur, tm0),
    ensures
        all_snapshots(cur) == all_snapshots(tm0),
{
    assert forall|i: int|
        0 <= i < CEILING + 2 implies snapshot(cur, i) == snapshot(tm0, i) by {
        lemma_snapshot_agrees(tm0, cur, i);
    }
    assert(all_snapshots(cur) =~= all_snapshots(tm0));
}

proof fn lemma_match_at(tm0: Time, cur: Time, new: Time, i: int)
    requires
        matches_snaps(cur, tm0),
        cur.slices@.len() >= 1,
        new.width == cur.width,
        new.height == cur.height,
        new.slices@.len() >= cur.slices@.len(),
        forall|s: int| 0 <= s < cur.slices@.len() ==> #[trigger] new.slices@[s] == cur.slices@[s],
        forall|s: int|
            cur.slices@.len() <= s < new.slices@.len() ==> #[trigger] new.slices@[s].blizzards@
                == step_all(new.slices@[s - 1].blizzards@, cur.width as int, cur.height as int),
        0 <= i < new.slices@.len(),
    ensures
        new.slices@[i].blizzards@ == snapshot(tm0, i),
    decreases i,
{
    if i >= cur.slices@.len() {
        lemma_match_at(tm0, cur, new, i - 1);
    }
}

/// Growing a matching world by derived slices keeps it matching.
proof fn lemma_matches_preserved(tm0: Time, cur: Time, new: Time)
    requires
        matches_snaps(cur, tm0),
        cur.slices@.len() >= 1,
        new.width == cur.width,
        new.height == cur.height,
        new.slices@.len() >= cur.slices@.len(),
        forall|s: int| 0 <= s < cur.slices@.len() ==> #[trigger] new.slices@[s] == cur.slices@[s],
        forall|s: int|
            cur.slices@.len() <= s < new.slices@.len() ==> #[trigger] new.slices@[s].blizzards@
                == step_all(new.slices@[s - 1].blizzards@, cur.width as int, cur.height as int),
    ensures
        matches_snaps(new, tm0),
{
    assert forall|i: int|
        0 <= i < new.slices@.len() implies #[trigger] new.slices@[i].blizzards@ == snapshot(
        tm0,
        i,
    ) by {
        lemma_match_at(tm0, cur, new, i);
    }
}

/// A recorded state names this cell and tick.
pub open spec fn seen_has(seen: Seq<(i32, i32, usize)>, x: int, y: int, t: int) -> bool {
    exists|k: int|
        0 <= k < seen.len() && (#[trigger] seen[k]).0 == x && seen[k].1 == y && seen[k].2 == t
}

/// The cell the doorway start steps onto.
pub open spec fn doorway(w: int, h: int, start: (i32, i32)) -> (int, int) {
    if start.0 == 0 && start.1 == -1 {
        (0int, 0int)
    } else {
        (w - 1, h - 1)
    }
}

/// The move offsets tried from an interior cell, in order; the last is the
/// wait in place.
pub open spec fn delta_at(d: int) -> (int, int) {
    if d == 0 {
        ((-1) as int, 0int)
    } else if d == 1 {
        (0int, (-1) as int)
    } else if d == 2 {
        (0int, 1int)
    } else if d == 3 {
        (1int, 0int)
    } else {
        (0int, 0int)
    }
}

/// The candidate produced by the `d`-th offset: kept when it stays in the
/// valley, is not already recorded for the next tick, and is unblocked then.
pub open spec fn cand(
    w: int,
    h: int,
    snaps: Seq<Seq<Blizzard>>,
    pos: (i32, i32),
    t: int,
    seen: Seq<(i32, i32, usize)>,
    d: int,
) -> Seq<(i32, i32)> {
    let x0 = pos.0 + delta_at(d).0;
    let y0 = pos.1 + delta_at(d).1;
    if 0 <= x0 < w && 0 <= y0 < h && !seen_has(seen, x0, y0, t + 1) && !blocked_at(
        snaps[t + 1],
        x0,
        y0,
    ) {
        seq![(x0 as i32, y0 as i32)]
    } else {
        Seq::empty()
    }
}

pub open spec fn cands_upto(
    w: int,
    h: int,
    snaps: Seq<Seq<Blizzard>>,
    pos: (i32, i32),
    t: int,
    seen: Seq<(i32, i32, usize)>,
    d: int,
) -> Seq<(i32, i32)>
    decreases d,
{
    if d <= 0 {
        Seq::empty()
    } else {
        cands_upto(w, h, snaps, pos, t, seen, d - 1) + cand(w, h, snaps, pos, t, seen, d - 1)
    }
}

/// The moves the explorer tries from `pos` at tick `t`: from a doorway
/// start, the entry cell when free, then waiting outside; from an interior
/// cell, the unvisited unblocked moves in offset order.
pub open spec fn neighbors_spec(
    w: int,
    h: int,
    snaps: Seq<Seq<Blizzard>>,
    start: (i32, i32),
    pos: (i32, i32),
    t: int,
    seen: Seq<(i32, i32, usize)>,
) -> Seq<(i32, i32)> {
    if pos == start {
        let dw = doorway(w, h, start);
        let head: Seq<(i32, i32)> = if !blocked_at(snaps[t + 1], dw.0, dw.1) {
            seq![(dw.0 as i32, dw.1 as i32)]
        } else {
            Seq::empty()
        };
        head + seq![start]
    } else {
        cands_upto(w, h, snaps, pos, t, seen, 5)
    }
}

/// What the explorer returns and records, as a function of the world, the
/// state and the already-recorded states: record the state; stop with the
/// sentinel at the ceiling; stop with `t + 1` on the target; otherwise take
/// the least result over the candidate moves one tick later.
pub open spec fn dfs_spec(
    w: int,
    h: int,
    snaps: Seq<Seq<Blizzard>>,
    start: (i32, i32),
    pos: (i32, i32),
    target: (i32, i32),
    t: int,
    seen: Seq<(i32, i32, usize)>,
) -> (int, Seq<(i32, i32, usize)>)
    decreases CEILING - t, 1int, 0int,
{
    let seen1 = seen.push((pos.0, pos.1, t as usize));
    if t < 0 || t >= CEILING {
        (usize::MAX as int, seen1)
    } else if pos == target {
        (t + 1, seen1)
    } else {
        dfs_loop_spec(
            w,
            h,
            snaps,
            start,
            target,
            t,
            neighbors_spec(w, h, snaps, start, pos, t, seen1),
            0,
            usize::MAX as int,
            seen1,
        )
    }
}

pub open spec fn dfs_loop_spec(
    w: int,
    h: int,
    snaps: Seq<Seq<Blizzard>>,
    start: (i32, i32),
    target: (i32, i32),
    t: int,
    nbrs: Seq<(i32, i32)>,
    k: int,
    best: int,
    seen: Seq<(i32, i32, usize)>,
) -> (int, Seq<(i32, i32, usize)>)
    decreases CEILING - t, 0int, nbrs.len() - k,
{
    if t < 0 || t >= CEILING || k < 0 || k >= nbrs.len() {
        (best, seen)
    } else {
        let sub = dfs_spec(w, h, snaps, start, nbrs[k], target, t + 1, seen);
        dfs_loop_spec(
            w,
            h,
            snaps,
            start,
            target,
            t,
            nbrs,
            k + 1,
            if sub.0 < best {
                sub.0
            } else {
                best
            },
            sub.1,
        )
    }
}

/// Membership test on recorded `(x, y, time)` states.
fn seen_contains(seen: &Vec<(i32, i32, usize)>, x: i32, y: i32, t: usize) -> (r: bool)
    ensures
        r == exists|k: int|
            0 <= k < seen@.len() && (#[trigger] seen@[k]).0 == x && seen@[k].1 == y && seen@[k].2
                == t,
{
    let mut i: usize = 0;
    while i < seen.len()
        invariant
            i <= seen@.len(),
            forall|k: int|
                0 <= k < i ==> !((#[trigger] seen@[k]).0 == x && seen@[k].1 == y && seen@[k].2
                    == t),
        decreases seen@.len() - i,
    {
        let s = seen[i];
        if s.0 == x && s.1 == y && s.2 == t {
            return true;
        }
        i += 1;
    }
    false
}

/// Time-indexed depth-first exploration for the earliest arrival at `target`.
/// The result and the recorded states are pinned exactly to `dfs_spec` over
/// the snapshots derivable from the given world: record the state, stop with
/// the sentinel at the ceiling, stop with `t + 1` on the target, otherwise
/// return the least arrival over the candidate moves one tick later.
/// Snapshots are extended on demand by the motion rule and never recomputed,
/// and no recorded state is blocked at its time.
#[verifier::loop_isolation(false)]
#[verifier::rlimit(100)]
pub fn dfs(
    time: &mut Time,
    start: (i32, i32),
    pos: (i32, i32),
    target: (i32, i32),
    t: usize,
    seen: &mut Vec<(i32, i32, usize)>,
) -> (r: usize)
    requires
        time_wf(*old(time)),
        t <= CEILING,
        t < old(time).slices@.len(),
        (start.0 == 0 && start.1 == -1) || (start.0 == old(time).width - 1 && start.1 == old(
            time,
        ).height),
        pos == start || (0 <= pos.0 < old(time).width && 0 <= pos.1 < old(time).height),
        !blocked_at(old(time).slices@[t as int].blizzards@, pos.0 as int, pos.1 as int),
    ensures
        time_wf(*final(time)),
        final(time).width == old(time).width,
        final(time).height == old(time).height,
        final(time).slices@.len() >= old(time).slices@.len(),
        forall|s: int|
            0 <= s < old(time).slices@.len() ==> #[trigger] final(time).slices@[s] == old(
                time,
            ).slices@[s],
        // every slice added during the search is derived from its predecessor
        forall|s: int|
            old(time).slices@.len() <= s < final(time).slices@.len()
                ==> #[trigger] final(time).slices@[s].blizzards@ == step_all(
                final(time).slices@[s - 1].blizzards@,
                old(time).width as int,
                old(time).height as int,
            ),
        final(seen)@.len() > old(seen)@.len(),
        forall|k: int| 0 <= k < old(seen)@.len() ==> #[trigger] final(seen)@[k] == old(seen)@[k],
        // no recorded state is blocked at its time
        forall|k: int|
            old(seen)@.len() <= k < final(seen)@.len() ==> {
                let st = #[trigger] final(seen)@[k];
                st.2 < final(time).slices@.len() && !blocked_at(
                    final(time).slices@[st.2 as int].blizzards@,
                    st.0 as int,
                    st.1 as int,
                )
            },
        r == usize::MAX || r > t,
        // the result and the recorded states, exactly
        ({
            let outcome = dfs_spec(
                old(time).width as int,
                old(time).height as int,
                all_snapshots(*old(time)),
                start,
                pos,
                target,
                t as int,
                old(seen)@,
            );
            r == outcome.0 && final(seen)@ == outcome.1
        }),
    decreases CEILING - t,
{
    let ghost tm0 = *old(time);
    let ghost w_ = tm0.width as int;
    let ghost h_ = tm0.height as int;
    let ghost snaps = all_snapshots(tm0);
    let ghost seen0 = seen@;

    let (x, y) = pos;
    seen.push((x, y, t));
    let ghost seen1 = seen@;

    if t == CEILING {
        return usize::MAX;
    }

    if pos.0 == target.0 && pos.1 == target.1 {
        return t + 1;
    }

    proof {
        assert(matches_snaps(*time, tm0));
    }
    if t == time.slices.len() - 1 {
        let ghost pre_tick = *time;
        time.tick();
        proof {
            lemma_matches_preserved(tm0, pre_tick, *time);
        }
    }
    proof {
        assert(t + 1 < CEILING + 2);
        assert(time.slices@[t + 1].blizzards@ == snaps[t + 1]);
    }

    let w = time.width;
    let h = time.height;
    let ghost nbrs = neighbors_spec(w_, h_, snaps, start, pos, t as int, seen1);
    let ghost outcome = dfs_spec(w_, h_, snaps, start, pos, target, t as int, seen0);
    proof {
        assert(outcome == dfs_loop_spec(
            w_,
            h_,
            snaps,
            start,
            target,
            t as int,
            nbrs,
            0,
            usize::MAX as int,
            seen1,
        ));
    }

    // the candidate moves for the next tick, all unblocked at t + 1
    let mut neighbors: Vec<(i32, i32)> = Vec::new();
    if pos.0 == start.0 && pos.1 == start.1 {
        let (x0, y0) = if start.0 == 0 && start.1 == -1 {
            (0, 0)
        } else {
            (w - 1, h - 1)
        };
        proof {
            assert((x0 as int, y0 as int) == doorway(w_, h_, start));
        }
        let blocked = time.slices[t + 1].blizzard_at(x0, y0).is_some();
        if !blocked {
            neighbors.push((x0, y0));
        }
        proof {
            lemma_outside_not_blocked(*time, t + 1, start.0 as int, start.1 as int);
        }
        neighbors.push(start);
        proof {
            assert(neighbors@ =~= nbrs);
        }
    } else {
        let deltas: [(i32, i32); 5] = [(-1, 0), (0, -1), (0, 1), (1, 0), (0, 0)];
        let mut d: usize = 0;
        while d < 5
            invariant
                d <= 5,
                neighbors@ == cands_upto(w_, h_, snaps, pos, t as int, seen1, d as int),
                seen@ == seen1,
                forall|k: int|
                    0 <= k < neighbors@.len() ==> {
                        let nb = #[trigger] neighbors@[k];
                        0 <= nb.0 < w && 0 <= nb.1 < h && !blocked_at(
                            time.slices@[t + 1].blizzards@,
                            nb.0 as int,
                            nb.1 as int,
                        )
                    },
            decreases 5 - d,
        {
            let (dx, dy) = deltas[d];
            proof {
                assert((dx as int, dy as int) == delta_at(d as int));
            }
            let x0 = x + dx;
            let y0 = y + dy;
            if x0 >= 0 && x0 < w && y0 >= 0 && y0 < h && !seen_contains(seen, x0, y0, t + 1)
                && time.slices[t + 1].blizzard_at(x0, y0).is_none() {
                neighbors.push((x0, y0));
            }
            proof {
                assert(neighbors@ =~= cands_upto(w_, h_, snaps, pos, t as int, seen1, d + 1));
            }
            d += 1;
        }
        proof {
            assert(neighbors@ == nbrs);
        }
    }

    // explore each candidate one tick later, keeping the earliest arrival
    let ghost time_mid = *time;
    let ghost seen_mid = seen@;
    let mut best: usize = usize::MAX;
    let mut k: usize = 0;
    while k < neighbors.len()
        invariant
            time_wf(*time),
            matches_snaps(*time, tm0),
            time.slices@.len() >= time_mid.slices@.len(),
            t + 1 < time_mid.slices@.len(),
            forall|s: int|
                0 <= s < time_mid.slices@.len() ==> #[trigger] time.slices@[s]
                    == time_mid.slices@[s],
            forall|s: int|
                tm0.slices@.len() <= s < time.slices@.len()
                    ==> #[trigger] time.slices@[s].blizzards@ == step_all(
                    time.slices@[s - 1].blizzards@,
                    w_,
                    h_,
                ),
            seen@.len() >= seen_mid.len(),
            forall|kk: int| 0 <= kk < seen_mid.len() ==> #[trigger] seen@[kk] == seen_mid[kk],
            forall|kk: int|
                seen_mid.len() <= kk < seen@.len() ==> {
                    let st = #[trigger] seen@[kk];
                    st.2 < time.slices@.len() && !blocked_at(
                        time.slices@[st.2 as int].blizzards@,
                        st.0 as int,
                        st.1 as int,
                    )
                },
            forall|kk: int|
                0 <= kk < neighbors@.len() ==> {
                    let nb = #[trigger] neighbors@[kk];
                    (nb == start || (0 <= nb.0 < time_mid.width && 0 <= nb.1 < time_mid.height))
                        && !blocked_at(
                        time_mid.slices@[t + 1].blizzards@,
                        nb.0 as int,
                        nb.1 as int,
                    )
                },
            best == usize::MAX || best > t,
            dfs_loop_spec(
                w_,
                h_,
                snaps,
                start,
                target,
                t as int,
                nbrs,
                k as int,
                best as int,
                seen@,
            ) == outcome,
            neighbors@ == nbrs,
        decreases neighbors@.len() - k,
    {
        let (nx, ny) = neighbors[k];
        let ghost cur = *time;
        let ghost seen_pre = seen@;
        let ghost best_pre = best;
        let sub = dfs(time, start, (nx, ny), target, t + 1, seen);
        proof {
            lemma_all_snapshots_agree(tm0, cur);
            lemma_matches_preserved(tm0, cur, *time);
            let step = dfs_spec(w_, h_, snaps, start, (nx, ny), target, t + 1, seen_pre);
            assert(sub == step.0 && seen@ == step.1);
            assert(dfs_loop_spec(
                w_,
                h_,
                snaps,
                start,
                target,
                t as int,
                nbrs,
                k as int,
                best_pre as int,
                seen_pre,
            ) == dfs_loop_spec(
                w_,
                h_,
                snaps,
                start,
                target,
                t as int,
                nbrs,
                k + 1,
                if step.0 < best_pre {
                    step.0
                } else {
                    best_pre as int
                },
                step.1,
            ));
        }
        if sub < best {
            best = sub;
        }
        k += 1;
    }
    best
}

} // verus!
