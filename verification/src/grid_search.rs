//! Breadth-first shortest paths on an elevation grid. A step moves to an
//! orthogonally adjacent cell whose elevation exceeds the source's by at most
//! one. `shortest_path` returns the optimal step count: the returned distance
//! is realised by some path, and no shorter path exists.

use vstd::prelude::*;

verus! {

pub type Grid = Vec<Vec<u8>>;

/// Height of a lowercase tile letter, with `'a'` at ground level zero.
pub fn tile_height(c: char) -> (h: u8)
    requires
        'a' <= c <= 'z',
    ensures
        h == c as int - 'a' as int,
{
    (c as u32 - 97) as u8
}

/// Rectangular, non-empty elevation grid.
pub open spec fn grid_wf(m: Seq<Seq<u8>>) -> bool {
    &&& m.len() > 0
    &&& m[0].len() > 0
    &&& forall|i: int| 0 <= i < m.len() ==> #[trigger] m[i].len() == m[0].len()
}

pub open spec fn rows(m: Seq<Seq<u8>>) -> int {
    m.len() as int
}

pub open spec fn cols(m: Seq<Seq<u8>>) -> int {
    m[0].len() as int
}

/// `(row, column)` cell coordinates.
pub open spec fn in_bounds(m: Seq<Seq<u8>>, p: (int, int)) -> bool {
    0 <= p.0 < rows(m) && 0 <= p.1 < cols(m)
}

/// One legal move: to an orthogonal neighbour, climbing at most one unit.
pub open spec fn step_ok(m: Seq<Seq<u8>>, a: (int, int), b: (int, int)) -> bool {
    &&& in_bounds(m, a)
    &&& in_bounds(m, b)
    &&& ((b.0 == a.0 + 1 && b.1 == a.1) || (b.0 == a.0 - 1 && b.1 == a.1) || (b.0 == a.0 && b.1
        == a.1 + 1) || (b.0 == a.0 && b.1 == a.1 - 1))
    &&& m[b.0][b.1] <= m[a.0][a.1] + 1
}

/// A walk through the grid: at least one in-bounds cell, every consecutive
/// pair a legal step.
pub open spec fn is_path(m: Seq<Seq<u8>>, p: Seq<(int, int)>) -> bool {
    &&& p.len() >= 1
    &&& in_bounds(m, p[0])
    &&& forall|i: int| 0 <= i < p.len() - 1 ==> step_ok(m, #[trigger] p[i], p[i + 1])
}

pub open spec fn path_from_to(m: Seq<Seq<u8>>, p: Seq<(int, int)>, s: (int, int), t: (
    int,
    int,
)) -> bool {
    is_path(m, p) && p[0] == s && p[p.len() - 1] == t
}

/// There is a path of exactly `d` steps from `s` to `t`.
pub open spec fn has_dist(m: Seq<Seq<u8>>, s: (int, int), t: (int, int), d: int) -> bool {
    exists|p: Seq<(int, int)>| #[trigger] path_from_to(m, p, s, t) && p.len() == d + 1
}

/// `t` is reachable from `s` in at most `d` steps.
pub open spec fn reach_within(m: Seq<Seq<u8>>, s: (int, int), t: (int, int), d: int) -> bool {
    exists|dd: int| 0 <= dd <= d && #[trigger] has_dist(m, s, t, dd)
}

/// The shortest path from `s` to `t` has exactly `d` steps.
pub open spec fn exact_dist(m: Seq<Seq<u8>>, s: (int, int), t: (int, int), d: int) -> bool {
    reach_within(m, s, t, d) && !reach_within(m, s, t, d - 1)
}

proof fn lemma_reach_mono(m: Seq<Seq<u8>>, s: (int, int), t: (int, int), d1: int, d2: int)
    requires
        reach_within(m, s, t, d1),
        d1 <= d2,
    ensures
        reach_within(m, s, t, d2),
{
    let dd = choose|dd: int| 0 <= dd <= d1 && #[trigger] has_dist(m, s, t, dd);
    assert(0 <= dd <= d2 && has_dist(m, s, t, dd));
}

/// Some exact distance at most `d` exists wherever `t` is reachable within `d`.
proof fn lemma_exact_exists(m: Seq<Seq<u8>>, s: (int, int), t: (int, int), d: int)
    requires
        reach_within(m, s, t, d),
    ensures
        exists|e: int| 0 <= e <= d && #[trigger] exact_dist(m, s, t, e),
    decreases d,
{
    if reach_within(m, s, t, d - 1) {
        let dd = choose|dd: int| 0 <= dd <= d - 1 && #[trigger] has_dist(m, s, t, dd);
        assert(d - 1 >= 0);
        lemma_exact_exists(m, s, t, d - 1);
        let e = choose|e: int| 0 <= e <= d - 1 && #[trigger] exact_dist(m, s, t, e);
        assert(0 <= e <= d && exact_dist(m, s, t, e));
    } else {
        assert(0 <= d <= d && exact_dist(m, s, t, d));
    }
}

/// A path to `a` extends by one legal step to a path to `b`.
proof fn lemma_step_extend(
    m: Seq<Seq<u8>>,
    s: (int, int),
    a: (int, int),
    b: (int, int),
    d: int,
)
    requires
        has_dist(m, s, a, d),
        step_ok(m, a, b),
    ensures
        has_dist(m, s, b, d + 1),
{
    let p = choose|p: Seq<(int, int)>| #[trigger] path_from_to(m, p, s, a) && p.len() == d + 1;
    let q = p.push(b);
    assert forall|i: int| 0 <= i < q.len() - 1 implies step_ok(m, #[trigger] q[i], q[i + 1]) by {
        if i < p.len() - 1 {
            assert(step_ok(m, p[i], p[i + 1]));
        }
    }
    assert(path_from_to(m, q, s, b) && q.len() == d + 2);
}

/// A shortest path of `e >= 1` steps ends with a step from a cell whose own
/// shortest distance is exactly `e - 1`.
proof fn lemma_predecessor(m: Seq<Seq<u8>>, s: (int, int), t: (int, int), e: int)
    requires
        exact_dist(m, s, t, e),
        e >= 1,
    ensures
        exists|a: (int, int)| #[trigger] step_ok(m, a, t) && exact_dist(m, s, a, e - 1),
{
    let dd = choose|dd: int| 0 <= dd <= e && #[trigger] has_dist(m, s, t, dd);
    if dd < e {
        assert(reach_within(m, s, t, e - 1));
        assert(false);
    }
    let p = choose|p: Seq<(int, int)>| #[trigger] path_from_to(m, p, s, t) && p.len() == e + 1;
    let a = p[e - 1];
    let q = p.take(e);
    assert(q.len() == e);
    assert forall|i: int| 0 <= i < q.len() - 1 implies step_ok(m, #[trigger] q[i], q[i + 1]) by {
        assert(step_ok(m, p[i], p[i + 1]));
    }
    assert(step_ok(m, p[e - 1], p[e]));
    assert(path_from_to(m, q, s, a) && q.len() == (e - 1) + 1);
    assert(has_dist(m, s, a, e - 1));
    assert(reach_within(m, s, a, e - 1));
    if reach_within(m, s, a, e - 2) {
        let da = choose|da: int| 0 <= da <= e - 2 && #[trigger] has_dist(m, s, a, da);
        lemma_step_extend(m, s, a, t, da);
        assert(0 <= da + 1 <= e - 1 && has_dist(m, s, t, da + 1));
        assert(reach_within(m, s, t, e - 1));
        assert(false);
    }
    assert(step_ok(m, a, t) && exact_dist(m, s, a, e - 1));
}

/// Along a shortest path every intermediate exact distance is realised.
proof fn lemma_exact_chain(m: Seq<Seq<u8>>, s: (int, int), t: (int, int), e: int, k: int)
    requires
        exact_dist(m, s, t, e),
        0 <= k <= e,
    ensures
        exists|c: (int, int)| #[trigger] exact_dist(m, s, c, k),
    decreases e - k,
{
    if k == e {
        assert(exact_dist(m, s, t, k));
    } else {
        lemma_predecessor(m, s, t, e);
        let a = choose|a: (int, int)| #[trigger] step_ok(m, a, t) && exact_dist(m, s, a, e - 1);
        lemma_exact_chain(m, s, a, e - 1, k);
    }
}

/// Count of marked cells, used to bound the search.
pub closed spec fn row_count(r: Seq<bool>) -> int
    decreases r.len(),
{
    if r.len() == 0 {
        0
    } else {
        row_count(r.drop_last()) + if r.last() {
            1int
        } else {
            0int
        }
    }
}

pub closed spec fn grid_count(g: Seq<Seq<bool>>) -> int
    decreases g.len(),
{
    if g.len() == 0 {
        0
    } else {
        grid_count(g.drop_last()) + row_count(g.last())
    }
}

proof fn lemma_row_count_bounds(r: Seq<bool>)
    ensures
        0 <= row_count(r) <= r.len(),
    decreases r.len(),
{
    if r.len() > 0 {
        lemma_row_count_bounds(r.drop_last());
    }
}

proof fn lemma_grid_count_bounds(g: Seq<Seq<bool>>, c: int)
    requires
        forall|i: int| 0 <= i < g.len() ==> #[trigger] g[i].len() == c,
    ensures
        0 <= grid_count(g) <= g.len() * c,
    decreases g.len(),
{
    if g.len() == 0 {
    } else {
        let h = g.drop_last();
        lemma_grid_count_bounds(h, c);
        lemma_row_count_bounds(g.last());
        assert((g.len() - 1) * c + c == g.len() * c) by (nonlinear_arith);
    }
}

proof fn lemma_row_count_update(r: Seq<bool>, i: int)
    requires
        0 <= i < r.len(),
        !r[i],
    ensures
        row_count(r.update(i, true)) == row_count(r) + 1,
    decreases r.len(),
{
    let u = r.update(i, true);
    if i == r.len() - 1 {
        assert(u.drop_last() =~= r.drop_last());
    } else {
        assert(u.drop_last() =~= r.drop_last().update(i, true));
        lemma_row_count_update(r.drop_last(), i);
    }
}

proof fn lemma_grid_count_update(g: Seq<Seq<bool>>, y: int, x: int)
    requires
        0 <= y < g.len(),
        0 <= x < g[y].len(),
        !g[y][x],
    ensures
        grid_count(g.update(y, g[y].update(x, true))) == grid_count(g) + 1,
    decreases g.len(),
{
    let u = g.update(y, g[y].update(x, true));
    if y == g.len() - 1 {
        assert(u.drop_last() =~= g.drop_last());
        lemma_row_count_update(g[y], x);
    } else {
        assert(u.drop_last() =~= g.drop_last().update(y, g[y].update(x, true)));
        assert(u.last() =~= g.last());
        lemma_grid_count_update(g.drop_last(), y, x);
    }
}

/// The view of a visited grid.
pub open spec fn vis_view(v: Seq<Vec<bool>>) -> Seq<Seq<bool>> {
    v.map_values(|r: Vec<bool>| r@)
}

/// Structural invariant of the visited grid.
spec fn vis_wf(v: Seq<Seq<bool>>, m: Seq<Seq<u8>>) -> bool {
    v.len() == rows(m) && forall|i: int| 0 <= i < v.len() ==> #[trigger] v[i].len() == cols(m)
}

pub open spec fn vp(p: (usize, usize)) -> (int, int) {
    (p.0 as int, p.1 as int)
}

/// A cell is listed in `fr`.
spec fn in_frontier(fr: Seq<(usize, usize)>, c: (int, int)) -> bool {
    exists|i: int| 0 <= i < fr.len() && vp(#[trigger] fr[i]) == c
}

/// Bridge between the executable grid and its deep view.
proof fn lemma_grid_deep_view(g: &Grid)
    ensures
        g.deep_view().len() == g@.len(),
        forall|i: int| 0 <= i < g@.len() ==> #[trigger] g.deep_view()[i] == g@[i]@,
{
    assert forall|i: int| 0 <= i < g@.len() implies #[trigger] g.deep_view()[i] == g@[i]@ by {
        assert(g.deep_view()[i] =~= g@[i]@);
    }
}

/// Mark the legal unvisited neighbours of `cell`, appending them to `next`.
#[verifier::loop_isolation(false)]
fn expand_cell(
    map: &Grid,
    visited: &mut Vec<Vec<bool>>,
    next: &mut Vec<(usize, usize)>,
    cell: (usize, usize),
)
    requires
        grid_wf(map.deep_view()),
        vis_wf(vis_view(old(visited)@), map.deep_view()),
        in_bounds(map.deep_view(), vp(cell)),
        forall|k: int|
            0 <= k < old(next)@.len() ==> in_bounds(
                map.deep_view(),
                vp(#[trigger] old(next)@[k]),
            ),
    ensures
        vis_wf(vis_view(final(visited)@), map.deep_view()),
        forall|c: (int, int)|
            in_bounds(map.deep_view(), c) ==> (cell_visited(final(visited)@, c)
                <==> cell_visited(old(visited)@, c) || step_ok(map.deep_view(), vp(cell), c)),
        forall|k: int|
            0 <= k < final(next)@.len() ==> in_bounds(
                map.deep_view(),
                vp(#[trigger] final(next)@[k]),
            ),
        final(next)@.len() >= old(next)@.len(),
        forall|k: int| 0 <= k < old(next)@.len() ==> #[trigger] final(next)@[k] == old(next)@[k],
        // newly appended entries were unvisited legal steps, now marked
        forall|k: int|
            old(next)@.len() <= k < final(next)@.len() ==> step_ok(
                map.deep_view(),
                vp(cell),
                vp(#[trigger] final(next)@[k]),
            ) && !cell_visited(old(visited)@, vp(final(next)@[k])),
        // every cell that became visited is in the appended part
        forall|c: (int, int)|
            in_bounds(map.deep_view(), c) && cell_visited(final(visited)@, c) && !cell_visited(
                old(visited)@,
                c,
            ) ==> exists|k: int|
                old(next)@.len() <= k < final(next)@.len() && vp(#[trigger] final(next)@[k]) == c,
        grid_count(vis_view(final(visited)@)) == grid_count(vis_view(old(visited)@)) + (final(next)@.len() - old(next)@.len()),
{
    let ghost m = map.deep_view();
    proof {
        lemma_grid_deep_view(map);
    }
    let m_rows = map.len();
    let m_cols = map[0].len();
    let (y, x) = cell;

    // enumerate the in-bounds orthogonal neighbours
    let mut cands: Vec<(usize, usize)> = Vec::new();
    if y + 1 < m_rows {
        cands.push((y + 1, x));
    }
    if y > 0 {
        cands.push((y - 1, x));
    }
    if x + 1 < m_cols {
        cands.push((y, x + 1));
    }
    if x > 0 {
        cands.push((y, x - 1));
    }
    proof {
        assert forall|c: (int, int)| step_ok(m, vp(cell), c) implies in_frontier(cands@, c) by {
            if c.0 == y + 1 {
                assert(y + 1 < m_rows);
                assert(vp(cands@[0]) == c);
            } else if c.0 == y - 1 {
                let i: int = if y + 1 < m_rows { 1 } else { 0 };
                assert(vp(cands@[i]) == c);
            } else if c.1 == x + 1 {
                let i: int = cands@.len() - (if x > 0 { 2int } else { 1int });
                assert(vp(cands@[i]) == c);
            } else {
                assert(vp(cands@[cands@.len() - 1]) == c);
            }
        }
        assert(forall|u: int|
            0 <= u < cands@.len() ==> in_bounds(m, vp(#[trigger] cands@[u])));
        assert(forall|u: int|
            0 <= u < cands@.len() ==> {
                let c = vp(#[trigger] cands@[u]);
                (c.0 == y + 1 && c.1 == x) || (c.0 == y - 1 && c.1 == x) || (c.0 == y && c.1 == x
                    + 1) || (c.0 == y && c.1 == x - 1)
            });
    }

    let ghost v0 = old(visited)@;
    let ghost n0 = old(next)@;
    proof {
        assert(y < map@.len());
        assert(m[y as int].len() == cols(m));
        assert(x < map@[y as int]@.len());
    }
    let src_h = map[y][x];
    let mut t: usize = 0;
    while t < cands.len()
        invariant
            grid_wf(m),
            m == map.deep_view(),
            m_rows == rows(m),
            m_cols == cols(m),
            in_bounds(m, vp(cell)),
            src_h == m[vp(cell).0][vp(cell).1],
            t <= cands@.len(),
            v0 == old(visited)@,
            n0 == old(next)@,
            vis_wf(vis_view(visited@), m),
            forall|u: int| 0 <= u < cands@.len() ==> in_bounds(m, vp(#[trigger] cands@[u])),
            forall|u: int|
                0 <= u < cands@.len() ==> {
                    let c = vp(#[trigger] cands@[u]);
                    (c.0 == y + 1 && c.1 == x) || (c.0 == y - 1 && c.1 == x) || (c.0 == y && c.1
                        == x + 1) || (c.0 == y && c.1 == x - 1)
                },
            forall|c: (int, int)| step_ok(m, vp(cell), c) ==> in_frontier(cands@, c),
            forall|k: int| 0 <= k < n0.len() ==> in_bounds(m, vp(#[trigger] n0[k])),
            // what has been marked so far
            forall|c: (int, int)|
                in_bounds(m, c) ==> (cell_visited(visited@, c) <==> cell_visited(v0, c) || (
                step_ok(m, vp(cell), c) && exists|u: int|
                    0 <= u < t && vp(#[trigger] cands@[u]) == c)),
            // next grows and keeps its prefix
            next@.len() >= n0.len(),
            forall|k: int| 0 <= k < n0.len() ==> #[trigger] next@[k] == n0[k],
            forall|k: int|
                n0.len() <= k < next@.len() ==> step_ok(m, vp(cell), vp(#[trigger] next@[k]))
                    && !cell_visited(v0, vp(next@[k])),
            forall|c: (int, int)|
                in_bounds(m, c) && cell_visited(visited@, c) && !cell_visited(v0, c) ==> exists|
                    k: int,
                |
                    n0.len() <= k < next@.len() && vp(#[trigger] next@[k]) == c,
            grid_count(vis_view(visited@)) == grid_count(vis_view(v0)) + (next@.len()
                - n0.len()),
        decreases cands@.len() - t,
    {
        let (cy, cx) = cands[t];
        let ghost c = vp(cands@[t as int]);
        let ghost npre = next@;
        proof {
            assert(cy < map@.len());
            assert(m[cy as int].len() == cols(m));
            assert(cx < map@[cy as int]@.len());
        }
        let climbable = map[cy][cx] as u32 <= src_h as u32 + 1;
        if climbable && !visited[cy][cx] {
            proof {
                assert(step_ok(m, vp(cell), c));
            }
            let ghost pre = visited@;
            let row = set_true(&visited[cy], cx);
            visited[cy] = row;
            proof {
                assert(vis_view(visited@) =~= vis_view(pre).update(
                    cy as int,
                    vis_view(pre)[cy as int].update(cx as int, true),
                ));
                lemma_grid_count_update(vis_view(pre), cy as int, cx as int);
            }
            next.push((cy, cx));
            proof {
                assert(vp(next@[next@.len() - 1]) == c);
                assert forall|cc: (int, int)|
                    in_bounds(m, cc) && cell_visited(visited@, cc) && !cell_visited(v0, cc)
                    implies exists|k: int|
                    n0.len() <= k < next@.len() && vp(#[trigger] next@[k]) == cc by {
                    if cell_visited(pre, cc) {
                        let k = choose|k: int|
                            n0.len() <= k < npre.len() && vp(#[trigger] npre[k]) == cc;
                        assert(next@[k] == npre[k]);
                        assert(n0.len() <= k < next@.len() && vp(next@[k]) == cc);
                    } else {
                        assert(cc == c);
                        assert(vp(next@[next@.len() - 1]) == cc);
                    }
                }
                assert forall|cc: (int, int)|
                    in_bounds(m, cc) implies (cell_visited(visited@, cc) <==> cell_visited(
                    v0,
                    cc,
                ) || (step_ok(m, vp(cell), cc) && exists|u: int|
                    0 <= u < t + 1 && vp(#[trigger] cands@[u]) == cc)) by {
                    if cell_visited(visited@, cc) {
                        if cell_visited(pre, cc) {
                            if !cell_visited(v0, cc) {
                                let u = choose|u: int|
                                    0 <= u < t && vp(#[trigger] cands@[u]) == cc;
                                assert(0 <= u < t + 1 && vp(cands@[u]) == cc);
                            }
                        } else {
                            assert(cc == c);
                            assert(vp(cands@[t as int]) == cc);
                        }
                    }
                }
            }
        } else {
            proof {
                if climbable {
                    // already visited: nothing to record
                    assert(cell_visited(visited@, c));
                } else {
                    assert(m[c.0][c.1] > m[vp(cell).0][vp(cell).1] + 1);
                    assert(!step_ok(m, vp(cell), c));
                }
                assert forall|cc: (int, int)|
                    in_bounds(m, cc) implies (cell_visited(visited@, cc) <==> cell_visited(
                    v0,
                    cc,
                ) || (step_ok(m, vp(cell), cc) && exists|u: int|
                    0 <= u < t + 1 && vp(#[trigger] cands@[u]) == cc)) by {
                    if !cell_visited(visited@, cc) && step_ok(m, vp(cell), cc) {
                        if exists|u: int| 0 <= u < t + 1 && vp(#[trigger] cands@[u]) == cc {
                            let u = choose|u: int|
                                0 <= u < t + 1 && vp(#[trigger] cands@[u]) == cc;
                            if u == t {
                                assert(cc == c);
                                assert(false);
                            }
                        }
                    }
                }
            }
        }
        t += 1;
    }
    proof {
        assert forall|c: (int, int)|
            in_bounds(m, c) implies (cell_visited(visited@, c) <==> cell_visited(v0, c)
            || step_ok(m, vp(cell), c)) by {
            if !cell_visited(v0, c) && step_ok(m, vp(cell), c) {
                assert(in_frontier(cands@, c));
                let u = choose|u: int| 0 <= u < cands@.len() && vp(#[trigger] cands@[u]) == c;
                assert(cell_visited(visited@, c));
            }
        }
    }
}

/// Replace row `r` with a copy whose `x`-th entry is true.
fn set_true(r: &Vec<bool>, x: usize) -> (out: Vec<bool>)
    requires
        x < r@.len(),
    ensures
        out@ == r@.update(x as int, true),
{
    let mut out: Vec<bool> = Vec::new();
    let mut i: usize = 0;
    while i < r.len()
        invariant
            i <= r@.len(),
            x < r@.len(),
            out@.len() == i,
            forall|k: int| 0 <= k < i ==> out@[k] == (if k == x { true } else { r@[k] }),
        decreases r@.len() - i,
    {
        if i == x {
            out.push(true);
        } else {
            out.push(r[i]);
        }
        i += 1;
    }
    proof {
        assert(out@ =~= r@.update(x as int, true));
    }
    out
}

/// A cell is marked visited.
pub open spec fn cell_visited(v: Seq<Vec<bool>>, c: (int, int)) -> bool {
    vis_view(v)[c.0][c.1]
}

/// Breadth-first search for the fewest steps from `start` to `end` under the
/// climbing rule. `Some(d)` means a path of exactly `d` steps exists and no
/// shorter one does; `None` means no path at all reaches `end`.
#[verifier::loop_isolation(false)]
pub fn shortest_path(start: (usize, usize), end: (usize, usize), map: &Grid) -> (res: Option<
    u32,
>)
    requires
        grid_wf(map.deep_view()),
        in_bounds(map.deep_view(), vp(start)),
        in_bounds(map.deep_view(), vp(end)),
        rows(map.deep_view()) * cols(map.deep_view()) <= u32::MAX,
    ensures
        match res {
            Some(d) => exact_dist(map.deep_view(), vp(start), vp(end), d as int),
            None => forall|p: Seq<(int, int)>|
                !path_from_to(map.deep_view(), p, vp(start), vp(end)),
        },
{
    let ghost m = map.deep_view();
    let ghost s = vp(start);
    let m_rows = map.len();
    let m_cols = map[0].len();

    let mut visited: Vec<Vec<bool>> = Vec::new();
    let mut yy: usize = 0;
    while yy < m_rows
        invariant
            grid_wf(m),
            m == map.deep_view(),
            m_rows == rows(m),
            m_cols == cols(m),
            visited@.len() == yy,
            yy <= m_rows,
            forall|i: int| 0 <= i < yy ==> (#[trigger] visited@[i])@ =~= Seq::new(
                m_cols as nat,
                |j: int| false,
            ),
        decreases m_rows - yy,
    {
        let mut row: Vec<bool> = Vec::new();
        let mut xx: usize = 0;
        while xx < m_cols
            invariant
                row@.len() == xx,
                xx <= m_cols,
                forall|j: int| 0 <= j < xx ==> !(#[trigger] row@[j]),
            decreases m_cols - xx,
        {
            row.push(false);
            xx += 1;
        }
        proof {
            assert(row@ =~= Seq::new(m_cols as nat, |j: int| false));
        }
        visited.push(row);
        yy += 1;
    }

    proof {
        lemma_all_false_count(vis_view(visited@));
        assert(grid_count(vis_view(visited@)) == 0);
    }

    // mark the start cell
    let ghost pre = vis_view(visited@);
    let srow = set_true(&visited[start.0], start.1);
    visited[start.0] = srow;
    proof {
        assert(vis_view(visited@) =~= pre.update(s.0, pre[s.0].update(s.1, true)));
        lemma_grid_count_update(pre, s.0, s.1);
        lemma_grid_count_bounds(vis_view(visited@), cols(m));
        let p0 = seq![s];
        assert(path_from_to(m, p0, s, s) && p0.len() == 0 + 1);
        assert(has_dist(m, s, s, 0));
        assert(reach_within(m, s, s, 0));
    }

    let mut frontier: Vec<(usize, usize)> = Vec::new();
    frontier.push(start);
    let mut d: u32 = 0;

    proof {
        lemma_grid_deep_view(map);
        assert(vis_wf(vis_view(visited@), m));
        assert(vp(frontier@[0]) == s);
        assert forall|c: (int, int)|
            in_bounds(m, c) implies (cell_visited(visited@, c) <==> reach_within(m, s, c, 0)) by {
            if cell_visited(visited@, c) {
                assert(c == s);
            }
            if reach_within(m, s, c, 0) {
                let dd = choose|dd: int| 0 <= dd <= 0 && #[trigger] has_dist(m, s, c, dd);
                let p = choose|p: Seq<(int, int)>|
                    #[trigger] path_from_to(m, p, s, c) && p.len() == dd + 1;
                assert(p[0] == s && p[p.len() - 1] == c && p.len() == 1);
                assert(c == s);
                assert(cell_visited(visited@, c));
            }
        }
        assert forall|c: (int, int)|
            in_bounds(m, c) implies (in_frontier(frontier@, c) <==> exact_dist(m, s, c, 0)) by {
            if in_frontier(frontier@, c) {
                let k = choose|k: int|
                    0 <= k < frontier@.len() && vp(#[trigger] frontier@[k]) == c;
                assert(c == s);
                assert(!reach_within(m, s, c, -1));
                assert(exact_dist(m, s, c, 0));
            }
            if exact_dist(m, s, c, 0) {
                let dd = choose|dd: int| 0 <= dd <= 0 && #[trigger] has_dist(m, s, c, dd);
                let p = choose|p: Seq<(int, int)>|
                    #[trigger] path_from_to(m, p, s, c) && p.len() == dd + 1;
                assert(p[0] == s && p[p.len() - 1] == c && p.len() == 1);
                assert(c == s);
                assert(in_frontier(frontier@, c));
            }
        }
        assert(!reach_within(m, s, vp(end), -1));
    }

    loop
        invariant
            grid_wf(m),
            m == map.deep_view(),
            m_rows == rows(m),
            m_cols == cols(m),
            in_bounds(m, s),
            in_bounds(m, vp(end)),
            rows(m) * cols(m) <= u32::MAX,
            vis_wf(vis_view(visited@), m),
            frontier@.len() >= 1,
            forall|k: int| 0 <= k < frontier@.len() ==> in_bounds(m, vp(#[trigger] frontier@[k])),
            // visited is exactly the set reachable within d steps
            forall|c: (int, int)|
                in_bounds(m, c) ==> (cell_visited(visited@, c) <==> reach_within(m, s, c, d as int)),
            // the frontier is exactly the set at exact distance d
            forall|c: (int, int)|
                in_bounds(m, c) ==> (in_frontier(frontier@, c) <==> exact_dist(m, s, c, d as int)),
            !reach_within(m, s, vp(end), d as int - 1),
            grid_count(vis_view(visited@)) >= d + 1,
            grid_count(vis_view(visited@)) <= rows(m) * cols(m),
        decreases rows(m) * cols(m) - grid_count(vis_view(visited@)),
    {
        // is the goal on the current frontier?
        let mut i: usize = 0;
        let mut found = false;
        while i < frontier.len() && !found
            invariant
                i <= frontier@.len(),
                found ==> in_frontier(frontier@, vp(end)),
                !found ==> forall|k: int| 0 <= k < i ==> vp(#[trigger] frontier@[k]) != vp(end),
            decreases frontier@.len() - i, if found { 0int } else { 1int },
        {
            let (fy, fx) = frontier[i];
            if fy == end.0 && fx == end.1 {
                proof {
                    assert(vp(frontier@[i as int]) == vp(end));
                }
                found = true;
            } else {
                i += 1;
            }
        }
        if found {
            proof {
                assert(in_frontier(frontier@, vp(end)));
            }
            return Some(d);
        }
        proof {
            assert(!in_frontier(frontier@, vp(end)));
            assert(!exact_dist(m, s, vp(end), d as int));
            assert(!reach_within(m, s, vp(end), d as int));
        }

        // expand every frontier cell into the next level
        let ghost vis0 = visited@;
        let mut next: Vec<(usize, usize)> = Vec::new();
        let mut j: usize = 0;
        while j < frontier.len()
            invariant
                grid_wf(m),
                m == map.deep_view(),
                m_rows == rows(m),
                m_cols == cols(m),
                j <= frontier@.len(),
                vis_wf(vis_view(visited@), m),
                vis_wf(vis_view(vis0), m),
                forall|k: int|
                    0 <= k < frontier@.len() ==> in_bounds(m, vp(#[trigger] frontier@[k])),
                forall|k: int| 0 <= k < next@.len() ==> in_bounds(m, vp(#[trigger] next@[k])),
                forall|c: (int, int)|
                    in_bounds(m, c) ==> (cell_visited(visited@, c) <==> cell_visited(vis0, c)
                        || exists|k: int|
                        0 <= k < j && step_ok(m, vp(#[trigger] frontier@[k]), c)),
                forall|k: int|
                    0 <= k < next@.len() ==> !cell_visited(vis0, vp(#[trigger] next@[k]))
                        && exists|kk: int|
                        0 <= kk < j && step_ok(m, vp(#[trigger] frontier@[kk]), vp(next@[k])),
                forall|c: (int, int)|
                    in_bounds(m, c) && cell_visited(visited@, c) && !cell_visited(vis0, c)
                        ==> in_frontier(next@, c),
                grid_count(vis_view(visited@)) == grid_count(vis_view(vis0)) + next@.len(),
            decreases frontier@.len() - j,
        {
            let cell = frontier[j];
            let ghost vis_before = visited@;
            let ghost next_before = next@;
            expand_cell(map, &mut visited, &mut next, cell);
            proof {
                assert forall|c: (int, int)|
                    in_bounds(m, c) implies (cell_visited(visited@, c) <==> cell_visited(vis0, c)
                    || exists|k: int|
                    0 <= k < j + 1 && step_ok(m, vp(#[trigger] frontier@[k]), c)) by {
                    if cell_visited(visited@, c) {
                        if cell_visited(vis_before, c) {
                            if !cell_visited(vis0, c) {
                                let k = choose|k: int|
                                    0 <= k < j && step_ok(m, vp(#[trigger] frontier@[k]), c);
                                assert(0 <= k < j + 1 && step_ok(m, vp(frontier@[k]), c));
                            }
                        } else {
                            assert(step_ok(m, vp(frontier@[j as int]), c));
                        }
                    } else {
                        if exists|k: int|
                            0 <= k < j + 1 && step_ok(m, vp(#[trigger] frontier@[k]), c) {
                            let k = choose|k: int|
                                0 <= k < j + 1 && step_ok(m, vp(#[trigger] frontier@[k]), c);
                            if k < j {
                                assert(cell_visited(vis_before, c));
                            } else {
                                assert(step_ok(m, vp(cell), c));
                            }
                            assert(false);
                        }
                    }
                }
                assert forall|c: (int, int)|
                    in_bounds(m, c) && cell_visited(visited@, c) && !cell_visited(vis0, c)
                    implies in_frontier(next@, c) by {
                    if cell_visited(vis_before, c) {
                        let k = choose|k: int|
                            0 <= k < next_before.len() && vp(#[trigger] next_before[k]) == c;
                        assert(next@[k] == next_before[k]);
                        assert(in_frontier(next@, c));
                    } else {
                        let k = choose|k: int|
                            next_before.len() <= k < next@.len() && vp(#[trigger] next@[k]) == c;
                        assert(in_frontier(next@, c));
                    }
                }
            }
            j += 1;
        }

        if next.is_empty() {
            proof {
                // no cell sits at exact distance d + 1, so nothing new is
                // reachable and the goal never will be
                assert forall|p: Seq<(int, int)>| !path_from_to(m, p, s, vp(end)) by {
                    if exists|p: Seq<(int, int)>| path_from_to(m, p, s, vp(end)) {
                        let p = choose|p: Seq<(int, int)>| path_from_to(m, p, s, vp(end));
                        assert(has_dist(m, s, vp(end), p.len() - 1));
                        assert(reach_within(m, s, vp(end), p.len() - 1));
                        lemma_exact_exists(m, s, vp(end), p.len() - 1);
                        let e = choose|e: int|
                            0 <= e <= p.len() - 1 && #[trigger] exact_dist(m, s, vp(end), e);
                        if e <= d {
                            assert(reach_within(m, s, vp(end), d as int));
                            assert(false);
                        } else {
                            lemma_exact_chain(m, s, vp(end), e, d + 1);
                            let c = choose|c: (int, int)| #[trigger] exact_dist(m, s, c, d + 1);
                            lemma_path_cell_in_bounds(m, s, c, d + 1);
                            lemma_predecessor(m, s, c, d + 1);
                            let a = choose|a: (int, int)|
                                #[trigger] step_ok(m, a, c) && exact_dist(m, s, a, d as int);
                            assert(in_frontier(frontier@, a));
                            let k = choose|k: int|
                                0 <= k < frontier@.len() && vp(#[trigger] frontier@[k]) == a;
                            assert(cell_visited(visited@, c));
                            assert(!reach_within(m, s, c, d as int));
                            assert(!cell_visited(vis0, c));
                            assert(in_frontier(next@, c));
                            assert(false);
                        }
                    }
                }
            }
            return None;
        }

        proof {
            // establish the level invariants for d + 1
            assert forall|c: (int, int)|
                in_bounds(m, c) implies (cell_visited(visited@, c) <==> reach_within(
                m,
                s,
                c,
                d + 1,
            )) by {
                if cell_visited(visited@, c) {
                    if cell_visited(vis0, c) {
                        assert(reach_within(m, s, c, d as int));
                        lemma_reach_mono(m, s, c, d as int, d + 1);
                    } else {
                        let k = choose|k: int|
                            0 <= k < frontier@.len() && step_ok(m, vp(#[trigger] frontier@[k]), c);
                        let a = vp(frontier@[k]);
                        assert(exact_dist(m, s, a, d as int));
                        let da = choose|da: int| 0 <= da <= d && #[trigger] has_dist(m, s, a, da);
                        lemma_step_extend(m, s, a, c, da);
                        assert(0 <= da + 1 <= d + 1 && has_dist(m, s, c, da + 1));
                        assert(reach_within(m, s, c, d + 1));
                    }
                } else {
                    if reach_within(m, s, c, d + 1) {
                        lemma_exact_exists(m, s, c, d + 1);
                        let e = choose|e: int| 0 <= e <= d + 1 && #[trigger] exact_dist(m, s, c, e);
                        if e <= d {
                            assert(reach_within(m, s, c, d as int));
                            assert(cell_visited(vis0, c));
                            assert(false);
                        } else {
                            lemma_predecessor(m, s, c, e);
                            let a = choose|a: (int, int)|
                                #[trigger] step_ok(m, a, c) && exact_dist(m, s, a, d as int);
                            lemma_path_cell_in_bounds(m, s, a, d as int);
                            assert(in_frontier(frontier@, a));
                            let k = choose|k: int|
                                0 <= k < frontier@.len() && vp(#[trigger] frontier@[k]) == a;
                            assert(step_ok(m, vp(frontier@[k]), c));
                            assert(cell_visited(visited@, c));
                            assert(false);
                        }
                    }
                }
            }
            assert forall|c: (int, int)|
                in_bounds(m, c) implies (in_frontier(next@, c) <==> exact_dist(m, s, c, d + 1)) by {
                if in_frontier(next@, c) {
                    let k = choose|k: int| 0 <= k < next@.len() && vp(#[trigger] next@[k]) == c;
                    assert(!cell_visited(vis0, c));
                    assert(!reach_within(m, s, c, d as int));
                    assert(cell_visited(visited@, c));
                    assert(reach_within(m, s, c, d + 1));
                    assert(exact_dist(m, s, c, d + 1));
                } else {
                    if exact_dist(m, s, c, d + 1) {
                        assert(!reach_within(m, s, c, d as int));
                        assert(!cell_visited(vis0, c));
                        lemma_predecessor(m, s, c, d + 1);
                        let a = choose|a: (int, int)|
                            #[trigger] step_ok(m, a, c) && exact_dist(m, s, a, d as int);
                        lemma_path_cell_in_bounds(m, s, a, d as int);
                        assert(in_frontier(frontier@, a));
                        let k = choose|k: int|
                            0 <= k < frontier@.len() && vp(#[trigger] frontier@[k]) == a;
                        assert(cell_visited(visited@, c));
                        assert(in_frontier(next@, c));
                        assert(false);
                    }
                }
            }
            lemma_grid_count_bounds(vis_view(visited@), cols(m));
        }

        frontier = next;
        d = d + 1;
    }
}

/// A cell at a positive exact distance is in bounds: it is the endpoint of a
/// path.
proof fn lemma_path_cell_in_bounds(m: Seq<Seq<u8>>, s: (int, int), c: (int, int), e: int)
    requires
        exact_dist(m, s, c, e),
        grid_wf(m),
    ensures
        in_bounds(m, c),
{
    let dd = choose|dd: int| 0 <= dd <= e && #[trigger] has_dist(m, s, c, dd);
    let p = choose|p: Seq<(int, int)>| #[trigger] path_from_to(m, p, s, c) && p.len() == dd + 1;
    if p.len() == 1 {
        assert(in_bounds(m, p[0]));
    } else {
        assert(step_ok(m, p[p.len() - 2], p[p.len() - 1]));
    }
}

/// All-false grid has count zero.
proof fn lemma_all_false_count(g: Seq<Seq<bool>>)
    requires
        forall|i: int, j: int|
            0 <= i < g.len() && 0 <= j < g[i].len() ==> !(#[trigger] g[i][j]),
    ensures
        grid_count(g) == 0,
    decreases g.len(),
{
    if g.len() > 0 {
        lemma_all_false_count(g.drop_last());
        lemma_row_all_false(g.last());
    }
}

proof fn lemma_row_all_false(r: Seq<bool>)
    requires
        forall|j: int| 0 <= j < r.len() ==> !(#[trigger] r[j]),
    ensures
        row_count(r) == 0,
    decreases r.len(),
{
    if r.len() > 0 {
        lemma_row_all_false(r.drop_last());
    }
}

} // verus!
