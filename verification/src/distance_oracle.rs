//! All-pairs shortest-path precomputation over a condensed valve graph, and a
//! depth-first branch-and-bound search for the tour releasing the most
//! pressure within a fixed time budget.
//!
//! The oracle is the classic triple-nested relaxation. Its contract pins the
//! result to a functional description of the same dynamic programme, from
//! which symmetry, a zero diagonal, and determinism of repeated runs are
//! proved.

use vstd::prelude::*;

verus! {

/// Unreachable entries keep this sentinel.
pub const INF: u32 = 0xffff_ffff;

#[derive(Clone, Copy, PartialEq, Eq, Structural, Debug)]
pub struct Neighbor {
    pub id: usize,
    pub distance: u32,
}

#[derive(Clone, Debug)]
pub struct Valve {
    pub flow: u32,
    pub neighbors: Vec<Neighbor>,
}

/// Every neighbour names a node of the graph.
pub open spec fn graph_wf(vs: Seq<Valve>) -> bool {
    forall|i: int, e: int|
        0 <= i < vs.len() && 0 <= e < vs[i].neighbors@.len() ==> (
        #[trigger] vs[i].neighbors@[e]).id < vs.len()
}

/// A directed edge is recorded on `i`'s neighbour list.
pub open spec fn edge(vs: Seq<Valve>, i: int, j: int) -> bool {
    exists|e: int| 0 <= e < vs[i].neighbors@.len() && (#[trigger] vs[i].neighbors@[e]).id == j
}

/// The adjacency the oracle works on: edges in either direction.
pub open spec fn adjacent(vs: Seq<Valve>, i: int, j: int) -> bool {
    edge(vs, i, j) || edge(vs, j, i)
}

/// Hop-count seed matrix: zero on the diagonal, one for adjacent pairs,
/// unreachable elsewhere.
pub open spec fn init_matrix(vs: Seq<Valve>) -> Seq<Seq<u32>> {
    Seq::new(
        vs.len(),
        |i: int|
            Seq::new(
                vs.len(),
                |j: int|
                    if i == j {
                        0u32
                    } else if adjacent(vs, i, j) {
                        1u32
                    } else {
                        INF
                    },
            ),
    )
}

/// One relaxation of entry `(i, j)` through intermediate `k`.
pub open spec fn relax_entry(m: Seq<Seq<u32>>, k: int, i: int, j: int) -> u32 {
    let a = m[i][k];
    let b = m[k][j];
    if a == INF || b == INF {
        m[i][j]
    } else if a + b < m[i][j] {
        (a + b) as u32
    } else {
        m[i][j]
    }
}

/// One full round of relaxation through intermediate `k`.
pub open spec fn fw_step(m: Seq<Seq<u32>>, n: int, k: int) -> Seq<Seq<u32>> {
    Seq::new(n as nat, |i: int| Seq::new(n as nat, |j: int| relax_entry(m, k, i, j)))
}

/// The matrix after rounds `0 .. k`.
pub open spec fn fw_upto(m: Seq<Seq<u32>>, n: int, k: int) -> Seq<Seq<u32>>
    decreases k,
{
    if k <= 0 {
        m
    } else {
        fw_step(fw_upto(m, n, k - 1), n, k - 1)
    }
}

/// What the Distance Oracle computes for a graph.
pub open spec fn oracle_spec(vs: Seq<Valve>) -> Seq<Seq<u32>> {
    fw_upto(init_matrix(vs), vs.len() as int, vs.len() as int)
}

pub open spec fn mat_wf(m: Seq<Seq<u32>>, n: int) -> bool {
    m.len() == n && forall|i: int| 0 <= i < n ==> (#[trigger] m[i]).len() == n
}

spec fn diag_zero(m: Seq<Seq<u32>>, n: int) -> bool {
    forall|i: int| 0 <= i < n ==> #[trigger] m[i][i] == 0
}

spec fn symmetric(m: Seq<Seq<u32>>, n: int) -> bool {
    forall|i: int, j: int| 0 <= i < n && 0 <= j < n ==> #[trigger] m[i][j] == m[j][i]
}

proof fn lemma_fw_step_wf(m: Seq<Seq<u32>>, n: int, k: int)
    requires
        mat_wf(m, n),
    ensures
        mat_wf(fw_step(m, n, k), n),
{
}

proof fn lemma_fw_upto_wf(m: Seq<Seq<u32>>, n: int, k: int)
    requires
        mat_wf(m, n),
    ensures
        mat_wf(fw_upto(m, n, k), n),
    decreases k,
{
    if k > 0 {
        lemma_fw_upto_wf(m, n, k - 1);
    }
}

/// Relaxation keeps the diagonal at zero.
proof fn lemma_fw_step_diag(m: Seq<Seq<u32>>, n: int, k: int)
    requires
        mat_wf(m, n),
        diag_zero(m, n),
        0 <= k < n,
    ensures
        diag_zero(fw_step(m, n, k), n),
{
}

proof fn lemma_fw_upto_diag(m: Seq<Seq<u32>>, n: int, k: int)
    requires
        mat_wf(m, n),
        diag_zero(m, n),
        0 <= k <= n,
    ensures
        diag_zero(fw_upto(m, n, k), n),
    decreases k,
{
    if k > 0 {
        lemma_fw_upto_wf(m, n, k - 1);
        lemma_fw_upto_diag(m, n, k - 1);
        lemma_fw_step_diag(fw_upto(m, n, k - 1), n, k - 1);
    }
}

/// Round `k` leaves row `k` and column `k` unchanged.
proof fn lemma_fw_step_row_col(m: Seq<Seq<u32>>, n: int, k: int)
    requires
        mat_wf(m, n),
        diag_zero(m, n),
        0 <= k < n,
    ensures
        forall|j: int| 0 <= j < n ==> #[trigger] fw_step(m, n, k)[k][j] == m[k][j],
        forall|i: int| 0 <= i < n ==> #[trigger] fw_step(m, n, k)[i][k] == m[i][k],
{
    assert forall|j: int| 0 <= j < n implies #[trigger] fw_step(m, n, k)[k][j] == m[k][j] by {
        assert(relax_entry(m, k, k, j) == m[k][j]);
    }
    assert forall|i: int| 0 <= i < n implies #[trigger] fw_step(m, n, k)[i][k] == m[i][k] by {
        assert(relax_entry(m, k, i, k) == m[i][k]);
    }
}

/// Relaxation preserves symmetry of the matrix.
proof fn lemma_fw_step_sym(m: Seq<Seq<u32>>, n: int, k: int)
    requires
        mat_wf(m, n),
        symmetric(m, n),
        0 <= k < n,
    ensures
        symmetric(fw_step(m, n, k), n),
{
    assert forall|i: int, j: int|
        0 <= i < n && 0 <= j < n implies #[trigger] fw_step(m, n, k)[i][j] == fw_step(
        m,
        n,
        k,
    )[j][i] by {
        assert(relax_entry(m, k, i, j) == relax_entry(m, k, j, i));
    }
}

/// The seed matrix of any graph is symmetric with a zero diagonal.
proof fn lemma_init_matrix_shape(vs: Seq<Valve>)
    ensures
        mat_wf(init_matrix(vs), vs.len() as int),
        diag_zero(init_matrix(vs), vs.len() as int),
        symmetric(init_matrix(vs), vs.len() as int),
{
}

/// Distance Oracle symmetry and zero diagonal: for every graph,
/// `distance[i][j] == distance[j][i]` and `distance[i][i] == 0`.
pub proof fn lemma_oracle_symmetric(vs: Seq<Valve>)
    ensures
        forall|i: int, j: int|
            0 <= i < vs.len() && 0 <= j < vs.len() ==> #[trigger] oracle_spec(vs)[i][j]
                == oracle_spec(vs)[j][i],
        forall|i: int| 0 <= i < vs.len() ==> #[trigger] oracle_spec(vs)[i][i] == 0,
{
    let n = vs.len() as int;
    lemma_init_matrix_shape(vs);
    lemma_fw_upto_sym(init_matrix(vs), n, n);
    lemma_fw_upto_diag(init_matrix(vs), n, n);
}

proof fn lemma_fw_upto_sym(m: Seq<Seq<u32>>, n: int, k: int)
    requires
        mat_wf(m, n),
        symmetric(m, n),
        0 <= k <= n,
    ensures
        symmetric(fw_upto(m, n, k), n),
    decreases k,
{
    if k > 0 {
        lemma_fw_upto_wf(m, n, k - 1);
        lemma_fw_upto_sym(m, n, k - 1);
        lemma_fw_step_sym(fw_upto(m, n, k - 1), n, k - 1);
    }
}

/// Running the Distance Oracle twice on the same input yields identical
/// matrices: the result is a function of the graph alone.
pub proof fn lemma_oracle_deterministic(
    vs: Seq<Valve>,
    d1: Seq<Seq<u32>>,
    d2: Seq<Seq<u32>>,
)
    requires
        d1 == oracle_spec(vs),
        d2 == oracle_spec(vs),
    ensures
        d1 == d2,
{
}

/// Bridge between an executable matrix and its deep view.
proof fn lemma_mat_deep_view(g: &Vec<Vec<u32>>)
    ensures
        g.deep_view().len() == g@.len(),
        forall|i: int| 0 <= i < g@.len() ==> #[trigger] g.deep_view()[i] == g@[i]@,
{
    assert forall|i: int| 0 <= i < g@.len() implies #[trigger] g.deep_view()[i] == g@[i]@ by {
        assert(g.deep_view()[i] =~= g@[i]@);
    }
}

/// All-pairs shortest hop counts of the (symmetrised) valve graph, by
/// triple-nested relaxation. The result is exactly `oracle_spec(g@)`.
#[verifier::loop_isolation(false)]
pub fn floyd_warshall(g: &Vec<Valve>) -> (dist: Vec<Vec<u32>>)
    requires
        graph_wf(g@),
    ensures
        dist.deep_view() == oracle_spec(g@),
        mat_wf(dist.deep_view(), g@.len() as int),
{
    let n = g.len();
    let ghost vs = g@;

    // seed matrix
    let mut dist: Vec<Vec<u32>> = Vec::new();
    let mut i: usize = 0;
    while i < n
        invariant
            i <= n,
            dist@.len() == i,
            forall|a: int| 0 <= a < i ==> (#[trigger] dist@[a])@ =~= init_matrix(vs)[a],
        decreases n - i,
    {
        let mut row: Vec<u32> = Vec::new();
        let mut j: usize = 0;
        while j < n
            invariant
                j <= n,
                i < n,
                row@.len() == j,
                forall|b: int| 0 <= b < j ==> #[trigger] row@[b] == init_matrix(vs)[i as int][b],
            decreases n - j,
        {
            let v: u32 = if i == j {
                0
            } else if is_adjacent(g, i, j) {
                1
            } else {
                INF
            };
            row.push(v);
            j += 1;
        }
        dist.push(row);
        i += 1;
    }
    proof {
        lemma_mat_deep_view(&dist);
        assert(dist.deep_view() =~= init_matrix(vs));
        lemma_init_matrix_shape(vs);
    }

    // relax through every intermediate node
    let mut k: usize = 0;
    while k < n
        invariant
            k <= n,
            mat_wf(dist.deep_view(), n as int),
            dist.deep_view() == fw_upto(init_matrix(vs), n as int, k as int),
        decreases n - k,
    {
        let ghost cur = dist.deep_view();
        let ghost nxt = fw_step(cur, n as int, k as int);
        proof {
            lemma_init_matrix_shape(vs);
            lemma_fw_upto_diag(init_matrix(vs), n as int, k as int);
            lemma_fw_step_row_col(cur, n as int, k as int);
            lemma_fw_step_wf(cur, n as int, k as int);
        }
        let mut i: usize = 0;
        while i < n
            invariant
                i <= n,
                k < n,
                mat_wf(dist.deep_view(), n as int),
                cur == fw_upto(init_matrix(vs), n as int, k as int),
                nxt == fw_step(cur, n as int, k as int),
                forall|a: int, b: int|
                    0 <= a < n && 0 <= b < n ==> #[trigger] dist.deep_view()[a][b] == (if a < i {
                        nxt[a][b]
                    } else {
                        cur[a][b]
                    }),
            decreases n - i,
        {
            let mut j: usize = 0;
            while j < n
                invariant
                    j <= n,
                    i < n,
                    k < n,
                    mat_wf(dist.deep_view(), n as int),
                    forall|a: int, b: int|
                        0 <= a < n && 0 <= b < n ==> #[trigger] dist.deep_view()[a][b] == (if a < i
                            || (a == i && b < j) {
                            nxt[a][b]
                        } else {
                            cur[a][b]
                        }),
                decreases n - j,
            {
                let ghost pre = dist.deep_view();
                proof {
                    lemma_mat_deep_view(&dist);
                    assert(dist@.len() == n);
                    assert(dist.deep_view()[i as int] == dist@[i as int]@);
                    assert(dist@[i as int]@.len() == n);
                    assert(dist.deep_view()[k as int] == dist@[k as int]@);
                    assert(dist@[k as int]@.len() == n);
                }
                let a = dist[i][k];
                let b = dist[k][j];
                proof {
                    // row k and column k still hold their round-start values
                    if k < i {
                        assert(pre[k as int][j as int] == nxt[k as int][j as int]);
                        assert(nxt[k as int][j as int] == cur[k as int][j as int]);
                    }
                    if k < j {
                        assert(pre[i as int][k as int] == nxt[i as int][k as int]);
                        assert(nxt[i as int][k as int] == cur[i as int][k as int]);
                    }
                    assert(a == cur[i as int][k as int]);
                    assert(b == cur[k as int][j as int]);
                }
                if a != INF && b != INF {
                    let s: u64 = a as u64 + b as u64;
                    if s < dist[i][j] as u64 {
                        let row = set_entry(&dist[i], j, s as u32);
                        dist[i] = row;
                        proof {
                            lemma_mat_deep_view(&dist);
                            assert(dist@[i as int]@ == pre[i as int].update(
                                j as int,
                                (a + b) as u32,
                            ));
                            assert(dist.deep_view() =~= pre.update(
                                i as int,
                                pre[i as int].update(j as int, (a + b) as u32),
                            ));
                        }
                    }
                }
                proof {
                    assert(dist.deep_view()[i as int][j as int] == relax_entry(
                        cur,
                        k as int,
                        i as int,
                        j as int,
                    ));
                    assert forall|aa: int, bb: int|
                        0 <= aa < n && 0 <= bb < n implies #[trigger] dist.deep_view()[aa][bb]
                        == (if aa < i || (aa == i && bb < j + 1) {
                        nxt[aa][bb]
                    } else {
                        cur[aa][bb]
                    }) by {
                        if aa != i || bb != j {
                            assert(dist.deep_view()[aa][bb] == pre[aa][bb]);
                        }
                    }
                }
                j += 1;
            }
            i += 1;
        }
        proof {
            assert(dist.deep_view() =~~= nxt);
            assert(fw_upto(init_matrix(vs), n as int, k + 1) == fw_step(
                fw_upto(init_matrix(vs), n as int, k as int),
                n as int,
                k as int,
            ));
        }
        k += 1;
    }
    dist
}

/// Replace entry `j` of a row with `v`.
fn set_entry(r: &Vec<u32>, j: usize, v: u32) -> (out: Vec<u32>)
    requires
        j < r@.len(),
    ensures
        out@ == r@.update(j as int, v),
{
    let mut out: Vec<u32> = Vec::new();
    let mut t: usize = 0;
    while t < r.len()
        invariant
            t <= r@.len(),
            j < r@.len(),
            out@.len() == t,
            forall|x: int| 0 <= x < t ==> out@[x] == (if x == j { v } else { r@[x] }),
        decreases r@.len() - t,
    {
        if t == j {
            out.push(v);
        } else {
            out.push(r[t]);
        }
        t += 1;
    }
    proof {
        assert(out@ =~= r@.update(j as int, v));
    }
    out
}

/// Does either endpoint list the other as a neighbour?
#[verifier::loop_isolation(false)]
fn is_adjacent(g: &Vec<Valve>, i: usize, j: usize) -> (r: bool)
    requires
        i < g@.len(),
        j < g@.len(),
    ensures
        r == adjacent(g@, i as int, j as int),
{
    has_edge(g, i, j) || has_edge(g, j, i)
}

#[verifier::loop_isolation(false)]
fn has_edge(g: &Vec<Valve>, i: usize, j: usize) -> (r: bool)
    requires
        i < g@.len(),
    ensures
        r == edge(g@, i as int, j as int),
{
    let nbs = &g[i].neighbors;
    let mut e: usize = 0;
    while e < nbs.len()
        invariant
            e <= nbs@.len(),
            nbs@ == g@[i as int].neighbors@,
            forall|x: int| 0 <= x < e ==> (#[trigger] nbs@[x]).id != j,
        decreases nbs@.len() - e,
    {
        if nbs[e].id == j {
            return true;
        }
        e += 1;
    }
    false
}

/// Time budget of the pressure-release search.
pub const AVAILABLE_TIME: u32 = 26;

/// The largest flow in the graph.
pub open spec fn flow_max(vs: Seq<Valve>) -> int
    decreases vs.len(),
{
    if vs.len() == 0 {
        0
    } else {
        let m = flow_max(vs.drop_last());
        if vs.last().flow > m {
            vs.last().flow as int
        } else {
            m
        }
    }
}

proof fn lemma_flow_le_max(vs: Seq<Valve>, i: int)
    requires
        0 <= i < vs.len(),
    ensures
        vs[i].flow <= flow_max(vs),
        flow_max(vs) >= 0,
    decreases vs.len(),
{
    if i < vs.len() - 1 {
        lemma_flow_le_max(vs.drop_last(), i);
    } else {
        lemma_flow_max_nonneg(vs.drop_last());
    }
}

proof fn lemma_flow_max_nonneg(vs: Seq<Valve>)
    ensures
        flow_max(vs) >= 0,
    decreases vs.len(),
{
    if vs.len() > 0 {
        lemma_flow_max_nonneg(vs.drop_last());
    }
}

/// Pressure released by walking `order` from position `w` on, with `time`
/// minutes left, opening each valve on arrival: the walk of the executable
/// tally.
pub open spec fn released_from(
    order: Seq<usize>,
    w: int,
    time: int,
    vs: Seq<Valve>,
    dist: Seq<Seq<u32>>,
) -> int
    decreases order.len() - w,
{
    if w < 0 || w + 1 >= order.len() {
        0
    } else {
        let dd = dist[order[w] as int][order[w + 1] as int] as int;
        if time > dd {
            (time - dd - 1) * vs[order[w + 1] as int].flow + released_from(
                order,
                w + 1,
                time - dd - 1,
                vs,
                dist,
            )
        } else {
            released_from(order, w + 1, time, vs, dist)
        }
    }
}

/// Total pressure released by a tour, starting from the full time budget.
pub open spec fn released_total(order: Seq<usize>, vs: Seq<Valve>, dist: Seq<Seq<u32>>) -> int {
    released_from(order, 0, AVAILABLE_TIME as int, vs, dist)
}

proof fn lemma_released_nonneg(
    order: Seq<usize>,
    w: int,
    time: int,
    vs: Seq<Valve>,
    dist: Seq<Seq<u32>>,
)
    requires
        time >= 0,
    ensures
        released_from(order, w, time, vs, dist) >= 0,
    decreases order.len() - w,
{
    if w >= 0 && w + 1 < order.len() {
        let dd = dist[order[w] as int][order[w + 1] as int] as int;
        if time > dd {
            lemma_released_nonneg(order, w + 1, time - dd - 1, vs, dist);
            assert((time - dd - 1) * vs[order[w + 1] as int].flow >= 0) by (nonlinear_arith)
                requires
                    time - dd - 1 >= 0,
                    vs[order[w + 1] as int].flow >= 0,
            ;
        } else {
            lemma_released_nonneg(order, w + 1, time, vs, dist);
        }
    }
}


/// Node indices of a tour stay inside the graph.
pub open spec fn order_wf(order: Seq<usize>, n: int) -> bool {
    forall|u: int| 0 <= u < order.len() ==> #[trigger] order[u] < n
}

/// A tour releases at most `time * stops * flow_max`.
proof fn lemma_released_bound(
    order: Seq<usize>,
    w: int,
    time: int,
    vs: Seq<Valve>,
    dist: Seq<Seq<u32>>,
)
    requires
        time >= 0,
        0 <= w <= order.len(),
        order_wf(order, vs.len() as int),
    ensures
        released_from(order, w, time, vs, dist) <= time * (order.len() - w) * flow_max(vs),
    decreases order.len() - w,
{
    lemma_flow_max_nonneg(vs);
    let fmax = flow_max(vs);
    let len = order.len() as int;
    if w + 1 >= len {
        assert(released_from(order, w, time, vs, dist) == 0);
        assert(time * (len - w) * fmax >= 0) by (nonlinear_arith)
            requires
                time >= 0,
                len - w >= 0,
                fmax >= 0,
        ;
    } else {
        let dd = dist[order[w] as int][order[w + 1] as int] as int;
        lemma_flow_le_max(vs, order[w + 1] as int);
        let f = vs[order[w + 1] as int].flow as int;
        if time > dd {
            let t1 = time - dd - 1;
            lemma_released_bound(order, w + 1, t1, vs, dist);
            assert(t1 * f + t1 * (len - w - 1) * fmax <= time * (len - w) * fmax)
                by (nonlinear_arith)
                requires
                    0 <= t1 <= time,
                    0 <= f <= fmax,
                    len - w >= 1,
            ;
        } else {
            lemma_released_bound(order, w + 1, time, vs, dist);
            assert(time * (len - w - 1) * fmax <= time * (len - w) * fmax) by (nonlinear_arith)
                requires
                    time >= 0,
                    len - w >= 1,
                    fmax >= 0,
            ;
        }
    }
}

/// Walk a tour and tally the released pressure, exactly as `released_total`
/// describes it.
#[verifier::loop_isolation(false)]
pub fn total_released_pressure(
    order: &Vec<usize>,
    dist: &Vec<Vec<u32>>,
    valves: &Vec<Valve>,
) -> (total: u32)
    requires
        mat_wf(dist.deep_view(), valves@.len() as int),
        order_wf(order@, valves@.len() as int),
        released_total(order@, valves@, dist.deep_view()) <= u32::MAX,
    ensures
        total == released_total(order@, valves@, dist.deep_view()),
{
    let ghost vs = valves@;
    let ghost dm = dist.deep_view();
    let ghost full = released_total(order@, vs, dm);
    let mut time: u32 = AVAILABLE_TIME;
    let mut total: u64 = 0;
    let mut w: usize = 0;
    proof {
        lemma_mat_deep_view(dist);
    }
    while w < order.len() && w + 1 < order.len()
        invariant
            w <= order@.len(),
            time <= AVAILABLE_TIME,
            total + released_from(order@, w as int, time as int, vs, dm) == full,
            total >= 0,
        decreases order@.len() - w,
    {
        let i = order[w];
        let j = order[w + 1];
        let dd = dist[i][j];
        if time > dd {
            time = time - dd - 1;
            proof {
                lemma_released_nonneg(order@, w + 1 as int, time as int, vs, dm);
            }
            total = total + (time as u64) * (valves[j].flow as u64);
        }
        w += 1;
    }
    proof {
        assert(released_from(order@, w as int, time as int, vs, dm) == 0);
        lemma_released_nonneg(order@, 0, AVAILABLE_TIME as int, vs, dm);
    }
    total as u32
}

/// The neighbours of the path's last valve that are allowed and not yet
/// visited, in list order.
pub open spec fn keep_candidates(
    nbs: Seq<Neighbor>,
    path: Seq<usize>,
    allowed: Seq<usize>,
) -> Seq<Neighbor>
    decreases nbs.len(),
{
    if nbs.len() == 0 {
        Seq::empty()
    } else {
        let rest = keep_candidates(nbs.drop_last(), path, allowed);
        if allowed.contains(nbs.last().id) && !path.contains(nbs.last().id) {
            rest.push(nbs.last())
        } else {
            rest
        }
    }
}

pub open spec fn not_visited(path: Seq<usize>, vs: Seq<Valve>, allowed: Seq<usize>) -> Seq<
    Neighbor,
> {
    keep_candidates(vs[path.last() as int].neighbors@, path, allowed)
}

pub open spec fn imax(a: int, b: int) -> int {
    if a > b {
        a
    } else {
        b
    }
}

/// What the branch-and-bound tour search returns: the exact value of the
/// recursion it implements, which extends the path with unvisited allowed
/// neighbours, prunes those too far away, and keeps the best tally seen.
pub open spec fn dfs_spec(
    path: Seq<usize>,
    time: u32,
    best: int,
    vs: Seq<Valve>,
    dm: Seq<Seq<u32>>,
    allowed: Seq<usize>,
) -> int
    decreases time, 1int, 0int,
{
    let nv = not_visited(path, vs, allowed);
    if nv.len() == 0 {
        released_total(path, vs, dm)
    } else {
        dfs_loop_spec(path, time, best, vs, dm, allowed, 0)
    }
}

pub open spec fn dfs_loop_spec(
    path: Seq<usize>,
    time: u32,
    best: int,
    vs: Seq<Valve>,
    dm: Seq<Seq<u32>>,
    allowed: Seq<usize>,
    w: int,
) -> int
    decreases time, 0int, not_visited(path, vs, allowed).len() - w,
{
    let nv = not_visited(path, vs, allowed);
    if w < 0 || w >= nv.len() {
        best
    } else {
        let nb = nv[w];
        if nb.distance >= time {
            dfs_loop_spec(
                path,
                time,
                imax(best, released_total(path, vs, dm)),
                vs,
                dm,
                allowed,
                w + 1,
            )
        } else {
            let sub = dfs_spec(
                path.push(nb.id),
                (time - nb.distance - 1) as u32,
                best,
                vs,
                dm,
                allowed,
            );
            dfs_loop_spec(path, time, imax(best, sub), vs, dm, allowed, w + 1)
        }
    }
}

/// Linear membership test.
fn contains_id(v: &Vec<usize>, x: usize) -> (r: bool)
    ensures
        r == v@.contains(x),
{
    let mut i: usize = 0;
    while i < v.len()
        invariant
            i <= v@.len(),
            forall|k: int| 0 <= k < i ==> v@[k] != x,
        decreases v@.len() - i,
    {
        if v[i] == x {
            assert(v@[i as int] == x);
            return true;
        }
        i += 1;
    }
    false
}


/// Overflow headroom for every tour this search can evaluate: recursion depth
/// is bounded by the remaining time, so tours stay shorter than
/// `path.len() + time` stops.
pub open spec fn dfs_fits(path: Seq<usize>, time: u32, vs: Seq<Valve>) -> bool {
    AVAILABLE_TIME * (path.len() + time) * flow_max(vs) <= u32::MAX
}

/// Depth-first branch-and-bound over the condensed graph: extend the tour
/// with each allowed unvisited neighbour near enough to reach, and keep the
/// best released pressure found. Returns exactly `dfs_spec`, and leaves the
/// path as it found it.
#[verifier::loop_isolation(false)]
pub fn dfs(
    path: &mut Vec<usize>,
    time: u32,
    best_so_far: u32,
    valves: &Vec<Valve>,
    distances: &Vec<Vec<u32>>,
    allowed: &Vec<usize>,
) -> (best: u32)
    requires
        graph_wf(valves@),
        mat_wf(distances.deep_view(), valves@.len() as int),
        old(path)@.len() >= 1,
        order_wf(old(path)@, valves@.len() as int),
        order_wf(allowed@, valves@.len() as int),
        time <= AVAILABLE_TIME,
        dfs_fits(old(path)@, time, valves@),
    ensures
        final(path)@ == old(path)@,
        best == dfs_spec(
            old(path)@,
            time,
            best_so_far as int,
            valves@,
            distances.deep_view(),
            allowed@,
        ),
    decreases time,
{
    let ghost vs = valves@;
    let ghost dm = distances.deep_view();
    let ghost p0 = path@;
    proof {
        lemma_flow_max_nonneg(vs);
        lemma_mat_deep_view(distances);
    }

    let last = path[path.len() - 1];
    let nbs = &valves[last].neighbors;

    // collect allowed, unvisited neighbours
    let mut nv: Vec<Neighbor> = Vec::new();
    let mut e: usize = 0;
    proof {
        assert(nv@ =~= keep_candidates(nbs@.take(0), p0, allowed@));
    }
    while e < nbs.len()
        invariant
            e <= nbs@.len(),
            path@ == p0,
            nbs@ == vs[p0.last() as int].neighbors@,
            nv@ == keep_candidates(nbs@.take(e as int), p0, allowed@),
        decreases nbs@.len() - e,
    {
        let nb = nbs[e];
        let keep = contains_id(allowed, nb.id) && !contains_id(path, nb.id);
        proof {
            assert(nbs@.take(e + 1).drop_last() =~= nbs@.take(e as int));
            assert(nbs@.take(e + 1).last() == nbs@[e as int]);
        }
        if keep {
            nv.push(nb);
        }
        e += 1;
    }
    proof {
        assert(nbs@.take(nbs@.len() as int) =~= nbs@);
        assert(nv@ == not_visited(p0, vs, allowed@));
    }

    if nv.len() == 0 {
        proof {
            lemma_released_bound(p0, 0, AVAILABLE_TIME as int, vs, dm);
            assert(AVAILABLE_TIME * p0.len() * flow_max(vs) <= AVAILABLE_TIME * (p0.len()
                + time) * flow_max(vs)) by (nonlinear_arith)
                requires
                    time >= 0,
                    p0.len() >= 0,
                    flow_max(vs) >= 0,
            ;
        }
        return total_released_pressure(path, distances, valves);
    }

    let ghost target = dfs_spec(p0, time, best_so_far as int, vs, dm, allowed@);
    let mut best = best_so_far;
    let mut w: usize = 0;
    proof {
        assert(target == dfs_loop_spec(p0, time, best_so_far as int, vs, dm, allowed@, 0));
    }
    while w < nv.len()
        invariant
            w <= nv@.len(),
            path@ == p0,
            nv@ == not_visited(p0, vs, allowed@),
            dfs_loop_spec(p0, time, best as int, vs, dm, allowed@, w as int) == target,
        decreases nv@.len() - w,
    {
        let nb = nv[w];
        proof {
            lemma_keep_candidates_sub(vs[p0.last() as int].neighbors@, p0, allowed@, w as int);
        }
        if nb.distance >= time {
            proof {
                lemma_released_bound(p0, 0, AVAILABLE_TIME as int, vs, dm);
                assert(AVAILABLE_TIME * p0.len() * flow_max(vs) <= AVAILABLE_TIME * (p0.len()
                    + time) * flow_max(vs)) by (nonlinear_arith)
                    requires
                        time >= 0,
                        p0.len() >= 0,
                        flow_max(vs) >= 0,
                ;
                lemma_released_nonneg(p0, 0, AVAILABLE_TIME as int, vs, dm);
            }
            let t = total_released_pressure(path, distances, valves);
            if t > best {
                best = t;
            }
        } else {
            path.push(nb.id);
            proof {
                assert(path@ == p0.push(nb.id));
                assert((AVAILABLE_TIME as int) * (p0.push(nb.id).len() + (time - nb.distance
                    - 1)) * flow_max(vs) <= (AVAILABLE_TIME as int) * (p0.len() + time)
                    * flow_max(vs)) by (nonlinear_arith)
                    requires
                        flow_max(vs) >= 0,
                        p0.push(nb.id).len() == p0.len() + 1,
                        nb.distance >= 0,
                        time > nb.distance,
                ;
            }
            let sub = dfs(path, time - nb.distance - 1, best, valves, distances, allowed);
            let popped = path.pop();
            proof {
                assert(path@ =~= p0);
            }
            if sub > best {
                best = sub;
            }
        }
        w += 1;
    }
    best
}

/// An element kept by the candidate filter satisfies the filter.
proof fn lemma_keep_candidates_sub(
    nbs: Seq<Neighbor>,
    path: Seq<usize>,
    allowed: Seq<usize>,
    w: int,
)
    requires
        0 <= w < keep_candidates(nbs, path, allowed).len(),
    ensures
        allowed.contains(keep_candidates(nbs, path, allowed)[w].id),
        !path.contains(keep_candidates(nbs, path, allowed)[w].id),
    decreases nbs.len(),
{
    if nbs.len() > 0 {
        let rest = keep_candidates(nbs.drop_last(), path, allowed);
        if w < rest.len() {
            lemma_keep_candidates_sub(nbs.drop_last(), path, allowed, w);
        }
    }
}

} // verus!
