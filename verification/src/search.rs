//! The time-dependent single-source shortest-path search.
//!
//! Edge cost is not a constant: relaxing an edge at absolute minute `t`
//! costs the wait until the edge's next departure (by the minute of the
//! day) plus its travel duration.  The search therefore keeps cumulative
//! scores in absolute minutes since the day's midnight and finalizes nodes
//! in score order, exactly as classical shortest-path finality allows,
//! because every edge cost is non-negative.
//!
//! The whole run is mirrored by a functional model (`search_model`): the
//! executable search is proved to return exactly the model's state, which
//! pins the result as a function of the graph, the start node and the
//! start time alone.

use vstd::prelude::*;
use crate::connection::MINUTES_PER_DAY;
use crate::graph::{GraphV, TflGraph};

verus! {

/// The most one relaxation can add to a score: the widest travel duration
/// an edge can carry plus a full day of waiting.
pub const MAX_EDGE_COST: u64 = 66975;

/// State of a search: per node, the best known absolute score, the
/// predecessor that produced it, the length of the predecessor chain, and
/// whether the node is finalized.
pub struct SearchState {
    pub dist: Seq<Option<u64>>,
    pub parent: Seq<Option<usize>>,
    pub depth: Seq<usize>,
    pub visited: Seq<bool>,
}

/// The node the search finalizes next: among the unvisited nodes with a
/// known score, the lowest-scored one (the first such index on a tie),
/// folded over indices from `i` on with `best` the choice so far.
pub open spec fn select_from(
    dist: Seq<Option<u64>>,
    visited: Seq<bool>,
    i: int,
    best: Option<usize>,
) -> Option<usize>
    decreases dist.len() - i when 0 <= i <= dist.len()
{
    if i >= dist.len() {
        best
    } else {
        let better = if !visited[i] && dist[i] is Some && (best is None || dist[i]->0 < dist[
            best->0 as int
        ]->0) {
            Some(i as usize)
        } else {
            best
        };
        select_from(dist, visited, i + 1, better)
    }
}

/// Relaxing one edge: an edge to an unvisited node whose score it improves
/// updates that node's score, parent and depth; any other edge changes
/// nothing.
pub open spec fn relax_one(g: GraphV, st: SearchState, u: int, j: int) -> SearchState {
    let e = g.adjacency[u][j];
    let cand = e.connection.arrival(st.dist[u]->0 as int);
    if !st.visited[e.to] && (st.dist[e.to] is None || cand < st.dist[e.to]->0) {
        SearchState {
            dist: st.dist.update(e.to, Some(cand as u64)),
            parent: st.parent.update(e.to, Some(u as usize)),
            depth: st.depth.update(e.to, (st.depth[u] + 1) as usize),
            visited: st.visited,
        }
    } else {
        st
    }
}

/// Relaxing the edges of row `u` from entry `j` on, first entry first.
pub open spec fn relax_row(g: GraphV, u: int, j: int, st: SearchState) -> SearchState
    decreases g.adjacency[u].len() - j when 0 <= u < g.adjacency.len() && 0 <= j <= g.adjacency[u].len()
{
    if j >= g.adjacency[u].len() {
        st
    } else {
        relax_row(g, u, j + 1, relax_one(g, st, u, j))
    }
}

/// The search loop: one finalization (mark the selected node visited, then
/// relax its row) per unit of fuel, stopping early when nothing is left to
/// select.
pub open spec fn search_loop(g: GraphV, st: SearchState, fuel: nat) -> SearchState
    decreases fuel,
{
    if fuel == 0 {
        st
    } else {
        match select_from(st.dist, st.visited, 0, None) {
            None => st,
            Some(u) => search_loop(
                g,
                relax_row(
                    g,
                    u as int,
                    0,
                    SearchState { visited: st.visited.update(u as int, true), ..st },
                ),
                (fuel - 1) as nat,
            ),
        }
    }
}

/// The state a search starts from: only the start node has a score, the
/// absolute minute of the day the query begins at.
pub open spec fn init_state(n: nat, start: int, t0: u64) -> SearchState {
    SearchState {
        dist: Seq::new(n, |v: int| if v == start { Some(t0) } else { None }),
        parent: Seq::new(n, |v: int| None),
        depth: Seq::new(n, |v: int| 0usize),
        visited: Seq::new(n, |v: int| false),
    }
}

/// The full search: as many finalizations as the graph has nodes.
pub open spec fn search_model(g: GraphV, start: int, t0: u64) -> SearchState {
    search_loop(g, init_state(g.stations.len(), start, t0), g.stations.len())
}

/// The recorded predecessor fact of a scored node `v`: its parent `p` is
/// scored, reached no later, one link shorter in the tree, and some edge
/// from `p` to `v` produced exactly `v`'s score from `p`'s.
pub open spec fn tree_edge_ok(
    g: GraphV,
    dist: Seq<Option<u64>>,
    depth: Seq<usize>,
    v: int,
    p: int,
) -> bool {
    &&& 0 <= p < dist.len()
    &&& dist[p] is Some
    &&& dist[v] is Some
    &&& dist[p]->0 <= dist[v]->0
    &&& depth[v] == depth[p] + 1
    &&& exists|k: int|
        0 <= k < g.adjacency[p].len() && (#[trigger] g.adjacency[p][k]).to == v && dist[v]->0
            == g.adjacency[p][k].connection.arrival(dist[p]->0 as int)
}

/// One relaxed edge that can no longer improve its head's score.
pub open spec fn edge_stable(g: GraphV, dist: Seq<Option<u64>>, v: int, k: int) -> bool {
    let e = g.adjacency[v][k];
    dist[e.to] is Some && dist[e.to]->0 <= e.connection.arrival(dist[v]->0 as int)
}

/// Every edge out of a finalized node is stable.
pub open spec fn stability(g: GraphV, st: SearchState) -> bool {
    forall|v: int, k: int|
        0 <= v < g.adjacency.len() && st.visited[v] && 0 <= k < g.adjacency[v].len()
            ==> #[trigger] edge_stable(g, st.dist, v, k)
}

/// Stability of every finalized row, except that the row of `u` is only
/// covered up to entry `j`.
pub open spec fn stability_except(g: GraphV, st: SearchState, u: int, j: int) -> bool {
    forall|v: int, k: int|
        0 <= v < g.adjacency.len() && st.visited[v] && 0 <= k < g.adjacency[v].len() && (v != u || k
            < j) ==> #[trigger] edge_stable(g, st.dist, v, k)
}

/// Everything the search maintains about its state, with `vc` the number
/// of finalized nodes: shapes, the pinned start entry, score bounds, the
/// predecessor facts, the depth discipline, and that finalized nodes never
/// score above unfinalized ones.
pub open spec fn search_inv(g: GraphV, st: SearchState, vc: int, start: int, t0: u64) -> bool {
    let n = g.stations.len() as int;
    &&& st.dist.len() == n
    &&& st.parent.len() == n
    &&& st.depth.len() == n
    &&& st.visited.len() == n
    &&& 0 <= start < n
    &&& st.dist[start] == Some(t0)
    &&& st.parent[start] is None
    &&& vc == count_true(st.visited)
    &&& 0 <= vc <= n
    &&& (vc == 0 ==> !st.visited[start] && st.depth[start] == 0 && (forall|v: int|
        0 <= v < n && v != start ==> (#[trigger] st.dist[v]) is None))
    &&& (vc > 0 ==> st.visited[start])
    &&& (forall|v: int| 0 <= v < n && st.visited[v] ==> (#[trigger] st.dist[v]) is Some)
    &&& (forall|v: int|
        0 <= v < n && (#[trigger] st.dist[v]) is Some ==> t0 <= st.dist[v]->0 <= t0 + vc
            * MAX_EDGE_COST)
    &&& (forall|v: int|
        0 <= v < n && v != start && (#[trigger] st.dist[v]) is Some ==> st.parent[v] is Some)
    &&& (forall|v: int|
        0 <= v < n ==> ((#[trigger] st.parent[v]) matches Some(p) ==> tree_edge_ok(
            g,
            st.dist,
            st.depth,
            v,
            p as int,
        ) && st.visited[p as int] && st.depth[v] <= vc))
    &&& (forall|v: int| 0 <= v < n && st.visited[v] ==> (#[trigger] st.depth[v]) + 1 <= vc)
    &&& (forall|v: int, w: int|
        #![trigger st.visited[v], st.dist[w]]
        0 <= v < n && 0 <= w < n && st.visited[v] && !st.visited[w] && st.dist[w] is Some
            ==> st.dist[v]->0 <= st.dist[w]->0)
}

/// When selection comes back empty, no unvisited node has a score.
proof fn lemma_select_none(dist: Seq<Option<u64>>, visited: Seq<bool>, i: int, best: Option<usize>)
    requires
        0 <= i <= dist.len(),
        visited.len() == dist.len(),
        select_from(dist, visited, i, best) is None,
    ensures
        best is None,
        forall|w: int| i <= w < dist.len() ==> !(!visited[w] && dist[w] is Some),
    decreases dist.len() - i,
{
    if i < dist.len() {
        let better = if !visited[i] && dist[i] is Some && (best is None || dist[i]->0 < dist[
            best->0 as int
        ]->0) {
            Some(i as usize)
        } else {
            best
        };
        lemma_select_none(dist, visited, i + 1, better);
    }
}

/// Finalizing the lowest-scored unvisited node keeps every search fact:
/// the count rises by one, its depth obeys the new count, its score is
/// under the one-edge-per-finalized-node bound, every already finalized
/// node scores at or below it, and its row is trivially stable up to
/// entry zero.
proof fn lemma_mark(g: GraphV, st: SearchState, vc: int, start: int, t0: u64, u: int)
    requires
        g.wf(),
        search_inv(g, st, vc, start, t0),
        stability(g, st),
        0 <= u < st.dist.len(),
        !st.visited[u],
        st.dist[u] is Some,
        forall|w: int|
            0 <= w < st.dist.len() && !st.visited[w] && (#[trigger] st.dist[w]) is Some ==> st.dist[
                u
            ]->0 <= st.dist[w]->0,
    ensures
        ({
            let st2 = SearchState { visited: st.visited.update(u, true), ..st };
            &&& search_inv(g, st2, vc + 1, start, t0)
            &&& stability_except(g, st2, u, 0)
            &&& st2.dist[u]->0 <= t0 + vc * MAX_EDGE_COST
            &&& st2.visited[u]
            &&& st2.depth[u] + 1 <= vc + 1
            &&& forall|v: int|
                0 <= v < st2.dist.len() && st2.visited[v] ==> (#[trigger] st2.dist[v]) is Some
                    && st2.dist[v]->0 <= st2.dist[u]->0
        }),
{
    let st2 = SearchState { visited: st.visited.update(u, true), ..st };
    let n = g.stations.len() as int;
    lemma_count_true_update(st.visited, u);
    lemma_count_true_le(st.visited);
    lemma_count_true_le(st2.visited);
    assert forall|v: int| 0 <= v < n && st2.visited[v] implies (#[trigger] st2.dist[v]) is Some by {
        if v != u {
            assert(st.visited[v]);
        }
    }
    assert forall|v: int, w: int|
        #![trigger st2.visited[v], st2.dist[w]]
        0 <= v < n && 0 <= w < n && st2.visited[v] && !st2.visited[w]
            && st2.dist[w] is Some implies st2.dist[v]->0 <= st2.dist[w]->0 by {
        assert(w != u);
        assert(!st.visited[w] && st.dist[w] is Some);
        if v == u {
            assert(st.dist[u]->0 <= st.dist[w]->0);
        } else {
            assert(st.visited[v]);
        }
    }
    assert(vc * MAX_EDGE_COST <= (vc + 1) * MAX_EDGE_COST) by (nonlinear_arith)
        requires
            0 <= vc,
    ;
    if vc == 0 {
        assert(u == start);
    }
    assert(st.depth[u] <= vc) by {
        if u == start {
            if vc == 0 {
            } else {
                assert(st.visited[start]);
            }
        } else {
            if st.dist[u] is Some {
                assert(st.parent[u] is Some);
            }
        }
    }
    assert forall|v: int| 0 <= v < n && st2.visited[v] implies (#[trigger] st2.depth[v]) + 1 <= vc
        + 1 by {
        if v != u {
            assert(st.visited[v]);
        }
    }
    assert forall|v: int|
        0 <= v < n implies ((#[trigger] st2.parent[v]) matches Some(p) ==> tree_edge_ok(
        g,
        st2.dist,
        st2.depth,
        v,
        p as int,
    ) && st2.visited[p as int] && st2.depth[v] <= vc + 1) by {
        if st.parent[v] is Some {
            let p = st.parent[v]->0 as int;
            assert(tree_edge_ok(g, st.dist, st.depth, v, p) && st.visited[p] && st.depth[v] <= vc);
        }
    }
    assert forall|v: int, k: int|
        0 <= v < g.adjacency.len() && st2.visited[v] && 0 <= k < g.adjacency[v].len() && (v != u
            || k < 0) implies #[trigger] edge_stable(g, st2.dist, v, k) by {
        assert(v != u);
        assert(st.visited[v]);
        assert(edge_stable(g, st.dist, v, k));
    }
    assert forall|v: int|
        0 <= v < st2.dist.len() && st2.visited[v] implies (#[trigger] st2.dist[v]) is Some
        && st2.dist[v]->0 <= st2.dist[u]->0 by {
        if v != u {
            assert(st.visited[v]);
            assert(st.dist[v] is Some);
            assert(st.dist[v]->0 <= st.dist[u]->0);
        }
    }
}

/// One relaxation step keeps every search fact, keeps every finalized
/// score at or under the score of the row's own node, and extends the
/// stable prefix of that row by one entry.
proof fn lemma_relax_step(
    g: GraphV,
    st: SearchState,
    vc: int,
    start: int,
    t0: u64,
    u: int,
    j: int,
)
    requires
        g.wf(),
        search_inv(g, st, vc, start, t0),
        stability_except(g, st, u, j),
        0 <= u < g.adjacency.len(),
        st.visited[u],
        st.dist[u] is Some,
        0 <= j < g.adjacency[u].len(),
        1 <= vc,
        st.dist[u]->0 <= t0 + (vc - 1) * MAX_EDGE_COST,
        t0 < MINUTES_PER_DAY,
        forall|v: int|
            0 <= v < st.dist.len() && st.visited[v] ==> (#[trigger] st.dist[v]) is Some && st.dist[
                v
            ]->0 <= st.dist[u]->0,
    ensures
        ({
            let st2 = relax_one(g, st, u, j);
            &&& search_inv(g, st2, vc, start, t0)
            &&& stability_except(g, st2, u, j + 1)
            &&& st2.visited == st.visited
            &&& st2.dist[u] == st.dist[u]
            &&& st2.depth[u] == st.depth[u]
            &&& forall|v: int|
                0 <= v < st2.dist.len() && st2.visited[v] ==> (#[trigger] st2.dist[v]) is Some
                    && st2.dist[v]->0 <= st2.dist[u]->0
        }),
{
    let n = g.stations.len() as int;
    let e = g.adjacency[u][j];
    let du = st.dist[u]->0 as int;
    let cand = e.connection.arrival(du);
    assert(0 <= e.to < n);
    assert(e.connection.wf());
    assert(0 <= du % (MINUTES_PER_DAY as int) < MINUTES_PER_DAY as int);
    assert(0 <= e.connection.wait(du % (MINUTES_PER_DAY as int)) < MINUTES_PER_DAY);
    assert(du <= cand <= du + MAX_EDGE_COST);
    assert((vc - 1) * MAX_EDGE_COST + MAX_EDGE_COST == vc * MAX_EDGE_COST) by (nonlinear_arith);
    assert(cand <= t0 + vc * MAX_EDGE_COST);
    let st2 = relax_one(g, st, u, j);
    if !st.visited[e.to] && (st.dist[e.to] is None || cand < st.dist[e.to]->0) {
        assert(e.to != u);
        assert(e.to != start) by {
            if e.to == start {
                assert(st.visited[start]);
            }
        }
        assert(st2.dist[e.to] == Some(cand as u64));
        assert(cand as u64 as int == cand);
        assert forall|v: int| 0 <= v < n && st2.visited[v] implies (
        #[trigger] st2.dist[v]) is Some && st2.dist[v]->0 <= st2.dist[u]->0 by {
            assert(v != e.to);
            assert(st2.dist[v] == st.dist[v]);
            assert(st2.dist[u] == st.dist[u]);
        }
        assert forall|v: int|
            0 <= v < n && (#[trigger] st2.dist[v]) is Some implies t0 <= st2.dist[v]->0 <= t0 + vc
            * MAX_EDGE_COST by {
            if v != e.to {
                assert(st2.dist[v] == st.dist[v]);
            }
        }
        assert forall|v: int|
            0 <= v < n implies ((#[trigger] st2.parent[v]) matches Some(p) ==> tree_edge_ok(
            g,
            st2.dist,
            st2.depth,
            v,
            p as int,
        ) && st2.visited[p as int] && st2.depth[v] <= vc) by {
            if v == e.to {
                assert(st2.parent[v] == Some(u as usize));
                assert(st2.dist[u] == st.dist[u]);
                assert(st2.depth[u] == st.depth[u]);
                assert(st2.depth[v] == st.depth[u] + 1);
                assert(st.depth[u] + 1 <= vc);
                assert(g.adjacency[u][j].to == v);
                assert(st2.dist[v]->0 == g.adjacency[u][j].connection.arrival(
                    st2.dist[u]->0 as int,
                ));
                assert(tree_edge_ok(g, st2.dist, st2.depth, v, u));
            } else if st.parent[v] is Some {
                let p = st.parent[v]->0 as int;
                assert(tree_edge_ok(g, st.dist, st.depth, v, p) && st.visited[p] && st.depth[v]
                    <= vc);
                assert(p != e.to);
                assert(st2.dist[p] == st.dist[p]);
                assert(st2.dist[v] == st.dist[v]);
                assert(st2.depth[v] == st.depth[v]);
                assert(st2.depth[p] == st.depth[p]);
                assert(tree_edge_ok(g, st2.dist, st2.depth, v, p));
            }
        }
        assert forall|v: int, w: int|
            #![trigger st2.visited[v], st2.dist[w]]
            0 <= v < n && 0 <= w < n && st2.visited[v] && !st2.visited[w]
                && st2.dist[w] is Some implies st2.dist[v]->0 <= st2.dist[w]->0 by {
            assert(v != e.to);
            assert(st2.dist[v] == st.dist[v]);
            if w != e.to {
                assert(st2.dist[w] == st.dist[w]);
            } else {
                assert(st2.dist[w]->0 == cand);
                assert(st.dist[v]->0 <= st.dist[u]->0);
            }
        }
        assert forall|va: int, ka: int|
            0 <= va < g.adjacency.len() && st2.visited[va] && 0 <= ka < g.adjacency[va].len() && (
            va != u || ka < j + 1) implies #[trigger] edge_stable(g, st2.dist, va, ka) by {
            let ea = g.adjacency[va][ka];
            assert(va != e.to);
            assert(st2.dist[va] == st.dist[va]);
            if va == u && ka == j {
                assert(st2.dist[e.to]->0 == cand);
                assert(edge_stable(g, st2.dist, va, ka));
            } else {
                assert(edge_stable(g, st.dist, va, ka));
                if ea.to == e.to {
                    assert(st.dist[ea.to] is None || cand < st.dist[ea.to]->0);
                    assert(st2.dist[ea.to]->0 == cand);
                    assert(cand <= ea.connection.arrival(st2.dist[va]->0 as int)) by {
                        if st.dist[ea.to] is Some {
                            assert(st.dist[ea.to]->0 <= ea.connection.arrival(
                                st.dist[va]->0 as int,
                            ));
                        } else {
                            assert(!st.visited[ea.to]);
                            assert(false);
                        }
                    }
                } else {
                    assert(st2.dist[ea.to] == st.dist[ea.to]);
                }
            }
        }
    } else {
        assert(st2 == st);
        assert forall|va: int, ka: int|
            0 <= va < g.adjacency.len() && st2.visited[va] && 0 <= ka < g.adjacency[va].len() && (
            va != u || ka < j + 1) implies #[trigger] edge_stable(g, st2.dist, va, ka) by {
            if va == u && ka == j {
                if st.visited[e.to] {
                    assert(st.dist[e.to] is Some);
                    assert(st.dist[e.to]->0 <= st.dist[u]->0);
                    assert(st.dist[e.to]->0 <= cand);
                } else {
                    assert(st.dist[e.to] is Some && cand >= st.dist[e.to]->0);
                }
                assert(edge_stable(g, st.dist, va, ka));
            } else {
                assert(edge_stable(g, st.dist, va, ka));
            }
        }
    }
}

/// A walk through the graph: the nodes visited in order, with `picks[i]`
/// the entry of `nodes[i]`'s adjacency row taken to reach `nodes[i + 1]`.
pub open spec fn walk_ok(g: GraphV, nodes: Seq<int>, picks: Seq<int>) -> bool {
    &&& nodes.len() == picks.len() + 1
    &&& forall|i: int|
        0 <= i < picks.len() ==> 0 <= nodes[i] < g.adjacency.len() && 0 <= picks[i]
            < g.adjacency[nodes[i]].len() && (#[trigger] g.adjacency[nodes[i]][picks[i]]).to
            == nodes[i + 1]
}

/// The absolute minute a walk that left at `t0` reaches its `i`-th node:
/// each step waits for its edge's next departure and travels it.
pub open spec fn walk_arrival(g: GraphV, nodes: Seq<int>, picks: Seq<int>, t0: int, i: int) -> int
    decreases i when i >= 0
{
    if i <= 0 {
        t0
    } else {
        g.adjacency[nodes[i - 1]][picks[i - 1]].connection.arrival(
            walk_arrival(g, nodes, picks, t0, i - 1),
        )
    }
}

/// Optimality against a stable tree: when every edge out of a scored node
/// is stable and every edge cost is first-in-first-out, no walk from the
/// start can reach any node before the tree's recorded score for it.
proof fn lemma_walk_lower_bound(
    g: GraphV,
    dist: Seq<Option<u64>>,
    t0: u64,
    start: int,
    nodes: Seq<int>,
    picks: Seq<int>,
    i: int,
)
    requires
        g.wf(),
        g.fifo_ok(),
        dist.len() == g.stations.len(),
        0 <= start < dist.len(),
        dist[start] == Some(t0),
        forall|v: int| 0 <= v < dist.len() && dist[v] is Some ==> t0 <= (#[trigger] dist[v])->0,
        forall|u: int, k: int|
            0 <= u < dist.len() && dist[u] is Some && 0 <= k < g.adjacency[u].len()
                ==> #[trigger] edge_stable(g, dist, u, k),
        walk_ok(g, nodes, picks),
        nodes[0] == start,
        0 <= i <= picks.len(),
    ensures
        0 <= nodes[i] < dist.len(),
        dist[nodes[i]] is Some,
        dist[nodes[i]]->0 <= walk_arrival(g, nodes, picks, t0 as u64 as int, i),
        t0 <= walk_arrival(g, nodes, picks, t0 as int, i),
    decreases i,
{
    if i > 0 {
        lemma_walk_lower_bound(g, dist, t0, start, nodes, picks, i - 1);
        let u = nodes[i - 1];
        let k = picks[i - 1];
        let e = g.adjacency[u][k];
        let a_prev = walk_arrival(g, nodes, picks, t0 as int, i - 1);
        assert(edge_stable(g, dist, u, k));
        assert(0 <= e.to < dist.len());
        assert(e.connection.fifo());
        assert(e.connection.arrival(dist[u]->0 as int) <= e.connection.arrival(a_prev));
        vstd::arithmetic::div_mod::lemma_mod_bound(a_prev, MINUTES_PER_DAY as int);
        assert(e.connection.wait(a_prev % (MINUTES_PER_DAY as int)) >= 0);
        assert(e.connection.arrival(a_prev) >= a_prev);
    }
}

impl TflGraph {
    /// Runs the time-dependent search from a node index at an absolute
    /// minute of the day.  The returned tree — scores, parents, chain
    /// depths — is exactly the final state of the functional model, so the
    /// result is a function of the graph, the start node and the start
    /// time alone; the remaining clauses spell out what the tree means:
    /// the start scores its own start minute and is nobody's child, every
    /// score lies between the start minute and the start minute plus one
    /// maximal edge per node, every scored node other than the start
    /// records the edge that produced its score from a no-later-scored
    /// parent, chains are no longer than the node count, and no edge out
    /// of any scored node could still improve its head's score.
    #[verifier::rlimit(100)]
    pub fn search_scores(&self, start_idx: usize, start_time: u16) -> (r: (
        Vec<Option<u64>>,
        Vec<Option<usize>>,
        Vec<usize>,
    ))
        requires
            self@.wf(),
            start_idx < self@.stations.len(),
            start_time < MINUTES_PER_DAY as u16,
        ensures
            ({
                let st = search_model(self@, start_idx as int, start_time as u64);
                r.0@ == st.dist && r.1@ == st.parent && r.2@ == st.depth
            }),
            r.0@.len() == self@.stations.len(),
            r.1@.len() == self@.stations.len(),
            r.2@.len() == self@.stations.len(),
            r.0@[start_idx as int] == Some(start_time as u64),
            r.1@[start_idx as int] is None,
            forall|v: int|
                0 <= v < r.0@.len() && r.0@[v] is Some ==> start_time as u64 <= (
                #[trigger] r.0@[v])->0 <= start_time + self@.stations.len() * MAX_EDGE_COST,
            forall|v: int|
                0 <= v < r.0@.len() && v != start_idx && r.0@[v] is Some ==> (
                #[trigger] r.1@[v]) is Some,
            forall|v: int|
                0 <= v < r.1@.len() ==> ((#[trigger] r.1@[v]) matches Some(u) ==> tree_edge_ok(
                    self@,
                    r.0@,
                    r.2@,
                    v,
                    u as int,
                ) && r.2@[v] <= r.0@.len()),
            forall|u: int, k: int|
                0 <= u < r.0@.len() && r.0@[u] is Some && 0 <= k < self@.adjacency[u].len()
                    ==> #[trigger] edge_stable(self@, r.0@, u, k),
            forall|nodes: Seq<int>, picks: Seq<int>|
                self@.fifo_ok() && #[trigger] walk_ok(self@, nodes, picks) && nodes[0]
                    == start_idx ==> r.0@[nodes[picks.len() as int]] is Some && r.0@[nodes[
                    picks.len() as int
                ]]->0 <= walk_arrival(self@, nodes, picks, start_time as int, picks.len() as int),
    {
        let ghost g = self@;
        let n = self.stations.len();
        let ghost t0 = start_time as u64;
        let mut dist: Vec<Option<u64>> = Vec::new();
        let mut parent: Vec<Option<usize>> = Vec::new();
        let mut depth: Vec<usize> = Vec::new();
        let mut visited: Vec<bool> = Vec::new();
        let mut i: usize = 0;
        while i < n
            invariant
                i <= n,
                dist@.len() == i,
                parent@.len() == i,
                depth@.len() == i,
                visited@.len() == i,
                forall|v: int| 0 <= v < i ==> (#[trigger] dist@[v]) is None,
                forall|v: int| 0 <= v < i ==> (#[trigger] parent@[v]) is None,
                forall|v: int| 0 <= v < i ==> (#[trigger] depth@[v]) == 0,
                forall|v: int| 0 <= v < i ==> !(#[trigger] visited@[v]),
            decreases n - i,
        {
            dist.push(None);
            parent.push(None);
            depth.push(0);
            visited.push(false);
            i = i + 1;
        }
        dist[start_idx] = Some(start_time as u64);
        proof {
            let st0 = init_state(n as nat, start_idx as int, t0);
            assert(dist@ =~= st0.dist);
            assert(parent@ =~= st0.parent);
            assert(depth@ =~= st0.depth);
            assert(visited@ =~= st0.visited);
            lemma_count_true_zero(visited@);
        }
        let mut visited_count: usize = 0;
        let mut iter: usize = 0;
        while iter < n
            invariant
                self@ == g,
                g.wf(),
                n == g.stations.len(),
                t0 == start_time as u64,
                t0 < MINUTES_PER_DAY,
                start_idx < n,
                iter <= n,
                visited_count <= iter,
                dist@.len() == n,
                search_loop(
                    g,
                    SearchState { dist: dist@, parent: parent@, depth: depth@, visited: visited@ },
                    (n - iter) as nat,
                ) == search_model(g, start_idx as int, t0),
                visited_count as int == count_true(visited@),
                visited_count == iter || select_from(dist@, visited@, 0, None) is None,
                search_inv(
                    g,
                    SearchState { dist: dist@, parent: parent@, depth: depth@, visited: visited@ },
                    visited_count as int,
                    start_idx as int,
                    t0,
                ),
                stability(
                    g,
                    SearchState { dist: dist@, parent: parent@, depth: depth@, visited: visited@ },
                ),
            decreases n - iter,
        {
            let ghost st_in = SearchState {
                dist: dist@,
                parent: parent@,
                depth: depth@,
                visited: visited@,
            };
            let mut best: Option<usize> = None;
            let mut i: usize = 0;
            while i < n
                invariant
                    i <= n,
                    n == dist@.len(),
                    n == visited@.len(),
                    select_from(dist@, visited@, i as int, best) == select_from(
                        dist@,
                        visited@,
                        0,
                        None,
                    ),
                    best matches Some(b) ==> b < n && !visited@[b as int] && dist@[b as int] is Some,
                    best matches Some(b) ==> forall|w: int|
                        0 <= w < i && !visited@[w] && (#[trigger] dist@[w]) is Some ==> dist@[
                            b as int
                        ]->0 <= dist@[w]->0,
                    best is None ==> forall|w: int|
                        0 <= w < i ==> !(!visited@[w] && (#[trigger] dist@[w]) is Some),
                decreases n - i,
            {
                let take = !visited[i] && dist[i].is_some() && (match (best, dist[i]) {
                    (Some(b), Some(d)) => {
                        let bd = dist[b];
                        match bd {
                            Some(bdv) => d < bdv,
                            None => true,
                        }
                    },
                    (None, _) => true,
                    _ => false,
                });
                if take {
                    best = Some(i);
                }
                i = i + 1;
            }
            match best {
                None => {
                    proof {
                        assert(select_from(dist@, visited@, 0, None) is None);
                        assert(search_loop(g, st_in, (n - iter) as nat) == st_in);
                        assert(search_loop(g, st_in, (n - iter - 1) as nat) == st_in);
                    }
                },
                Some(u) => {
                    proof {
                        assert(select_from(dist@, visited@, 0, None) == Some(u));
                        assert(visited_count == iter);
                        lemma_mark(g, st_in, visited_count as int, start_idx as int, t0, u as int);
                    }
                    visited[u] = true;
                    visited_count = visited_count + 1;
                    proof {
                        assert(visited@ =~= st_in.visited.update(u as int, true));
                    }
                    let ghost st_marked = SearchState {
                        dist: dist@,
                        parent: parent@,
                        depth: depth@,
                        visited: visited@,
                    };
                    proof {
                        assert(st_marked == SearchState {
                            visited: st_in.visited.update(u as int, true),
                            ..st_in
                        });
                    }
                    let du = match dist[u] {
                        Some(d) => d,
                        None => 0,
                    };
                    let row_len = self.adjacency[u].len();
                    proof {
                        assert(g.adjacency[u as int] == self.adjacency[u as int].deep_view());
                    }
                    let mut j: usize = 0;
                    while j < row_len
                        invariant
                            self@ == g,
                            g.wf(),
                            n == g.stations.len(),
                            t0 < MINUTES_PER_DAY,
                            start_idx < n,
                            u < n,
                            row_len == g.adjacency[u as int].len(),
                            j <= row_len,
                            1 <= visited_count <= n,
                            visited@ == st_marked.visited,
                            visited@[u as int],
                            dist@[u as int] == Some(du),
                            du <= t0 + (visited_count - 1) * MAX_EDGE_COST,
                            relax_row(
                                g,
                                u as int,
                                j as int,
                                SearchState {
                                    dist: dist@,
                                    parent: parent@,
                                    depth: depth@,
                                    visited: visited@,
                                },
                            ) == relax_row(g, u as int, 0, st_marked),
                            search_inv(
                                g,
                                SearchState {
                                    dist: dist@,
                                    parent: parent@,
                                    depth: depth@,
                                    visited: visited@,
                                },
                                visited_count as int,
                                start_idx as int,
                                t0,
                            ),
                            stability_except(
                                g,
                                SearchState {
                                    dist: dist@,
                                    parent: parent@,
                                    depth: depth@,
                                    visited: visited@,
                                },
                                u as int,
                                j as int,
                            ),
                            forall|v: int|
                                0 <= v < n && visited@[v] ==> (#[trigger] dist@[v]) is Some
                                    && dist@[v]->0 <= du,
                        decreases row_len - j,
                    {
                        let ghost st_j = SearchState {
                            dist: dist@,
                            parent: parent@,
                            depth: depth@,
                            visited: visited@,
                        };
                        proof {
                            lemma_relax_step(
                                g,
                                st_j,
                                visited_count as int,
                                start_idx as int,
                                t0,
                                u as int,
                                j as int,
                            );
                            assert(g.adjacency[u as int][j as int] == self.adjacency[u as int][
                                j as int
                            ].deep_view());
                        }
                        let ghost e = g.adjacency[u as int][j as int];
                        let edge_to = self.adjacency[u][j].to;
                        let travel = self.adjacency[u][j].connection.duration_minutes;
                        let wait = self.adjacency[u][j].connection.get_minutes_to_departure(
                            (du % (MINUTES_PER_DAY as u64)) as usize,
                        );
                        proof {
                            assert((du % (MINUTES_PER_DAY as u64)) as usize as int % (
                            MINUTES_PER_DAY as int) == du as int % (MINUTES_PER_DAY as int));
                            assert((visited_count - 1) * MAX_EDGE_COST <= n * MAX_EDGE_COST) by (
                            nonlinear_arith)
                                requires
                                    visited_count <= n,
                                    1 <= visited_count,
                                    0 < MAX_EDGE_COST,
                            ;
                            assert(n * MAX_EDGE_COST <= 0x4000_0000 * 66975) by (nonlinear_arith)
                                requires
                                    n <= 0x4000_0000,
                                    0 <= n,
                                    MAX_EDGE_COST == 66975,
                            ;
                        }
                        let cand = du + wait as u64 + travel as u64;
                        proof {
                            assert(cand as int == e.connection.arrival(du as int));
                        }
                        let do_update = !visited[edge_to] && (match dist[edge_to] {
                            Some(x) => cand < x,
                            None => true,
                        });
                        if do_update {
                            let d_u = depth[u];
                            dist[edge_to] = Some(cand);
                            parent[edge_to] = Some(u);
                            depth[edge_to] = d_u + 1;
                            proof {
                                assert(dist@ =~= st_j.dist.update(e.to, Some(cand)));
                                assert(parent@ =~= st_j.parent.update(e.to, Some(u)));
                                assert(depth@ =~= st_j.depth.update(
                                    e.to,
                                    (st_j.depth[u as int] + 1) as usize,
                                ));
                                assert(SearchState {
                                    dist: dist@,
                                    parent: parent@,
                                    depth: depth@,
                                    visited: visited@,
                                } == relax_one(g, st_j, u as int, j as int));
                            }
                        } else {
                            proof {
                                assert(SearchState {
                                    dist: dist@,
                                    parent: parent@,
                                    depth: depth@,
                                    visited: visited@,
                                } == relax_one(g, st_j, u as int, j as int));
                            }
                        }
                        proof {
                            let st_next = SearchState {
                                dist: dist@,
                                parent: parent@,
                                depth: depth@,
                                visited: visited@,
                            };
                            assert(relax_row(g, u as int, j as int, st_j) == relax_row(
                                g,
                                u as int,
                                j as int + 1,
                                st_next,
                            ));
                        }
                        j = j + 1;
                    }
                    proof {
                        let st_end = SearchState {
                            dist: dist@,
                            parent: parent@,
                            depth: depth@,
                            visited: visited@,
                        };
                        assert(relax_row(g, u as int, row_len as int, st_end) == st_end);
                        assert(st_end == relax_row(g, u as int, 0, st_marked));
                        assert(search_loop(g, st_in, (n - iter) as nat) == search_loop(
                            g,
                            st_end,
                            (n - iter - 1) as nat,
                        ));
                        assert forall|v: int, k: int|
                            0 <= v < g.adjacency.len() && st_end.visited[v] && 0 <= k
                                < g.adjacency[v].len() implies #[trigger] edge_stable(
                            g,
                            st_end.dist,
                            v,
                            k,
                        ) by {
                            assert(stability_except(g, st_end, u as int, row_len as int));
                            assert(v != u as int || k < row_len as int);
                        }
                    }
                },
            }
            iter = iter + 1;
        }
        proof {
            let st_fin = SearchState {
                dist: dist@,
                parent: parent@,
                depth: depth@,
                visited: visited@,
            };
            assert(st_fin == search_model(g, start_idx as int, t0));
            assert(select_from(dist@, visited@, 0, None) is None) by {
                if visited_count == n {
                    lemma_count_true_all(visited@);
                    lemma_select_all_visited(dist@, visited@, 0, None);
                }
            }
            lemma_select_none(dist@, visited@, 0, None);
            assert(visited_count * MAX_EDGE_COST <= n * MAX_EDGE_COST) by (nonlinear_arith)
                requires
                    visited_count <= n,
                    0 <= visited_count,
                    0 < MAX_EDGE_COST,
            ;
            assert forall|v: int|
                0 <= v < st_fin.dist.len() && st_fin.dist[v] is Some implies t0 <= (
            #[trigger] st_fin.dist[v])->0 <= t0 + n * MAX_EDGE_COST by {
                assert(t0 <= st_fin.dist[v]->0 <= t0 + visited_count * MAX_EDGE_COST);
            }
            assert forall|u: int, k: int|
                0 <= u < st_fin.dist.len() && st_fin.dist[u] is Some && 0 <= k < g.adjacency[
                    u
                ].len() implies #[trigger] edge_stable(g, st_fin.dist, u, k) by {
                assert(st_fin.visited[u]);
            }
            assert forall|nodes: Seq<int>, picks: Seq<int>|
                g.fifo_ok() && #[trigger] walk_ok(g, nodes, picks) && nodes[0]
                    == start_idx implies dist@[nodes[picks.len() as int]] is Some && dist@[nodes[
                picks.len() as int
            ]]->0 <= walk_arrival(g, nodes, picks, start_time as int, picks.len() as int) by {
                lemma_walk_lower_bound(
                    g,
                    dist@,
                    t0,
                    start_idx as int,
                    nodes,
                    picks,
                    picks.len() as int,
                );
            }
        }
        (dist, parent, depth)
    }
}

/// How many entries of a boolean sequence are set.
pub open spec fn count_true(s: Seq<bool>) -> int
    decreases s.len(),
{
    if s.len() == 0 {
        0
    } else {
        count_true(s.drop_last()) + if s.last() {
            1int
        } else {
            0int
        }
    }
}

/// An all-clear sequence counts zero.
proof fn lemma_count_true_zero(s: Seq<bool>)
    requires
        forall|i: int| 0 <= i < s.len() ==> !s[i],
    ensures
        count_true(s) == 0,
    decreases s.len(),
{
    if s.len() > 0 {
        lemma_count_true_zero(s.drop_last());
    }
}

/// Setting one unset entry raises the count by one.
proof fn lemma_count_true_update(s: Seq<bool>, i: int)
    requires
        0 <= i < s.len(),
        !s[i],
    ensures
        count_true(s.update(i, true)) == count_true(s) + 1,
    decreases s.len(),
{
    let t = s.update(i, true);
    if i == s.len() - 1 {
        assert(t.drop_last() =~= s.drop_last());
    } else {
        assert(t.drop_last() =~= s.drop_last().update(i, true));
        lemma_count_true_update(s.drop_last(), i);
    }
}

/// The count never exceeds the length.
proof fn lemma_count_true_le(s: Seq<bool>)
    ensures
        0 <= count_true(s) <= s.len(),
    decreases s.len(),
{
    if s.len() > 0 {
        lemma_count_true_le(s.drop_last());
    }
}

/// A full count means every entry is set.
proof fn lemma_count_true_all(s: Seq<bool>)
    requires
        count_true(s) == s.len(),
    ensures
        forall|i: int| 0 <= i < s.len() ==> s[i],
    decreases s.len(),
{
    if s.len() > 0 {
        lemma_count_true_le(s.drop_last());
        lemma_count_true_all(s.drop_last());
        assert forall|i: int| 0 <= i < s.len() implies s[i] by {
            if i < s.len() - 1 {
                assert(s.drop_last()[i]);
            }
        }
    }
}

/// With every node visited there is nothing to select.
proof fn lemma_select_all_visited(
    dist: Seq<Option<u64>>,
    visited: Seq<bool>,
    i: int,
    best: Option<usize>,
)
    requires
        0 <= i <= dist.len(),
        visited.len() == dist.len(),
        forall|w: int| 0 <= w < visited.len() ==> visited[w],
    ensures
        select_from(dist, visited, i, best) == best,
    decreases dist.len() - i,
{
    if i < dist.len() {
        lemma_select_all_visited(dist, visited, i + 1, best);
    }
}

} // verus!
