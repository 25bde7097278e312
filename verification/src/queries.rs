//! The query surface over the graph: full results from a stop identifier,
//! from an ephemeral coordinate, and worst-case group results from several
//! coordinates.

use vstd::prelude::*;
use crate::connection::MINUTES_PER_DAY;
use crate::errors::GraphError;
use crate::graph::{id_index, lemma_id_index, walk_row, Edge, EdgeV, GraphV, TflGraph, WalkingNeighbor, MAX_NODES};
use crate::location::Location;
use crate::path::{Path, PathV};
use crate::search::{search_model, tree_edge_ok, SearchState};
use crate::station::{Station, StationV};

verus! {

/// No two stations share an identifier (an ephemeral one included).
pub open spec fn ids_distinct(g: GraphV) -> bool {
    forall|i: int, j: int|
        0 <= i < j < g.stations.len() ==> g.stations[i].id != g.stations[j].id
}

/// The parent chain from `v` back towards the search's origin: `v` first,
/// then its recorded parent, and so on while fuel and parents last.
pub open spec fn chain_nodes(parent: Seq<Option<usize>>, v: usize, fuel: nat) -> Seq<usize>
    decreases fuel,
{
    match parent[v as int] {
        None => seq![v],
        Some(p) => if fuel == 0 {
            seq![v]
        } else {
            seq![v] + chain_nodes(parent, p, (fuel - 1) as nat)
        },
    }
}

/// The identifiers along the way from the origin to `v`, origin first.
pub open spec fn path_ids(
    g: GraphV,
    parent: Seq<Option<usize>>,
    depth: Seq<usize>,
    v: usize,
) -> Seq<Seq<char>> {
    chain_nodes(parent, v, depth[v as int] as nat).reverse().map_values(
        |w: usize| g.stations[w as int].id,
    )
}

/// One result entry for a reached node `v`: elapsed minutes relative to
/// the start minute, the destination station, and the identifiers walked.
pub open spec fn entry_of(g: GraphV, st: SearchState, t0: u64, v: usize) -> PathV {
    PathV {
        minutes: (st.dist[v as int]->0 - t0) as u64,
        destination: g.stations[v as int],
        path: path_ids(g, st.parent, st.depth, v),
    }
}

/// The result entries for the nodes below `v`, in node order: one entry
/// per reached node other than the start itself.
pub open spec fn output_upto(g: GraphV, st: SearchState, start: int, t0: u64, v: int) -> Seq<PathV>
    decreases v when 0 <= v <= st.dist.len()
{
    if v <= 0 {
        Seq::empty()
    } else {
        output_upto(g, st, start, t0, v - 1) + (if v - 1 != start && st.dist[v - 1] is Some {
            seq![entry_of(g, st, t0, (v - 1) as usize)]
        } else {
            Seq::empty()
        })
    }
}

/// The full result of one search: the model's final state read off node by
/// node.
pub open spec fn output_model(g: GraphV, start: int, t0: u64) -> Seq<PathV> {
    output_upto(
        g,
        search_model(g, start, t0),
        start,
        t0,
        g.stations.len() as int,
    )
}

/// Every entry of the read-off result belongs to some reached node.
proof fn lemma_output_elems(g: GraphV, st: SearchState, start: int, t0: u64, v: int)
    requires
        0 <= v <= st.dist.len(),
    ensures
        forall|i: int|
            0 <= i < output_upto(g, st, start, t0, v).len() ==> exists|w: int|
                0 <= w < v && w != start && st.dist[w] is Some && #[trigger] output_upto(
                    g,
                    st,
                    start,
                    t0,
                    v,
                )[i] == entry_of(g, st, t0, w as usize),
    decreases v,
{
    if v > 0 {
        lemma_output_elems(g, st, start, t0, v - 1);
        let prev = output_upto(g, st, start, t0, v - 1);
        assert forall|i: int| 0 <= i < output_upto(g, st, start, t0, v).len() implies exists|w: int|
            0 <= w < v && w != start && st.dist[w] is Some && #[trigger] output_upto(
                g,
                st,
                start,
                t0,
                v,
            )[i] == entry_of(g, st, t0, w as usize) by {
            if i < prev.len() {
                let w = choose|w: int|
                    0 <= w < v - 1 && w != start && st.dist[w] is Some && prev[i] == entry_of(
                        g,
                        st,
                        t0,
                        w as usize,
                    );
                assert(output_upto(g, st, start, t0, v)[i] == entry_of(g, st, t0, w as usize));
            } else {
                assert(output_upto(g, st, start, t0, v)[i] == entry_of(
                    g,
                    st,
                    t0,
                    (v - 1) as usize,
                ));
            }
        }
    }
}

/// Along a parent chain every node is valid, reached, and scored no later
/// than the chain's head; the chain starts at its head and ends at a node
/// with no parent.
proof fn lemma_chain_props(
    g: GraphV,
    dist: Seq<Option<u64>>,
    parent: Seq<Option<usize>>,
    depth: Seq<usize>,
    v: usize,
    fuel: nat,
)
    requires
        parent.len() == dist.len(),
        depth.len() == dist.len(),
        (v as int) < dist.len(),
        dist[v as int] is Some,
        fuel == depth[v as int],
        forall|w: int|
            0 <= w < parent.len() ==> ((#[trigger] parent[w]) matches Some(p) ==> tree_edge_ok(
                g,
                dist,
                depth,
                w,
                p as int,
            )),
    ensures
        ({
            let c = chain_nodes(parent, v, fuel);
            &&& c.len() >= 1
            &&& c[0] == v
            &&& parent[c.last() as int] is None
            &&& forall|t: int|
                0 <= t < c.len() ==> (#[trigger] c[t]) < dist.len() && dist[c[t] as int] is Some
                    && dist[c[t] as int]->0 <= dist[v as int]->0
        }),
    decreases fuel,
{
    let c = chain_nodes(parent, v, fuel);
    match parent[v as int] {
        None => {},
        Some(p) => {
            assert(tree_edge_ok(g, dist, depth, v as int, p as int));
            assert(depth[v as int] == depth[p as int] + 1);
            assert(fuel > 0);
            lemma_chain_props(g, dist, parent, depth, p, (fuel - 1) as nat);
            let tail = chain_nodes(parent, p, (fuel - 1) as nat);
            assert(c == seq![v] + tail);
            assert(c.last() == tail.last());
            assert forall|t: int|
                0 <= t < c.len() implies (#[trigger] c[t]) < dist.len() && dist[c[t] as int] is Some
                && dist[c[t] as int]->0 <= dist[v as int]->0 by {
                if t > 0 {
                    assert(c[t] == tail[t - 1]);
                    assert(dist[tail[t - 1] as int]->0 <= dist[p as int]->0);
                    assert(dist[p as int]->0 <= dist[v as int]->0);
                }
            }
        },
    }
}

/// Non-negativity: every entry of a query result records a non-negative
/// number of elapsed minutes.  (That no entry is the origin itself — so
/// an origin "reaches itself" in zero minutes trivially — is an ensures
/// clause of the query functions.)
pub proof fn lemma_minutes_nonnegative(g: GraphV, start: int, t0: u64)
    ensures
        forall|i: int|
            0 <= i < output_model(g, start, t0).len() ==> (#[trigger] output_model(
                g,
                start,
                t0,
            )[i]).minutes >= 0,
{
}

/// Determinism of the query surface: the read-off result is a function of
/// the graph, the origin and the start minute alone, so two equal queries
/// against one graph return the same entries in the same order.
pub proof fn lemma_query_deterministic(
    g: GraphV,
    start: int,
    t0: u64,
    r1: Seq<PathV>,
    r2: Seq<PathV>,
)
    requires
        r1 == output_model(g, start, t0),
        r2 == output_model(g, start, t0),
    ensures
        r1 == r2,
{
}

/// The graph with one ephemeral station appended: an empty identifier, the
/// query coordinate, and one walking edge towards each listed neighbour.
pub open spec fn ephemeral_graph(g: GraphV, loc: Location, ns: Seq<WalkingNeighbor>) -> GraphV {
    GraphV {
        stations: g.stations.push(
            StationV { id: Seq::empty(), name: Seq::empty(), location: loc },
        ),
        adjacency: g.adjacency.push(walk_row(Seq::empty(), g.stations.len() as int, ns)),
    }
}

/// The result of a coordinate query: the search run on the ephemeral
/// graph from the ephemeral node.
pub open spec fn loc_query_model(
    g: GraphV,
    loc: Location,
    ns: Seq<WalkingNeighbor>,
    t0: u64,
) -> Seq<PathV> {
    output_model(ephemeral_graph(g, loc, ns), g.stations.len() as int, t0)
}

/// A coordinate origin for a group query: the coordinate itself and the
/// stations the spatial index found within walking radius of it.
pub struct LocationQuery {
    pub location: Location,
    pub neighbors: Vec<WalkingNeighbor>,
}

/// Mathematical view of a coordinate origin.
pub struct LocationQueryV {
    pub location: Location,
    pub neighbors: Seq<WalkingNeighbor>,
}

impl View for LocationQuery {
    type V = LocationQueryV;

    open spec fn view(&self) -> LocationQueryV {
        LocationQueryV { location: self.location, neighbors: self.neighbors@ }
    }
}

impl DeepView for LocationQuery {
    type V = LocationQueryV;

    open spec fn deep_view(&self) -> LocationQueryV {
        self.view()
    }
}

/// The first entry whose destination carries `id`, if any.
pub open spec fn find_by_id(acc: Seq<PathV>, id: Seq<char>) -> Option<int>
    decreases acc.len(),
{
    if acc.len() == 0 {
        None
    } else if acc[0].destination.id == id {
        Some(0int)
    } else {
        match find_by_id(acc.drop_first(), id) {
            Some(i) => Some(i + 1),
            None => None,
        }
    }
}

/// The minutes recorded for `id`, if present.
pub open spec fn lookup_minutes(acc: Seq<PathV>, id: Seq<char>) -> Option<u64> {
    match find_by_id(acc, id) {
        None => None,
        Some(i) => Some(acc[i].minutes),
    }
}

/// Folding one entry into the reduction: a new destination is appended, a
/// known one is replaced only by a strictly longer journey.
pub open spec fn merge_one(acc: Seq<PathV>, p: PathV) -> Seq<PathV> {
    match find_by_id(acc, p.destination.id) {
        None => acc.push(p),
        Some(i) => if acc[i].minutes < p.minutes {
            acc.update(i, p)
        } else {
            acc
        },
    }
}

/// Folding a whole single-origin result into the reduction, first entry
/// first.
pub open spec fn merge_longest(acc: Seq<PathV>, items: Seq<PathV>) -> Seq<PathV>
    decreases items.len(),
{
    if items.len() == 0 {
        acc
    } else {
        merge_longest(merge_one(acc, items[0]), items.drop_first())
    }
}

/// The greatest minutes any entry for `id` carries.
pub open spec fn items_max(items: Seq<PathV>, id: Seq<char>) -> Option<u64>
    decreases items.len(),
{
    if items.len() == 0 {
        None
    } else {
        let rest = items_max(items.drop_first(), id);
        if items[0].destination.id == id {
            match rest {
                None => Some(items[0].minutes),
                Some(m) => Some(
                    if items[0].minutes >= m {
                        items[0].minutes
                    } else {
                        m
                    },
                ),
            }
        } else {
            rest
        }
    }
}

/// The greater of two optional minute counts.
pub open spec fn opt_max(a: Option<u64>, b: Option<u64>) -> Option<u64> {
    match (a, b) {
        (None, _) => b,
        (_, None) => a,
        (Some(x), Some(y)) => Some(
            if x >= y {
                x
            } else {
                y
            },
        ),
    }
}

/// The group result over the query list: one origin is answered as the
/// plain coordinate query; several origins are reduced destination by
/// destination, keeping the worst-case journey.
pub open spec fn group_fold(
    g: GraphV,
    qs: Seq<LocationQueryV>,
    t0: u64,
    acc: Seq<PathV>,
    i: int,
) -> Seq<PathV>
    decreases qs.len() - i when 0 <= i <= qs.len()
{
    if i >= qs.len() {
        acc
    } else {
        group_fold(
            g,
            qs,
            t0,
            merge_longest(acc, loc_query_model(g, qs[i].location, qs[i].neighbors, t0)),
            i + 1,
        )
    }
}

/// The full group model.
pub open spec fn group_model(g: GraphV, qs: Seq<LocationQueryV>, t0: u64) -> Seq<PathV> {
    if qs.len() == 1 {
        loc_query_model(g, qs[0].location, qs[0].neighbors, t0)
    } else {
        group_fold(g, qs, t0, Seq::empty(), 0)
    }
}

/// What `find_by_id` finds: the first entry with that identifier, or a
/// proof that none carries it.
proof fn lemma_find_props(acc: Seq<PathV>, id: Seq<char>)
    ensures
        match find_by_id(acc, id) {
            Some(i) => 0 <= i < acc.len() && acc[i].destination.id == id && forall|j: int|
                0 <= j < i ==> acc[j].destination.id != id,
            None => forall|j: int| 0 <= j < acc.len() ==> acc[j].destination.id != id,
        },
    decreases acc.len(),
{
    if acc.len() > 0 {
        lemma_find_props(acc.drop_first(), id);
        if acc[0].destination.id != id {
            match find_by_id(acc.drop_first(), id) {
                Some(i) => {
                    assert(acc.drop_first()[i] == acc[i + 1]);
                    assert forall|j: int| 0 <= j < i + 1 implies acc[j].destination.id != id by {
                        if j > 0 {
                            assert(acc.drop_first()[j - 1] == acc[j]);
                        }
                    }
                },
                None => {
                    assert forall|j: int| 0 <= j < acc.len() implies acc[j].destination.id
                        != id by {
                        if j > 0 {
                            assert(acc.drop_first()[j - 1] == acc[j]);
                        }
                    }
                },
            }
        }
    }
}

/// Appending an entry moves a missing identifier to the end and leaves
/// found ones where they were.
proof fn lemma_find_push(acc: Seq<PathV>, p: PathV, id: Seq<char>)
    ensures
        find_by_id(acc.push(p), id) == (match find_by_id(acc, id) {
            Some(i) => Some(i),
            None => if p.destination.id == id {
                Some(acc.len() as int)
            } else {
                None
            },
        }),
    decreases acc.len(),
{
    let t = acc.push(p);
    assert(t.len() == acc.len() + 1);
    if acc.len() == 0 {
        assert(t[0] == p);
        assert(t.drop_first() =~= Seq::<PathV>::empty());
        if p.destination.id == id {
            assert(find_by_id(t, id) == Some(0int));
        } else {
            assert(find_by_id(t.drop_first(), id) is None);
            assert(find_by_id(t, id) is None);
        }
    } else {
        assert(t[0] == acc[0]);
        assert(t.drop_first() =~= acc.drop_first().push(p));
        lemma_find_push(acc.drop_first(), p, id);
        if t[0].destination.id == id {
            assert(find_by_id(t, id) == Some(0int));
            assert(find_by_id(acc, id) == Some(0int));
        } else {
            assert(find_by_id(t, id) == (match find_by_id(t.drop_first(), id) {
                Some(i) => Some(i + 1),
                None => None,
            }));
            assert(find_by_id(acc, id) == (match find_by_id(acc.drop_first(), id) {
                Some(i) => Some(i + 1),
                None => None,
            }));
        }
    }
}

/// Replacing an entry by one with the same identifier does not move any
/// identifier's first position.
proof fn lemma_find_update(acc: Seq<PathV>, x: int, p: PathV, id: Seq<char>)
    requires
        0 <= x < acc.len(),
        acc[x].destination.id == p.destination.id,
    ensures
        find_by_id(acc.update(x, p), id) == find_by_id(acc, id),
    decreases acc.len(),
{
    if acc.len() > 0 {
        if x == 0 {
            assert(acc.update(x, p).drop_first() =~= acc.drop_first());
        } else {
            assert(acc.update(x, p).drop_first() =~= acc.drop_first().update(x - 1, p));
            lemma_find_update(acc.drop_first(), x - 1, p, id);
        }
    }
}

/// Folding one entry combines its minutes into its identifier's slot and
/// leaves every other identifier's slot alone.
proof fn lemma_merge_one_lookup(acc: Seq<PathV>, p: PathV, id: Seq<char>)
    ensures
        lookup_minutes(merge_one(acc, p), id) == (if p.destination.id == id {
            opt_max(lookup_minutes(acc, id), Some(p.minutes))
        } else {
            lookup_minutes(acc, id)
        }),
{
    lemma_find_props(acc, p.destination.id);
    lemma_find_props(acc, id);
    match find_by_id(acc, p.destination.id) {
        None => {
            lemma_find_push(acc, p, id);
        },
        Some(x) => {
            if acc[x].minutes < p.minutes {
                lemma_find_update(acc, x, p, id);
                lemma_find_props(acc.update(x, p), id);
                if p.destination.id == id {
                    assert(find_by_id(acc, id) == Some(x)) by {
                        lemma_find_props(acc, id);
                    }
                } else {
                    match find_by_id(acc, id) {
                        Some(i) => {
                            assert(acc[i].destination.id == id);
                            assert(i != x);
                        },
                        None => {},
                    }
                }
            }
        },
    }
}

/// Folding a result combines, identifier by identifier, the reduction so
/// far with the greatest minutes the result carries for it.
proof fn lemma_merge_lookup(acc: Seq<PathV>, items: Seq<PathV>, id: Seq<char>)
    ensures
        lookup_minutes(merge_longest(acc, items), id) == opt_max(
            lookup_minutes(acc, id),
            items_max(items, id),
        ),
    decreases items.len(),
{
    if items.len() > 0 {
        lemma_merge_one_lookup(acc, items[0], id);
        lemma_merge_lookup(merge_one(acc, items[0]), items.drop_first(), id);
    }
}

/// Group reduction over two origins: for every destination, the group
/// result records exactly the greater of the two single-origin elapsed
/// times, or the single value where only one origin reaches it, and no
/// destination that neither origin reaches.
pub proof fn lemma_group_reduction(a: Seq<PathV>, b: Seq<PathV>, id: Seq<char>)
    ensures
        lookup_minutes(merge_longest(merge_longest(Seq::empty(), a), b), id) == opt_max(
            items_max(a, id),
            items_max(b, id),
        ),
{
    lemma_merge_lookup(Seq::empty(), a, id);
    lemma_merge_lookup(merge_longest(Seq::empty(), a), b, id);
}

impl TflGraph {
    /// Reconstructs the node chain from `child` back to the search's
    /// origin by walking the recorded parents.
    fn get_path(parent: &Vec<Option<usize>>, depth: &Vec<usize>, child: usize) -> (r: Vec<usize>)
        requires
            parent@.len() == depth@.len(),
            (child as int) < parent@.len(),
            forall|w: int|
                0 <= w < parent@.len() ==> ((#[trigger] parent@[w]) matches Some(p) ==> (p as int)
                    < parent@.len() && depth@[w] == depth@[p as int] + 1),
        ensures
            r@ == chain_nodes(parent@, child, depth@[child as int] as nat),
    {
        let mut r: Vec<usize> = Vec::new();
        let mut cur = child;
        r.push(cur);
        while parent[cur].is_some()
            invariant
                parent@.len() == depth@.len(),
                (cur as int) < parent@.len(),
                r@.len() >= 1,
                forall|w: int|
                    0 <= w < parent@.len() ==> ((#[trigger] parent@[w]) matches Some(p) ==> (
                    p as int) < parent@.len() && depth@[w] == depth@[p as int] + 1),
                chain_nodes(parent@, child, depth@[child as int] as nat) == r@.drop_last()
                    + chain_nodes(parent@, cur, depth@[cur as int] as nat),
                r@.last() == cur,
            decreases depth@[cur as int],
        {
            let p = match parent[cur] {
                Some(p) => p,
                None => 0,
            };
            proof {
                assert(parent@[cur as int] matches Some(q) && q == p);
                assert(depth@[cur as int] == depth@[p as int] + 1);
                assert(chain_nodes(parent@, cur, depth@[cur as int] as nat) == seq![cur]
                    + chain_nodes(parent@, p, depth@[p as int] as nat));
                assert((r@.push(p)).drop_last() =~= r@);
                assert(r@.drop_last() + (seq![cur] + chain_nodes(
                    parent@,
                    p,
                    depth@[p as int] as nat,
                )) =~= (r@.drop_last() + seq![cur]) + chain_nodes(
                    parent@,
                    p,
                    depth@[p as int] as nat,
                ));
                assert(r@.drop_last() + seq![cur] =~= r@);
            }
            r.push(p);
            cur = p;
        }
        proof {
            assert(chain_nodes(parent@, cur, depth@[cur as int] as nat) == seq![cur]);
            assert(r@.drop_last() + seq![cur] =~= r@);
        }
        r
    }

    /// Runs the search from a node index and reads the result off as one
    /// entry per reached node other than the start: the minutes elapsed
    /// since the start time, the destination station, and the identifiers
    /// along the way, origin first.  The result equals the functional
    /// model's read-off, so equal graphs, start nodes and start times give
    /// equal results; no entry is the start itself; and wherever one
    /// entry's destination appears on another entry's way, the former's
    /// minutes do not exceed the latter's.
    pub fn tt_from_start_idx(&self, start_idx: usize, start_time: u16) -> (r: Vec<Path>)
        requires
            self@.wf(),
            ids_distinct(self@),
            start_idx < self@.stations.len(),
            start_time < MINUTES_PER_DAY as u16,
        ensures
            r.deep_view() == output_model(self@, start_idx as int, start_time as u64),
            forall|i: int|
                0 <= i < r.deep_view().len() ==> (#[trigger] r.deep_view()[i]).destination.id
                    != self@.stations[start_idx as int].id,
            forall|i: int, j: int, t: int|
                #![trigger r.deep_view()[i].path[t], r.deep_view()[j].destination]
                0 <= i < r.deep_view().len() && 0 <= j < r.deep_view().len() && 0 <= t
                    < r.deep_view()[i].path.len() && r.deep_view()[i].path[t]
                    == r.deep_view()[j].destination.id ==> r.deep_view()[j].minutes
                    <= r.deep_view()[i].minutes,
    {
        let ghost g = self@;
        let ghost t0 = start_time as u64;
        let n = self.stations.len();
        let (dist, parent, depth) = self.search_scores(start_idx, start_time);
        let ghost st = search_model(g, start_idx as int, t0);
        let mut r: Vec<Path> = Vec::new();
        let mut v: usize = 0;
        while v < n
            invariant
                self@ == g,
                g.wf(),
                t0 == start_time as u64,
                n == g.stations.len(),
                start_idx < n,
                v <= n,
                dist@ == st.dist,
                parent@ == st.parent,
                depth@ == st.depth,
                dist@.len() == n,
                parent@.len() == n,
                depth@.len() == n,
                forall|w: int|
                    0 <= w < n ==> ((#[trigger] parent@[w]) matches Some(p) ==> tree_edge_ok(
                        g,
                        dist@,
                        depth@,
                        w,
                        p as int,
                    )),
                forall|w: int|
                    0 <= w < n && (#[trigger] dist@[w]) is Some ==> t0 <= dist@[w]->0,
                r.deep_view() == output_upto(g, st, start_idx as int, t0, v as int),
            decreases n - v,
        {
            let ghost before = r.deep_view();
            let take = v != start_idx && dist[v].is_some();
            if take {
                let score = match dist[v] {
                    Some(s) => s,
                    None => 0,
                };
                let chain = Self::get_path(&parent, &depth, v);
                proof {
                    lemma_chain_props(g, dist@, parent@, depth@, v, depth@[v as int] as nat);
                }
                let mut ids: Vec<String> = Vec::new();
                let mut k: usize = chain.len();
                while k > 0
                    invariant
                        self@ == g,
                        n == g.stations.len(),
                        k <= chain@.len(),
                        forall|t: int| 0 <= t < chain@.len() ==> (#[trigger] chain@[t]) < n,
                        ids@.len() == chain@.len() - k,
                        forall|t: int|
                            0 <= t < ids@.len() ==> #[trigger] ids.deep_view()[t] == g.stations[
                                chain@[chain@.len() - 1 - t] as int
                            ].id,
                    decreases k,
                {
                    k = k - 1;
                    let ghost prev_ids = ids.deep_view();
                    ids.push(self.stations[chain[k]].id.clone());
                    proof {
                        assert(g.stations[chain@[k as int] as int] == self.stations[
                            chain@[k as int] as int
                        ].deep_view());
                        assert(ids.deep_view() =~= prev_ids.push(
                            g.stations[chain@[k as int] as int].id,
                        ));
                    }
                }
                let entry = Path {
                    minutes: score - start_time as u64,
                    destination: self.stations[v].duplicate(),
                    path: ids,
                };
                r.push(entry);
                proof {
                    assert(entry@.path =~= path_ids(g, parent@, depth@, v)) by {
                        let c = chain_nodes(parent@, v, depth@[v as int] as nat);
                        assert(chain@ == c);
                        assert(entry@.path.len() == c.len());
                        assert forall|t: int| 0 <= t < c.len() implies entry@.path[t] == c.reverse().map_values(
                            |w: usize| g.stations[w as int].id,
                        )[t] by {
                            assert(c.reverse()[t] == c[c.len() - 1 - t]);
                            assert(entry@.path[t] == g.stations[c[c.len() - 1 - t] as int].id);
                        }
                    }
                    assert(entry@ == entry_of(g, st, t0, v));
                    assert(r.deep_view() =~= before.push(entry_of(g, st, t0, v)));
                    assert(output_upto(g, st, start_idx as int, t0, v as int + 1) == before + seq![
                        entry_of(g, st, t0, v),
                    ]);
                    assert(before.push(entry_of(g, st, t0, v)) =~= before + seq![
                        entry_of(g, st, t0, v),
                    ]);
                }
            } else {
                proof {
                    assert(output_upto(g, st, start_idx as int, t0, v as int + 1) == before
                        + Seq::<PathV>::empty());
                    assert(before + Seq::<PathV>::empty() =~= before);
                }
            }
            v = v + 1;
        }
        proof {
            lemma_output_elems(g, st, start_idx as int, t0, n as int);
            let dv = r.deep_view();
            if ids_distinct(g) {
                assert forall|i: int|
                    0 <= i < dv.len() implies (#[trigger] dv[i]).destination.id != g.stations[
                    start_idx as int
                ].id by {
                    let w = choose|w: int|
                        0 <= w < n && w != start_idx && st.dist[w] is Some && dv[i] == entry_of(
                            g,
                            st,
                            t0,
                            w as usize,
                        );
                    assert(dv[i].destination == g.stations[w]);
                }
                assert forall|i: int, j: int, t: int|
                    #![trigger dv[i].path[t], dv[j].destination]
                    0 <= i < dv.len() && 0 <= j < dv.len() && 0 <= t < dv[i].path.len() && dv[
                        i
                    ].path[t] == dv[j].destination.id implies dv[j].minutes <= dv[i].minutes by {
                    let wi = choose|w: int|
                        0 <= w < n && w != start_idx && st.dist[w] is Some && dv[i] == entry_of(
                            g,
                            st,
                            t0,
                            w as usize,
                        );
                    let wj = choose|w: int|
                        0 <= w < n && w != start_idx && st.dist[w] is Some && dv[j] == entry_of(
                            g,
                            st,
                            t0,
                            w as usize,
                        );
                    lemma_chain_props(
                        g,
                        st.dist,
                        st.parent,
                        st.depth,
                        wi as usize,
                        st.depth[wi] as nat,
                    );
                    let c = chain_nodes(st.parent, wi as usize, st.depth[wi] as nat);
                    assert(dv[i].path == c.reverse().map_values(
                        |w: usize| g.stations[w as int].id,
                    ));
                    let cw = c.reverse()[t];
                    assert(c.reverse()[t] == c[c.len() - 1 - t]);
                    assert((cw as int) < n && st.dist[cw as int] is Some && st.dist[cw as int]->0
                        <= st.dist[wi]->0);
                    assert(dv[i].path[t] == g.stations[cw as int].id);
                    assert(dv[j].destination.id == g.stations[wj].id);
                    assert(g.stations[cw as int].id == g.stations[wj].id);
                    assert(cw as int == wj) by {
                        if (cw as int) != wj {
                            if (cw as int) < wj {
                                assert(g.stations[cw as int].id != g.stations[wj].id);
                            } else {
                                assert(g.stations[wj].id != g.stations[cw as int].id);
                            }
                        }
                    }
                    assert(dv[j].minutes == (st.dist[wj]->0 - t0) as u64);
                    assert(dv[i].minutes == (st.dist[wi]->0 - t0) as u64);
                }
            }
        }
        r
    }

    /// Full results from a stop identifier: `Err(StopNotFound)` exactly
    /// when no station carries the identifier, otherwise the search result
    /// from that station at the given start minute.
    pub fn tt_from_stop_id(&self, start: &String, start_time: u16) -> (r: Result<
        Vec<Path>,
        GraphError,
    >)
        requires
            self@.wf(),
            self@.ids_ok(),
            start_time < MINUTES_PER_DAY as u16,
        ensures
            match r {
                Ok(paths) => id_index(self@.stations, start@) matches Some(idx) && paths.deep_view()
                    == output_model(self@, idx, start_time as u64),
                Err(e) => e is StopNotFound && id_index(self@.stations, start@) is None,
            },
            r matches Ok(paths) ==> forall|i: int|
                0 <= i < paths.deep_view().len() ==> (#[trigger] paths.deep_view()[i]).destination.id
                    != start@,
            r matches Ok(paths) ==> forall|i: int, j: int, t: int|
                #![trigger paths.deep_view()[i].path[t], paths.deep_view()[j].destination]
                0 <= i < paths.deep_view().len() && 0 <= j < paths.deep_view().len() && 0 <= t
                    < paths.deep_view()[i].path.len() && paths.deep_view()[i].path[t]
                    == paths.deep_view()[j].destination.id ==> paths.deep_view()[j].minutes
                    <= paths.deep_view()[i].minutes,
    {
        proof {
            assert(ids_distinct(self@));
        }
        match self.find_station(start) {
            Some(idx) => {
                proof {
                    lemma_id_index(self@.stations, start@);
                }
                let paths = self.tt_from_start_idx(idx, start_time);
                proof {
                    assert(self@.stations[idx as int].id == start@);
                }
                Ok(paths)
            },
            None => Err(GraphError::StopNotFound),
        }
    }

    /// The first reduction entry whose destination carries `id`.
    fn find_entry(acc: &Vec<Path>, id: &String) -> (r: Option<usize>)
        ensures
            match r {
                Some(i) => find_by_id(acc.deep_view(), id@) == Some(i as int),
                None => find_by_id(acc.deep_view(), id@) is None,
            },
    {
        let ghost dv = acc.deep_view();
        let mut i: usize = 0;
        while i < acc.len()
            invariant
                i <= acc.len(),
                dv == acc.deep_view(),
                dv.len() == acc.len(),
                forall|j: int| 0 <= j < i ==> (#[trigger] dv[j]).destination.id != id@,
            decreases acc.len() - i,
        {
            assert(dv[i as int] == acc[i as int].deep_view());
            if acc[i].destination.id.eq(id) {
                proof {
                    lemma_find_props(dv, id@);
                    if find_by_id(dv, id@) is None {
                        assert(false);
                    }
                    let k = find_by_id(dv, id@)->0;
                    assert(dv[k].destination.id == id@);
                    assert(k == i as int);
                }
                return Some(i);
            }
            i = i + 1;
        }
        proof {
            lemma_find_props(dv, id@);
            if find_by_id(dv, id@) is Some {
                let k = find_by_id(dv, id@)->0;
                assert(dv[k].destination.id == id@);
                assert(false);
            }
        }
        None
    }

    /// Answers a query that starts at an arbitrary coordinate: an
    /// ephemeral station is added at the coordinate with a walking edge to
    /// each neighbour the spatial index found, the search runs from it,
    /// and the ephemeral station and its edges are removed again — the
    /// graph ends exactly as it began, whatever the search returned.
    pub fn travel_times_from_loc(
        &mut self,
        start_loc: Location,
        neighbors: &Vec<WalkingNeighbor>,
        start_time: u16,
    ) -> (r: Vec<Path>)
        requires
            old(self)@.wf(),
            old(self)@.ids_ok(),
            old(self)@.stations.len() < MAX_NODES,
            start_time < MINUTES_PER_DAY as u16,
            forall|k: int|
                0 <= k < neighbors.deep_view().len() ==> (#[trigger] neighbors.deep_view()[k]).to
                    < old(self)@.stations.len(),
        ensures
            final(self)@ == old(self)@,
            r.deep_view() == loc_query_model(
                old(self)@,
                start_loc,
                neighbors.deep_view(),
                start_time as u64,
            ),
    {
        let ghost g0 = self@;
        let ghost ns = neighbors.deep_view();
        let ghost stations0 = self.stations@;
        let ghost adjacency0 = self.adjacency@;
        let eph_idx = self.stations.len();
        let eph = Station { id: String::new(), name: String::new(), location: start_loc };
        let ghost eph_g = eph;
        self.stations.push(eph);
        self.adjacency.push(Vec::new());
        proof {
            assert(self@.stations =~= ephemeral_graph(g0, start_loc, ns).stations);
        }
        let m = neighbors.len();
        let mut j: usize = 0;
        proof {
            assert(ns.skip(0) =~= ns);
            assert(self@.adjacency[eph_idx as int] =~= Seq::<EdgeV>::empty());
        }
        while j < m
            invariant
                j <= m,
                ns == neighbors.deep_view(),
                m == ns.len(),
                neighbors@.len() == m,
                eph_idx == g0.stations.len(),
                g0.wf(),
                forall|k: int| 0 <= k < ns.len() ==> (#[trigger] ns[k]).to < eph_idx,
                self@.stations == ephemeral_graph(g0, start_loc, ns).stations,
                self@.adjacency.len() == eph_idx + 1,
                stations0.len() == eph_idx,
                adjacency0.len() == eph_idx,
                self.stations@ == stations0.push(eph_g),
                self.adjacency@.len() == eph_idx + 1,
                forall|v: int| 0 <= v < eph_idx ==> self.adjacency@[v] == adjacency0[v],
                forall|v: int| 0 <= v < eph_idx ==> self@.adjacency[v] == g0.adjacency[v],
                walk_row(self@.adjacency[eph_idx as int], eph_idx as int, ns.skip(j as int))
                    == walk_row(Seq::empty(), eph_idx as int, ns),
                forall|k: int|
                    0 <= k < self@.adjacency[eph_idx as int].len() ==> (#[trigger] self@.adjacency[
                        eph_idx as int
                    ][k]).to < eph_idx && self@.adjacency[eph_idx as int][k].connection.wf(),
            decreases m - j,
        {
            proof {
                assert(ns[j as int] == neighbors[j as int]);
                assert(ns.skip(j as int)[0] == ns[j as int]);
                assert(ns.skip(j as int).drop_first() =~= ns.skip(j as int + 1));
            }
            let ghost row_before = self@.adjacency[eph_idx as int];
            let ghost g_pre = self@;
            let wn = neighbors[j];
            if wn.to != eph_idx {
                let connection = crate::connection::Connection::from_dist(wn.dist_meters);
                let edge = Edge { to: wn.to, connection };
                self.adjacency[eph_idx].push(edge);
                proof {
                    assert(edge@ == EdgeV {
                        to: wn.to as int,
                        connection: crate::graph::walking_connection_v(wn.dist_meters),
                    });
                    assert(self@.stations =~= g_pre.stations);
                    assert(self@.adjacency =~~= g_pre.adjacency.update(
                        eph_idx as int,
                        row_before.push(edge@),
                    ));
                    assert(self@.adjacency[eph_idx as int] == row_before.push(edge@));
                }
            }
            j = j + 1;
        }
        proof {
            assert(ns.skip(m as int) =~= Seq::<WalkingNeighbor>::empty());
            let g2 = ephemeral_graph(g0, start_loc, ns);
            assert(self@.adjacency =~= g2.adjacency);
            assert(self@ == g2);
            assert(g2.wf()) by {
                assert forall|u: int, k: int|
                    0 <= u < g2.adjacency.len() && 0 <= k < g2.adjacency[u].len() implies 0 <= (
                #[trigger] g2.adjacency[u][k]).to < g2.stations.len() && (
                g2.adjacency[u][k]).connection.wf() by {
                    if u < eph_idx {
                        assert(g2.adjacency[u] == g0.adjacency[u]);
                        assert(g0.wf());
                    } else {
                        assert(g2.adjacency[u] == self@.adjacency[eph_idx as int]);
                    }
                }
            }
            assert(ids_distinct(g2)) by {
                assert forall|a: int, b: int|
                    0 <= a < b < g2.stations.len() implies g2.stations[a].id != g2.stations[
                    b
                ].id by {
                    if b < eph_idx {
                        assert(g0.ids_ok());
                        assert(g0.stations[a].id != g0.stations[b].id);
                    } else {
                        assert(g2.stations[b].id == Seq::<char>::empty());
                        assert(g0.stations[a].id.len() > 0);
                    }
                }
            }
        }
        let result = self.tt_from_start_idx(eph_idx, start_time);
        self.adjacency.pop();
        self.stations.pop();
        proof {
            assert(self.stations@ =~= stations0);
            assert(self.adjacency@ =~= adjacency0);
            assert(self@.stations =~= g0.stations);
            assert(self@.adjacency =~~= g0.adjacency);
            assert(self@ == g0);
        }
        result
    }

    /// Answers a group query over several coordinate origins: one origin
    /// is the plain coordinate query; several are run one after another
    /// and reduced destination by destination, keeping the worst-case
    /// (longest) journey to each — the answer to "when has everyone
    /// arrived".  The graph ends exactly as it began.
    pub fn travel_times_from_locs(
        &mut self,
        queries: &Vec<LocationQuery>,
        start_time: u16,
    ) -> (r: Vec<Path>)
        requires
            old(self)@.wf(),
            old(self)@.ids_ok(),
            old(self)@.stations.len() < MAX_NODES,
            start_time < MINUTES_PER_DAY as u16,
            forall|q: int, k: int|
                0 <= q < queries.deep_view().len() && 0 <= k
                    < queries.deep_view()[q].neighbors.len() ==> (
                #[trigger] queries.deep_view()[q].neighbors[k]).to < old(self)@.stations.len(),
        ensures
            final(self)@ == old(self)@,
            r.deep_view() == group_model(old(self)@, queries.deep_view(), start_time as u64),
    {
        let ghost g0 = self@;
        let ghost qs = queries.deep_view();
        let ghost t0 = start_time as u64;
        if queries.len() == 1 {
            proof {
                assert(qs[0] == queries[0].deep_view());
                assert(queries[0].neighbors.deep_view() == qs[0].neighbors);
                assert forall|k: int|
                    0 <= k < queries[0].neighbors.deep_view().len() implies (
                #[trigger] queries[0].neighbors.deep_view()[k]).to < g0.stations.len() by {
                    assert(qs[0].neighbors[k].to < g0.stations.len());
                }
            }
            let r = self.travel_times_from_loc(
                queries[0].location,
                &queries[0].neighbors,
                start_time,
            );
            proof {
                assert(r.deep_view() == loc_query_model(g0, qs[0].location, qs[0].neighbors, t0));
            }
            return r;
        }
        let mut acc: Vec<Path> = Vec::new();
        let mut i: usize = 0;
        proof {
            assert(acc.deep_view() =~= Seq::<PathV>::empty());
        }
        while i < queries.len()
            invariant
                i <= queries.len(),
                qs == queries.deep_view(),
                qs.len() == queries.len(),
                t0 == start_time as u64,
                start_time < MINUTES_PER_DAY as u16,
                self@ == g0,
                g0.wf(),
                g0.ids_ok(),
                g0.stations.len() < MAX_NODES,
                forall|q: int, k: int|
                    0 <= q < qs.len() && 0 <= k < qs[q].neighbors.len() ==> (
                    #[trigger] qs[q].neighbors[k]).to < g0.stations.len(),
                group_fold(g0, qs, t0, acc.deep_view(), i as int) == group_fold(
                    g0,
                    qs,
                    t0,
                    Seq::empty(),
                    0,
                ),
            decreases queries.len() - i,
        {
            let ghost acc0 = acc.deep_view();
            proof {
                assert(qs[i as int] == queries[i as int].deep_view());
                assert(queries[i as int].neighbors.deep_view() == qs[i as int].neighbors);
                assert forall|k: int|
                    0 <= k < queries[i as int].neighbors.deep_view().len() implies (
                #[trigger] queries[i as int].neighbors.deep_view()[k]).to < g0.stations.len() by {
                    assert(qs[i as int].neighbors[k].to < g0.stations.len());
                }
            }
            let mut paths = self.travel_times_from_loc(
                queries[i].location,
                &queries[i].neighbors,
                start_time,
            );
            proof {
                assert(paths.deep_view() == loc_query_model(
                    g0,
                    qs[i as int].location,
                    qs[i as int].neighbors,
                    t0,
                ));
            }
            let ghost items = paths.deep_view();
            proof {
                assert(items.skip(0) =~= items);
            }
            while paths.len() > 0
                invariant
                    items == loc_query_model(
                        g0,
                        qs[i as int].location,
                        qs[i as int].neighbors,
                        t0,
                    ),
                    i < qs.len(),
                    paths.deep_view() =~= items.skip(items.len() - paths@.len()),
                    paths@.len() <= items.len(),
                    merge_longest(acc.deep_view(), paths.deep_view()) == merge_longest(
                        acc0,
                        items,
                    ),
                decreases paths@.len(),
            {
                let ghost acc_pre = acc.deep_view();
                let ghost rest = paths.deep_view();
                let p = paths.remove(0);
                proof {
                    assert(paths.deep_view() =~= rest.drop_first());
                    assert(p.deep_view() == rest[0]);
                    assert(rest.drop_first() =~= items.skip(items.len() - paths@.len()));
                }
                let found = Self::find_entry(&acc, &p.destination.id);
                match found {
                    None => {
                        acc.push(p);
                        proof {
                            assert(acc.deep_view() =~= acc_pre.push(rest[0]));
                            assert(acc.deep_view() == merge_one(acc_pre, rest[0]));
                        }
                    },
                    Some(x) => {
                        proof {
                            lemma_find_props(acc_pre, rest[0].destination.id);
                        }
                        if acc[x].minutes < p.minutes {
                            acc[x] = p;
                            proof {
                                assert(acc.deep_view() =~= acc_pre.update(x as int, rest[0]));
                                assert(acc.deep_view() == merge_one(acc_pre, rest[0]));
                            }
                        } else {
                            proof {
                                assert(acc.deep_view() == merge_one(acc_pre, rest[0]));
                            }
                        }
                    },
                }
            }
            proof {
                assert(paths.deep_view() =~= Seq::<PathV>::empty());
                assert(merge_longest(acc.deep_view(), Seq::<PathV>::empty()) == acc.deep_view());
                assert(acc.deep_view() == merge_longest(acc0, items));
            }
            i = i + 1;
        }
        proof {
            assert(group_fold(g0, qs, t0, acc.deep_view(), qs.len() as int) == acc.deep_view());
            assert(qs.len() != 1);
        }
        acc
    }

    /// Full results from a stop identifier that is known to be in the
    /// graph.
    pub fn time_dependent_dijkstra(&self, start: &String, start_time: u16) -> (r: Vec<Path>)
        requires
            self@.wf(),
            self@.ids_ok(),
            start_time < MINUTES_PER_DAY as u16,
            id_index(self@.stations, start@) is Some,
        ensures
            r.deep_view() == output_model(
                self@,
                id_index(self@.stations, start@)->0,
                start_time as u64,
            ),
    {
        proof {
            assert(ids_distinct(self@));
        }
        let idx = match self.find_station(start) {
            Some(idx) => idx,
            None => {
                proof {
                    assert(false);
                }
                0
            },
        };
        proof {
            lemma_id_index(self@.stations, start@);
        }
        self.tt_from_start_idx(idx, start_time)
    }
}

} // verus!
