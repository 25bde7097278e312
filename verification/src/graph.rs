//! The transit graph: a station arena with integer-indexed adjacency lists,
//! built from raw connection and stop records and augmented with walking
//! edges between nearby stations.

use vstd::prelude::*;
use crate::connection::{
    connection_of, lemma_connection_of_fifo, lemma_instantaneous_fifo, Connection, ConnectionV,
    DepartureTimeV, DirectConnection, DirectConnectionV, WALKING_SPEED_M_PER_MIN,
};
use crate::errors::GraphError;
use crate::station::{station_of, Station, StationV, StopPoint, StopPointV};

verus! {

/// Hard cap on the number of stations a graph may hold; it keeps every
/// cumulative minute count far below the range of its 64-bit carrier.
pub const MAX_NODES: usize = 0x4000_0000;

/// A directed edge: the index of its destination station and its cost.
pub struct Edge {
    pub to: usize,
    pub connection: Connection,
}

/// Mathematical view of an edge.
pub struct EdgeV {
    pub to: int,
    pub connection: ConnectionV,
}

impl View for Edge {
    type V = EdgeV;

    open spec fn view(&self) -> EdgeV {
        EdgeV { to: self.to as int, connection: self.connection@ }
    }
}

impl DeepView for Edge {
    type V = EdgeV;

    open spec fn deep_view(&self) -> EdgeV {
        self.view()
    }
}

/// A neighbour found by the spatial index: a station index and its
/// great-circle distance from the queried point in metres.
#[derive(Clone, Copy)]
pub struct WalkingNeighbor {
    pub to: usize,
    pub dist_meters: u64,
}

impl DeepView for WalkingNeighbor {
    type V = WalkingNeighbor;

    open spec fn deep_view(&self) -> WalkingNeighbor {
        *self
    }
}

/// Mathematical view of the whole graph.
pub struct GraphV {
    pub stations: Seq<StationV>,
    pub adjacency: Seq<Seq<EdgeV>>,
}

impl GraphV {
    /// Structural soundness: one adjacency row per station, every edge
    /// target a valid index, every connection well formed, and the node
    /// count under the cap.
    pub open spec fn wf(self) -> bool {
        &&& self.adjacency.len() == self.stations.len()
        &&& self.stations.len() <= MAX_NODES
        &&& forall|u: int, k: int|
            0 <= u < self.adjacency.len() && 0 <= k < self.adjacency[u].len() ==> 0 <= (
            #[trigger] self.adjacency[u][k]).to < self.stations.len()
        &&& forall|u: int, k: int|
            0 <= u < self.adjacency.len() && 0 <= k < self.adjacency[u].len() ==> (
            #[trigger] self.adjacency[u][k]).connection.wf()
    }

    /// Identifier discipline: every station has a non-empty identifier and
    /// no two stations share one.
    pub open spec fn ids_ok(self) -> bool {
        &&& forall|i: int| 0 <= i < self.stations.len() ==> (#[trigger] self.stations[i].id).len() > 0
        &&& forall|i: int, j: int|
            0 <= i < j < self.stations.len() ==> self.stations[i].id != self.stations[j].id
    }

    /// The number of edges in the graph.
    pub open spec fn edge_total(self) -> int {
        edge_total_from(self.adjacency, 0)
    }

    /// Every edge's cost is first-in-first-out: reaching its tail earlier
    /// never means arriving at its head later.  Both edge kinds the
    /// builder creates have it, so it holds of every built graph.
    pub open spec fn fifo_ok(self) -> bool {
        forall|u: int, k: int|
            0 <= u < self.adjacency.len() && 0 <= k < self.adjacency[u].len() ==> (
            #[trigger] self.adjacency[u][k]).connection.fifo()
    }
}

/// A walking connection is first-in-first-out.
pub proof fn lemma_walking_connection_fifo(dist_meters: u64)
    ensures
        walking_connection_v(dist_meters).fifo(),
{
    lemma_instantaneous_fifo(walking_connection_v(dist_meters));
}

/// Edges held by the adjacency rows from row `u` on.
pub open spec fn edge_total_from(adjacency: Seq<Seq<EdgeV>>, u: int) -> int
    decreases adjacency.len() - u when 0 <= u <= adjacency.len()
{
    if u >= adjacency.len() {
        0
    } else {
        adjacency[u].len() + edge_total_from(adjacency, u + 1)
    }
}

/// Index of the first station carrying `id`, if any.
pub open spec fn id_index(stations: Seq<StationV>, id: Seq<char>) -> Option<int>
    decreases stations.len(),
{
    if stations.len() == 0 {
        None
    } else if stations[0].id == id {
        Some(0int)
    } else {
        match id_index(stations.drop_first(), id) {
            Some(i) => Some(i + 1),
            None => None,
        }
    }
}

/// What `id_index` finds: the first index with that identifier, or a proof
/// that none carries it.
pub proof fn lemma_id_index(stations: Seq<StationV>, id: Seq<char>)
    ensures
        match id_index(stations, id) {
            Some(i) => 0 <= i < stations.len() && stations[i].id == id && forall|j: int|
                0 <= j < i ==> stations[j].id != id,
            None => forall|j: int| 0 <= j < stations.len() ==> stations[j].id != id,
        },
    decreases stations.len(),
{
    if stations.len() > 0 {
        lemma_id_index(stations.drop_first(), id);
        if stations[0].id != id {
            match id_index(stations.drop_first(), id) {
                Some(i) => {
                    assert(stations.drop_first()[i] == stations[i + 1]);
                    assert forall|j: int| 0 <= j < i + 1 implies stations[j].id != id by {
                        if j > 0 {
                            assert(stations.drop_first()[j - 1] == stations[j]);
                        }
                    }
                },
                None => {
                    assert forall|j: int| 0 <= j < stations.len() implies stations[j].id != id by {
                        if j > 0 {
                            assert(stations.drop_first()[j - 1] == stations[j]);
                        }
                    }
                },
            }
        }
    }
}

/// The stop record that a snapshot associates with `id`: the last record
/// with that identifier wins, mirroring a keyed overwrite.
pub open spec fn stop_lookup(stops: Seq<StopPointV>, id: Seq<char>) -> Option<StopPointV>
    decreases stops.len(),
{
    if stops.len() == 0 {
        None
    } else if stops.last().id == id {
        Some(stops.last())
    } else {
        stop_lookup(stops.drop_last(), id)
    }
}

/// The walking connection for a distance in metres.
pub open spec fn walking_connection_v(dist_meters: u64) -> ConnectionV {
    ConnectionV {
        duration_minutes: if dist_meters / WALKING_SPEED_M_PER_MIN <= u16::MAX as u64 {
            (dist_meters / WALKING_SPEED_M_PER_MIN) as u16
        } else {
            u16::MAX
        },
        departure_times: DepartureTimeV::Instantaneous,
    }
}

/// Resolving a stop record to a node: reuse the first station with its
/// identifier, otherwise append a fresh node with an empty adjacency row.
pub open spec fn ensure_station(g: GraphV, sp: StopPointV) -> (GraphV, int) {
    match id_index(g.stations, sp.id) {
        Some(i) => (g, i),
        None => (
            GraphV {
                stations: g.stations.push(station_of(sp)),
                adjacency: g.adjacency.push(Seq::empty()),
            },
            g.stations.len() as int,
        ),
    }
}

/// Appending one directed edge to a row.
pub open spec fn with_edge(g: GraphV, from: int, e: EdgeV) -> GraphV {
    GraphV { stations: g.stations, adjacency: g.adjacency.update(from, g.adjacency[from].push(e)) }
}

/// One build step: a record whose endpoints both resolve against the stop
/// snapshot (to stops with non-empty identifiers) adds one directed edge,
/// creating the endpoint stations as needed; any other record is skipped.
pub open spec fn build_step(g: GraphV, rec: DirectConnectionV, stops: Seq<StopPointV>) -> GraphV {
    match (stop_lookup(stops, rec.origin), stop_lookup(stops, rec.destination)) {
        (Some(from_sp), Some(to_sp)) => {
            if from_sp.id.len() > 0 && to_sp.id.len() > 0 {
                let (g1, from_idx) = ensure_station(g, from_sp);
                let (g2, to_idx) = ensure_station(g1, to_sp);
                with_edge(g2, from_idx, EdgeV { to: to_idx, connection: connection_of(rec) })
            } else {
                g
            }
        },
        _ => g,
    }
}

/// The graph grown from a sequence of records, first record first.
pub open spec fn build_graph(
    g: GraphV,
    recs: Seq<DirectConnectionV>,
    stops: Seq<StopPointV>,
) -> GraphV
    decreases recs.len(),
{
    if recs.len() == 0 {
        g
    } else {
        build_graph(build_step(g, recs[0], stops), recs.drop_first(), stops)
    }
}

/// One walking row: every neighbour other than the station itself becomes a
/// directed instantaneous edge appended to the row.
pub open spec fn walk_row(row: Seq<EdgeV>, u: int, list: Seq<WalkingNeighbor>) -> Seq<EdgeV>
    decreases list.len(),
{
    if list.len() == 0 {
        row
    } else {
        let row2 = if list[0].to != u {
            row.push(EdgeV { to: list[0].to as int, connection: walking_connection_v(list[0].dist_meters) })
        } else {
            row
        };
        walk_row(row2, u, list.drop_first())
    }
}

/// The graph after walking-edge augmentation: row by row, each station's
/// neighbour list is folded into its adjacency row.
pub open spec fn with_walking(g: GraphV, lists: Seq<Seq<WalkingNeighbor>>) -> GraphV {
    GraphV {
        stations: g.stations,
        adjacency: Seq::new(g.adjacency.len(), |u: int| walk_row(g.adjacency[u], u, lists[u])),
    }
}

/// The in-memory transit graph: stations in an arena, edges in per-station
/// adjacency rows that index back into the arena.
pub struct TflGraph {
    pub(crate) stations: Vec<Station>,
    pub(crate) adjacency: Vec<Vec<Edge>>,
}

impl View for TflGraph {
    type V = GraphV;

    open(crate) spec fn view(&self) -> GraphV {
        GraphV { stations: self.stations.deep_view(), adjacency: self.adjacency.deep_view() }
    }
}

impl TflGraph {
    /// The empty graph.
    pub fn new() -> (r: TflGraph)
        ensures
            r@.stations.len() == 0,
            r@.adjacency.len() == 0,
            r@.wf(),
            r@.ids_ok(),
            r@.fifo_ok(),
    {
        let r = TflGraph { stations: Vec::new(), adjacency: Vec::new() };
        proof {
            assert(r@.stations =~= Seq::<StationV>::empty());
            assert(r@.adjacency =~= Seq::<Seq<EdgeV>>::empty());
        }
        r
    }

    /// The number of stations currently in the graph.
    pub fn station_count(&self) -> (r: usize)
        ensures
            r == self@.stations.len(),
    {
        self.stations.len()
    }

    /// The number of directed edges currently in the graph.
    pub fn edge_count(&self) -> (r: usize)
        requires
            self@.wf(),
            self@.edge_total() <= usize::MAX,
        ensures
            r == self@.edge_total(),
    {
        let mut total: usize = 0;
        let mut u: usize = self.adjacency.len();
        while u > 0
            invariant
                u <= self.adjacency.len(),
                self@.adjacency.len() == self.adjacency.len(),
                total == edge_total_from(self@.adjacency, u as int),
                self@.edge_total() <= usize::MAX,
                self@.wf(),
            decreases u,
        {
            u = u - 1;
            proof {
                lemma_edge_total_prefix(self@.adjacency, u as int);
                lemma_edge_total_mono(self@.adjacency, 0, u as int);
                assert(self@.adjacency[u as int] == self.adjacency[u as int].deep_view());
            }
            total = total + self.adjacency[u].len();
        }
        total
    }

    /// Index of the first station carrying `id`, if any.
    pub(crate) fn find_station(&self, id: &String) -> (r: Option<usize>)
        ensures
            match r {
                Some(i) => id_index(self@.stations, id@) == Some(i as int),
                None => id_index(self@.stations, id@) is None,
            },
    {
        let ghost stations = self@.stations;
        let mut i: usize = 0;
        while i < self.stations.len()
            invariant
                i <= self.stations.len(),
                stations == self@.stations,
                stations.len() == self.stations.len(),
                forall|j: int| 0 <= j < i ==> stations[j].id != id@,
            decreases self.stations.len() - i,
        {
            assert(stations[i as int] == self.stations[i as int].deep_view());
            if self.stations[i].id.eq(id) {
                proof {
                    lemma_id_index(stations, id@);
                    if id_index(stations, id@) is None {
                        assert(false);
                    }
                    let k = id_index(stations, id@)->Some_0;
                    assert(stations[k].id == id@);
                    assert(k == i as int);
                }
                return Some(i);
            }
            i = i + 1;
        }
        proof {
            lemma_id_index(stations, id@);
            if id_index(stations, id@) is Some {
                let k = id_index(stations, id@)->Some_0;
                assert(stations[k].id == id@);
                assert(false);
            }
        }
        None
    }
}

impl TflGraph {
    /// Resolves a stop record to a node index: the first station already
    /// carrying its identifier, or a fresh node appended to the arena.
    fn get_or_insert_node_idx(&mut self, sp: &StopPoint) -> (r: usize)
        requires
            old(self)@.wf(),
            old(self)@.stations.len() < MAX_NODES,
        ensures
            final(self)@ == ensure_station(old(self)@, sp@).0,
            r as int == ensure_station(old(self)@, sp@).1,
            r < final(self)@.stations.len(),
            final(self)@.wf(),
            final(self)@.stations.len() <= old(self)@.stations.len() + 1,
            old(self)@.ids_ok() && sp@.id.len() > 0 ==> final(self)@.ids_ok(),
            old(self)@.fifo_ok() ==> final(self)@.fifo_ok(),
    {
        let ghost g0 = self@;
        match self.find_station(&sp.id) {
            Some(i) => {
                proof {
                    lemma_id_index(g0.stations, sp@.id);
                }
                i
            },
            None => {
                let idx = self.stations.len();
                let st = Station::from_stop_point(sp);
                self.stations.push(st);
                self.adjacency.push(Vec::new());
                proof {
                    assert(self@.stations =~= g0.stations.push(station_of(sp@)));
                    assert(self@.adjacency =~~= g0.adjacency.push(Seq::<EdgeV>::empty()));
                    lemma_id_index(g0.stations, sp@.id);
                    assert forall|u: int, k: int|
                        0 <= u < self@.adjacency.len() && 0 <= k
                            < self@.adjacency[u].len() implies 0 <= (
                    #[trigger] self@.adjacency[u][k]).to < self@.stations.len() && (
                    self@.adjacency[u][k]).connection.wf() by {
                        assert(u < g0.adjacency.len());
                        assert(self@.adjacency[u] == g0.adjacency[u]);
                    }
                    if g0.fifo_ok() {
                        assert forall|u: int, k: int|
                            0 <= u < self@.adjacency.len() && 0 <= k
                                < self@.adjacency[u].len() implies (
                        #[trigger] self@.adjacency[u][k]).connection.fifo() by {
                            assert(u < g0.adjacency.len());
                            assert(self@.adjacency[u] == g0.adjacency[u]);
                        }
                    }
                    if g0.ids_ok() && sp@.id.len() > 0 {
                        assert forall|i: int, j: int|
                            0 <= i < j < self@.stations.len() implies self@.stations[i].id
                            != self@.stations[j].id by {
                            if j < g0.stations.len() {
                                assert(g0.stations[i].id != g0.stations[j].id);
                            } else {
                                assert(self@.stations[j] == station_of(sp@));
                                assert(g0.stations[i].id != sp@.id);
                            }
                        }
                    }
                }
                idx
            },
        }
    }

    /// The last stop record carrying `id`, mirroring a keyed overwrite of
    /// earlier records by later ones.
    fn find_stop(stops: &Vec<StopPoint>, id: &String) -> (r: Option<usize>)
        ensures
            match r {
                Some(j) => j < stops.len() && stop_lookup(stops.deep_view(), id@) == Some(
                    stops.deep_view()[j as int],
                ),
                None => stop_lookup(stops.deep_view(), id@) is None,
            },
    {
        let ghost all = stops.deep_view();
        let mut j: usize = stops.len();
        proof {
            assert(all.take(stops.len() as int) =~= all);
        }
        while j > 0
            invariant
                j <= stops.len(),
                all == stops.deep_view(),
                all.len() == stops.len(),
                stop_lookup(all.take(j as int), id@) == stop_lookup(all, id@),
            decreases j,
        {
            j = j - 1;
            assert(all[j as int] == stops[j as int].deep_view());
            proof {
                assert(all.take(j + 1).last() == all[j as int]);
                assert(all.take(j + 1).drop_last() =~= all.take(j as int));
            }
            if stops[j].id.eq(id) {
                return Some(j);
            }
        }
        proof {
            assert(all.take(0) =~= Seq::<StopPointV>::empty());
        }
        None
    }

    /// Adds every resolvable connection record as a directed edge, creating
    /// station nodes on first use of an identifier; records whose endpoints
    /// are missing from the stop snapshot (or carry an empty identifier)
    /// are skipped and the build goes on.
    pub fn add_stations(&mut self, edges: Vec<DirectConnection>, stop_points: Vec<StopPoint>) -> (r:
        Result<(), GraphError>)
        requires
            old(self)@.wf(),
            old(self)@.ids_ok(),
            forall|k: int| 0 <= k < edges.deep_view().len() ==> (#[trigger] edges.deep_view()[k]).wf(),
            old(self)@.stations.len() + 2 * edges@.len() <= MAX_NODES,
            old(self)@.fifo_ok(),
        ensures
            r is Ok,
            final(self)@ == build_graph(old(self)@, edges.deep_view(), stop_points.deep_view()),
            final(self)@.wf(),
            final(self)@.ids_ok(),
            final(self)@.fifo_ok(),
    {
        let ghost recs = edges.deep_view();
        let ghost stops = stop_points.deep_view();
        let ghost g0 = self@;
        let mut k: usize = 0;
        proof {
            assert(recs.skip(0) =~= recs);
        }
        while k < edges.len()
            invariant
                k <= edges.len(),
                recs == edges.deep_view(),
                stops == stop_points.deep_view(),
                recs.len() == edges.len(),
                forall|t: int| 0 <= t < recs.len() ==> (#[trigger] recs[t]).wf(),
                self@.wf(),
                self@.ids_ok(),
                self@.fifo_ok(),
                self@.stations.len() <= g0.stations.len() + 2 * k,
                g0.stations.len() + 2 * recs.len() <= MAX_NODES,
                build_graph(self@, recs.skip(k as int), stops) == build_graph(g0, recs, stops),
            decreases edges.len() - k,
        {
            let ghost g_before = self@;
            proof {
                assert(recs.skip(k as int)[0] == recs[k as int]);
                assert(recs.skip(k as int).drop_first() =~= recs.skip(k as int + 1));
                assert(recs[k as int] == edges[k as int].deep_view());
            }
            let rec = &edges[k];
            let from_found = Self::find_stop(&stop_points, &rec.origin);
            let to_found = Self::find_stop(&stop_points, &rec.destination);
            match (from_found, to_found) {
                (Some(fj), Some(tj)) => {
                    let has_ids = !stop_points[fj].id.as_str().is_empty()
                        && !stop_points[tj].id.as_str().is_empty();
                    proof {
                        assert(stops[fj as int] == stop_points[fj as int].deep_view());
                        assert(stops[tj as int] == stop_points[tj as int].deep_view());
                    }
                    if has_ids {
                        let fidx = self.get_or_insert_node_idx(&stop_points[fj]);
                        let ghost g1 = self@;
                        let tidx = self.get_or_insert_node_idx(&stop_points[tj]);
                        let ghost g2 = self@;
                        let connection = Connection::from_direct_connection(rec);
                        let edge = Edge { to: tidx, connection };
                        self.adjacency[fidx].push(edge);
                        proof {
                            assert(self@.stations =~= g2.stations);
                            assert(self@.adjacency =~~= g2.adjacency.update(
                                fidx as int,
                                g2.adjacency[fidx as int].push(edge@),
                            ));
                            assert(edge@ == EdgeV { to: tidx as int, connection: connection_of(recs[k as int]) });
                            assert(self@ == build_step(g_before, recs[k as int], stops));
                            lemma_connection_of_fifo(recs[k as int]);
                            assert forall|u: int, t: int|
                                0 <= u < self@.adjacency.len() && 0 <= t
                                    < self@.adjacency[u].len() implies 0 <= (
                            #[trigger] self@.adjacency[u][t]).to < self@.stations.len() && (
                            self@.adjacency[u][t]).connection.wf() && (
                            self@.adjacency[u][t]).connection.fifo() by {
                                if u != fidx as int || t < g2.adjacency[fidx as int].len() {
                                    assert(g2.wf());
                                    assert(g2.fifo_ok());
                                } else {
                                    assert(self@.adjacency[u][t] == edge@);
                                }
                            }
                        }
                    } else {
                        proof {
                            assert(self@ == build_step(g_before, recs[k as int], stops));
                        }
                    }
                },
                _ => {
                    proof {
                        assert(self@ == build_step(g_before, recs[k as int], stops));
                    }
                },
            }
            k = k + 1;
        }
        proof {
            assert(recs.skip(recs.len() as int) =~= Seq::<DirectConnectionV>::empty());
        }
        Ok(())
    }

    /// Folds spatial-index results into the graph: for every station, each
    /// listed neighbour other than the station itself gains one directed
    /// instantaneous walking edge from that station.
    pub fn add_walking_edges(&mut self, neighbor_lists: &Vec<Vec<WalkingNeighbor>>)
        requires
            old(self)@.wf(),
            neighbor_lists.deep_view().len() == old(self)@.stations.len(),
            forall|u: int, k: int|
                0 <= u < neighbor_lists.deep_view().len() && 0 <= k
                    < neighbor_lists.deep_view()[u].len() ==> (
                #[trigger] neighbor_lists.deep_view()[u][k]).to < old(self)@.stations.len(),
        ensures
            final(self)@ == with_walking(old(self)@, neighbor_lists.deep_view()),
            final(self)@.wf(),
            final(self)@.stations == old(self)@.stations,
            old(self)@.ids_ok() ==> final(self)@.ids_ok(),
            old(self)@.fifo_ok() ==> final(self)@.fifo_ok(),
    {
        let ghost lists = neighbor_lists.deep_view();
        let ghost g0 = self@;
        let n = self.stations.len();
        let mut u: usize = 0;
        while u < n
            invariant
                u <= n,
                lists == neighbor_lists.deep_view(),
                lists.len() == n,
                neighbor_lists@.len() == n,
                n == g0.stations.len(),
                forall|v: int, k: int|
                    0 <= v < lists.len() && 0 <= k < lists[v].len() ==> (#[trigger] lists[v][k]).to
                        < n,
                self@.stations == g0.stations,
                self@.adjacency.len() == n,
                g0.wf(),
                self@.wf(),
                g0.fifo_ok() ==> self@.fifo_ok(),
                forall|v: int| u <= v < n ==> self@.adjacency[v] == g0.adjacency[v],
                forall|v: int|
                    0 <= v < u ==> self@.adjacency[v] == walk_row(g0.adjacency[v], v, lists[v]),
            decreases n - u,
        {
            let ghost row0 = self@.adjacency[u as int];
            let m = neighbor_lists[u].len();
            proof {
                assert(lists[u as int] == neighbor_lists[u as int].deep_view());
                assert(lists[u as int].skip(0) =~= lists[u as int]);
            }
            let mut j: usize = 0;
            while j < m
                invariant
                    u < n,
                    j <= m,
                    lists == neighbor_lists.deep_view(),
                    lists.len() == n,
                    neighbor_lists@.len() == n,
                    n == g0.stations.len(),
                    m == lists[u as int].len(),
                    forall|v: int, k: int|
                        0 <= v < lists.len() && 0 <= k < lists[v].len() ==> (
                        #[trigger] lists[v][k]).to < n,
                    self@.stations == g0.stations,
                    self@.adjacency.len() == n,
                    g0.wf(),
                    self@.wf(),
                    g0.fifo_ok() ==> self@.fifo_ok(),
                    forall|v: int| u < v < n ==> self@.adjacency[v] == g0.adjacency[v],
                    forall|v: int|
                        0 <= v < u ==> self@.adjacency[v] == walk_row(g0.adjacency[v], v, lists[v]),
                    walk_row(self@.adjacency[u as int], u as int, lists[u as int].skip(j as int))
                        == walk_row(g0.adjacency[u as int], u as int, lists[u as int]),
                decreases m - j,
            {
                proof {
                    assert(lists[u as int] == neighbor_lists[u as int].deep_view());
                    assert(lists[u as int][j as int] == neighbor_lists[u as int][j as int]);
                    assert(lists[u as int].skip(j as int)[0] == lists[u as int][j as int]);
                    assert(lists[u as int].skip(j as int).drop_first() =~= lists[u as int].skip(
                        j as int + 1,
                    ));
                }
                let ghost g_pre = self@;
                let ghost row_before = self@.adjacency[u as int];
                let wn = neighbor_lists[u][j];
                if wn.to != u {
                    let connection = Connection::from_dist(wn.dist_meters);
                    let edge = Edge { to: wn.to, connection };
                    self.adjacency[u].push(edge);
                    proof {
                        assert(edge@ == EdgeV {
                            to: wn.to as int,
                            connection: walking_connection_v(wn.dist_meters),
                        });
                        assert(self@.stations =~= g0.stations);
                        assert(self@.adjacency =~~= g_pre.adjacency.update(
                            u as int,
                            row_before.push(edge@),
                        ));
                        assert(self@.adjacency[u as int] == row_before.push(edge@));
                        assert forall|v: int| u < v < n implies self@.adjacency[v]
                            == g0.adjacency[v] by {}
                        lemma_walking_connection_fifo(wn.dist_meters);
                        assert forall|va: int, ka: int|
                            0 <= va < self@.adjacency.len() && 0 <= ka
                                < self@.adjacency[va].len() implies 0 <= (
                        #[trigger] self@.adjacency[va][ka]).to < self@.stations.len() && (
                        self@.adjacency[va][ka]).connection.wf() by {
                            if va != u as int || ka < row_before.len() {
                            } else {
                                assert(self@.adjacency[va][ka] == edge@);
                            }
                        }
                        if g0.fifo_ok() {
                            assert forall|va: int, ka: int|
                                0 <= va < self@.adjacency.len() && 0 <= ka
                                    < self@.adjacency[va].len() implies (
                            #[trigger] self@.adjacency[va][ka]).connection.fifo() by {
                                if va != u as int || ka < row_before.len() {
                                    assert(g_pre.fifo_ok());
                                } else {
                                    assert(self@.adjacency[va][ka] == edge@);
                                }
                            }
                        }
                    }
                }
                j = j + 1;
            }
            proof {
                assert(lists[u as int].skip(m as int) =~= Seq::<WalkingNeighbor>::empty());
            }
            u = u + 1;
        }
        proof {
            assert(self@.adjacency =~= with_walking(g0, lists).adjacency);
        }
    }
}

/// Later suffixes of the adjacency rows hold no more edges than earlier
/// ones.
pub proof fn lemma_edge_total_mono(adjacency: Seq<Seq<EdgeV>>, a: int, b: int)
    requires
        0 <= a <= b <= adjacency.len(),
    ensures
        edge_total_from(adjacency, b) <= edge_total_from(adjacency, a),
    decreases b - a,
{
    if a < b {
        lemma_edge_total_prefix(adjacency, a);
        lemma_edge_total_mono(adjacency, a + 1, b);
    }
}

/// Splitting the edge total at a row.
pub proof fn lemma_edge_total_prefix(adjacency: Seq<Seq<EdgeV>>, u: int)
    requires
        0 <= u < adjacency.len(),
    ensures
        edge_total_from(adjacency, u) == adjacency[u].len() + edge_total_from(adjacency, u + 1),
        edge_total_from(adjacency, u) >= 0,
    decreases adjacency.len() - u,
{
    if u + 1 < adjacency.len() {
        lemma_edge_total_prefix(adjacency, u + 1);
    }
}

} // verus!
