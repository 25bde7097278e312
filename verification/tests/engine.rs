use travel_time::connection::{Connection, DepartureTime, DirectConnection};
use travel_time::errors::GraphError;
use travel_time::graph::{TflGraph, WalkingNeighbor};
use travel_time::location::Location;
use travel_time::path::Path;
use travel_time::queries::LocationQuery;

fn loc(lat: i64, lon: i64) -> Location {
    Location {
        lat_microdeg: lat,
        lon_microdeg: lon,
    }
}

fn stop(id: &str, name: &str, lat: i64, lon: i64) -> travel_time::station::StopPoint {
    travel_time::station::StopPoint {
        id: id.to_owned(),
        common_name: name.to_owned(),
        location: loc(lat, lon),
    }
}

fn record(origin: &str, destination: &str, duration: u16, departures: &[u16]) -> DirectConnection {
    DirectConnection {
        origin: origin.to_owned(),
        destination: destination.to_owned(),
        duration_minutes: duration,
        departure_times: departures.to_vec(),
    }
}

/// A graph with stations A, B, C: A->B timetabled at 10:00 and 10:30 with
/// five minutes of travel, and a walking edge B->C of three minutes added
/// by augmentation.
fn scenario_graph() -> TflGraph {
    let mut graph = TflGraph::new();
    let edges = vec![
        record("A", "B", 5, &[600, 630]),
        record("C", "A", 1, &[0]),
    ];
    let stops = vec![
        stop("A", "Alpha", 51_500_000, -100_000),
        stop("B", "Beta", 51_505_000, -100_000),
        stop("C", "Gamma", 51_507_000, -100_000),
    ];
    graph.add_stations(edges, stops).unwrap();
    // B is index 1, C is index 2; only B gets a walking neighbour.
    let neighbors = vec![
        vec![],
        vec![WalkingNeighbor {
            to: 2,
            dist_meters: 240,
        }],
        vec![],
    ];
    graph.add_walking_edges(&neighbors);
    graph
}

fn minutes_to(paths: &[Path], id: &str) -> Option<u64> {
    paths
        .iter()
        .find(|p| p.destination.id == id)
        .map(|p| p.minutes)
}

#[test]
fn scenario_reaches_b_and_c() {
    let graph = scenario_graph();
    // 09:55 is minute 595 of the day.
    let paths = graph.tt_from_stop_id(&"A".to_owned(), 595).unwrap();
    assert_eq!(minutes_to(&paths, "B"), Some(10));
    assert_eq!(minutes_to(&paths, "C"), Some(13));
}

#[test]
fn scenario_path_lists_run_from_origin() {
    let graph = scenario_graph();
    let paths = graph.tt_from_stop_id(&"A".to_owned(), 595).unwrap();
    let to_c = paths.iter().find(|p| p.destination.id == "C").unwrap();
    assert_eq!(to_c.path, vec!["A".to_owned(), "B".to_owned(), "C".to_owned()]);
    let to_b = paths.iter().find(|p| p.destination.id == "B").unwrap();
    assert_eq!(to_b.path, vec!["A".to_owned(), "B".to_owned()]);
}

#[test]
fn unknown_stop_is_stop_not_found() {
    let graph = scenario_graph();
    let result = graph.tt_from_stop_id(&"Z".to_owned(), 595);
    assert!(matches!(result, Err(GraphError::StopNotFound)));
}

#[test]
fn repeated_queries_are_identical() {
    let graph = scenario_graph();
    let first = graph.tt_from_stop_id(&"A".to_owned(), 595).unwrap();
    let second = graph.tt_from_stop_id(&"A".to_owned(), 595).unwrap();
    assert_eq!(first.len(), second.len());
    for (a, b) in first.iter().zip(second.iter()) {
        assert_eq!(a.minutes, b.minutes);
        assert_eq!(a.destination.id, b.destination.id);
        assert_eq!(a.path, b.path);
    }
}

#[test]
fn start_is_absent_and_times_nonnegative() {
    let graph = scenario_graph();
    let paths = graph.tt_from_stop_id(&"A".to_owned(), 595).unwrap();
    assert!(!paths.is_empty());
    for p in &paths {
        assert_ne!(p.destination.id, "A");
        assert!(p.minutes >= 1);
        assert_eq!(p.path.first().map(String::as_str), Some("A"));
    }
}

#[test]
fn triangle_property_on_recorded_paths() {
    let graph = scenario_graph();
    let paths = graph.tt_from_stop_id(&"A".to_owned(), 595).unwrap();
    for p in &paths {
        for id in &p.path {
            if let Some(m) = minutes_to(&paths, id) {
                assert!(m <= p.minutes);
            }
        }
    }
}

#[test]
fn ephemeral_query_connects_walking_neighbors() {
    let mut graph = scenario_graph();
    // The ephemeral point sees A at 400 m and B at 800 m; C is out of
    // radius and gets no direct edge.
    let neighbors = vec![
        WalkingNeighbor {
            to: 0,
            dist_meters: 400,
        },
        WalkingNeighbor {
            to: 1,
            dist_meters: 800,
        },
    ];
    let paths = graph.travel_times_from_loc(loc(51_503_000, -100_000), &neighbors, 595);
    assert_eq!(minutes_to(&paths, "A"), Some(5));
    assert_eq!(minutes_to(&paths, "B"), Some(10));
    // C is reachable only through B's walking edge.
    assert_eq!(minutes_to(&paths, "C"), Some(13));
}

#[test]
fn ephemeral_query_restores_the_graph() {
    let mut graph = scenario_graph();
    let stations_before = graph.station_count();
    let edges_before = graph.edge_count();
    let neighbors = vec![WalkingNeighbor {
        to: 0,
        dist_meters: 400,
    }];
    let _ = graph.travel_times_from_loc(loc(51_503_000, -100_000), &neighbors, 595);
    assert_eq!(graph.station_count(), stations_before);
    assert_eq!(graph.edge_count(), edges_before);
    // The graph still answers as before.
    let paths = graph.tt_from_stop_id(&"A".to_owned(), 595).unwrap();
    assert_eq!(minutes_to(&paths, "B"), Some(10));
}

#[test]
fn group_query_takes_worst_case_per_destination() {
    let mut graph = scenario_graph();
    let near_a = LocationQuery {
        location: loc(51_500_100, -100_000),
        neighbors: vec![WalkingNeighbor {
            to: 0,
            dist_meters: 80,
        }],
    };
    let near_b = LocationQuery {
        location: loc(51_505_100, -100_000),
        neighbors: vec![WalkingNeighbor {
            to: 1,
            dist_meters: 160,
        }],
    };
    let single_a = graph.travel_times_from_loc(near_a.location, &near_a.neighbors, 595);
    let single_b = graph.travel_times_from_loc(near_b.location, &near_b.neighbors, 595);
    let queries = vec![near_a, near_b];
    let group = graph.travel_times_from_locs(&queries, 595);
    let mut ids: Vec<String> = Vec::new();
    for p in single_a.iter().chain(single_b.iter()) {
        if !ids.contains(&p.destination.id) {
            ids.push(p.destination.id.clone());
        }
    }
    assert!(!ids.is_empty());
    for id in &ids {
        let a = minutes_to(&single_a, id);
        let b = minutes_to(&single_b, id);
        let expected = match (a, b) {
            (Some(x), Some(y)) => Some(x.max(y)),
            (Some(x), None) => Some(x),
            (None, Some(y)) => Some(y),
            (None, None) => None,
        };
        assert_eq!(minutes_to(&group, id), expected);
    }
}

#[test]
fn group_query_restores_the_graph() {
    let mut graph = scenario_graph();
    let stations_before = graph.station_count();
    let edges_before = graph.edge_count();
    let queries = vec![
        LocationQuery {
            location: loc(51_500_100, -100_000),
            neighbors: vec![WalkingNeighbor {
                to: 0,
                dist_meters: 80,
            }],
        },
        LocationQuery {
            location: loc(51_505_100, -100_000),
            neighbors: vec![WalkingNeighbor {
                to: 1,
                dist_meters: 160,
            }],
        },
    ];
    let _ = graph.travel_times_from_locs(&queries, 595);
    assert_eq!(graph.station_count(), stations_before);
    assert_eq!(graph.edge_count(), edges_before);
}

#[test]
fn single_origin_group_query_delegates() {
    let mut graph = scenario_graph();
    let q = LocationQuery {
        location: loc(51_500_100, -100_000),
        neighbors: vec![WalkingNeighbor {
            to: 0,
            dist_meters: 80,
        }],
    };
    let single = graph.travel_times_from_loc(q.location, &q.neighbors, 595);
    let queries = vec![q];
    let group = graph.travel_times_from_locs(&queries, 595);
    assert_eq!(single.len(), group.len());
    for (a, b) in single.iter().zip(group.iter()) {
        assert_eq!(a.minutes, b.minutes);
        assert_eq!(a.destination.id, b.destination.id);
    }
}

#[test]
fn build_skips_records_with_missing_stops() {
    let mut graph = TflGraph::new();
    let edges = vec![
        record("A", "B", 5, &[600]),
        record("A", "MISSING", 5, &[600]),
    ];
    let stops = vec![
        stop("A", "Alpha", 51_500_000, -100_000),
        stop("B", "Beta", 51_505_000, -100_000),
    ];
    graph.add_stations(edges, stops).unwrap();
    assert_eq!(graph.station_count(), 2);
    assert_eq!(graph.edge_count(), 1);
}

#[test]
fn build_reuses_station_on_repeated_identifier() {
    let mut graph = TflGraph::new();
    let edges = vec![
        record("A", "B", 5, &[600]),
        record("B", "A", 7, &[610]),
        record("A", "B", 9, &[620]),
    ];
    let stops = vec![
        stop("A", "Alpha", 51_500_000, -100_000),
        stop("B", "Beta", 51_505_000, -100_000),
    ];
    graph.add_stations(edges, stops).unwrap();
    // Parallel edges stay; stations are not duplicated.
    assert_eq!(graph.station_count(), 2);
    assert_eq!(graph.edge_count(), 3);
}

#[test]
fn build_with_duplicate_stop_records_keeps_last() {
    let mut graph = TflGraph::new();
    let edges = vec![record("A", "B", 5, &[600])];
    let stops = vec![
        stop("A", "Old name", 51_000_000, -100_000),
        stop("B", "Beta", 51_505_000, -100_000),
        stop("A", "New name", 51_500_000, -100_000),
    ];
    graph.add_stations(edges, stops).unwrap();
    let paths = graph.tt_from_stop_id(&"A".to_owned(), 595).unwrap();
    assert_eq!(paths.len(), 1);
    assert_eq!(paths[0].destination.name, "Beta");
}

#[test]
fn search_wraps_past_midnight() {
    let mut graph = TflGraph::new();
    // A -> B departs at 10:00 and takes 900 minutes, arriving at minute
    // 1500 of the journey clock (01:00 the next day); B -> C departs at
    // 01:40 each day, so the wait there is 40 minutes.
    let edges = vec![
        record("A", "B", 900, &[600]),
        record("B", "C", 10, &[100]),
    ];
    let stops = vec![
        stop("A", "Alpha", 51_500_000, -100_000),
        stop("B", "Beta", 51_505_000, -100_000),
        stop("C", "Gamma", 51_507_000, -100_000),
    ];
    graph.add_stations(edges, stops).unwrap();
    let paths = graph.tt_from_stop_id(&"A".to_owned(), 595).unwrap();
    // B: wait 5 + travel 900.
    assert_eq!(minutes_to(&paths, "B"), Some(905));
    // C: arrive B at absolute 1500, 01:00 of the next day; wait until
    // 01:40 is 40 minutes, then 10 of travel.
    assert_eq!(minutes_to(&paths, "C"), Some(955));
}

#[test]
fn connection_from_dist_truncates_and_saturates() {
    let c = Connection::from_dist(240);
    assert_eq!(c.duration_minutes, 3);
    assert!(matches!(c.departure_times, DepartureTime::Instantaneous));
    assert_eq!(Connection::from_dist(79).duration_minutes, 0);
    assert_eq!(Connection::from_dist(100).duration_minutes, 1);
    assert_eq!(Connection::from_dist(u64::MAX).duration_minutes, u16::MAX);
}
