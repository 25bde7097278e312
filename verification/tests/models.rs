use travel_time::connection::{Connection, DepartureTime};
use travel_time::data_fixer::DataFixer;
use travel_time::errors::GraphError;
use travel_time::location::Location;
use travel_time::mongo_doc::{MongoDoc, NodePair};
use travel_time::pagination::Pagination;
use travel_time::query_parameters::{ExtraQueryParams, QueryParameters};
use travel_time::requests::{LinesByModeRequest, StopsByModeRequest, TimetableRequest};
use travel_time::service::{index, wake_up};
use travel_time::station::Station;
use travel_time::stops_response::TransportMode;

#[test]
fn query_parameters_collect_in_order() {
    let mut params = QueryParameters::new();
    params.push("mode".to_owned(), "bus".to_owned());
    params.push("national".to_owned(), true);
    params.push_opt("via".to_owned(), Some("stop".to_owned()));
    params.push_opt::<String>("absent".to_owned(), None);
    assert_eq!(
        params.params,
        vec![
            ("mode".to_owned(), "bus".to_owned()),
            ("national".to_owned(), "true".to_owned()),
            ("via".to_owned(), "stop".to_owned()),
        ]
    );
}

#[test]
fn extra_query_params_skip_missing_values() {
    let mut params = ExtraQueryParams::new();
    params.push_opt("flag".to_owned(), Some(false));
    params.push_opt::<bool>("absent".to_owned(), None);
    assert_eq!(params.params, vec![("flag".to_owned(), "false".to_owned())]);
}

#[test]
fn line_request_test_request() {
    let request = LinesByModeRequest::new(vec![TransportMode::Dlr, TransportMode::CableCar]);
    assert_eq!(request.modes.len(), 2);
}

#[test]
fn stops_request_test_request() {
    let request = StopsByModeRequest::new(vec![TransportMode::Dlr, TransportMode::CableCar]);
    assert_eq!(request.page, 1);
    assert_eq!(request.modes.len(), 2);
}

#[test]
fn timetable_request_keeps_its_parts() {
    let request = TimetableRequest::new(
        "district".to_owned(),
        "940GZZLUHSD".to_owned(),
        "940GZZLUBKG".to_owned(),
    );
    assert_eq!(request.line_name, "district");
    assert_eq!(request.from_station, "940GZZLUHSD");
    assert_eq!(request.to_station, "940GZZLUBKG");
}

#[test]
fn id_to_tiploc_keeps_letters_only() {
    assert_eq!(DataFixer::id_to_tiploc("910GSTJMSST"), "GSTJMSST");
    assert_eq!(DataFixer::id_to_tiploc("12345"), "");
    assert_eq!(DataFixer::id_to_tiploc("A1b2C3"), "AbC");
}

#[test]
fn error_messages_name_each_kind() {
    assert_eq!(GraphError::StopNotFound.message(), "stop not found");
    assert_eq!(
        GraphError::CoordinateParseError.message(),
        "coordinate could not be parsed"
    );
    assert_eq!(
        GraphError::DataInconsistency.message(),
        "inconsistent connection record"
    );
}

#[test]
fn service_bodies_are_fixed() {
    assert_eq!(wake_up(), "awake");
    assert_eq!(index(), "Hello, world!");
}

#[test]
fn pagination_defaults_to_all() {
    assert!(matches!(Pagination::default(), Pagination::All));
}

#[test]
fn node_pair_key_concatenates_endpoints() {
    let station = |id: &str| Station {
        id: id.to_owned(),
        name: id.to_owned(),
        location: Location {
            lat_microdeg: 0,
            lon_microdeg: 0,
        },
    };
    let pair = NodePair {
        from: station("940GA"),
        to: station("940GB"),
        edge: Connection {
            duration_minutes: 4,
            departure_times: DepartureTime::Instantaneous,
        },
    };
    assert_eq!(pair.id(), "940GA940GB");
    assert_eq!(NodePair::database_name(), "graph");
    assert_eq!(NodePair::collection_name(), "nodePair");
}

#[test]
fn station_duplicate_is_field_for_field() {
    let s = Station {
        id: "940G".to_owned(),
        name: "Somewhere".to_owned(),
        location: Location {
            lat_microdeg: 51_500_000,
            lon_microdeg: -100_000,
        },
    };
    let d = s.duplicate();
    assert_eq!(d.id, s.id);
    assert_eq!(d.name, s.name);
    assert_eq!(d.location, s.location);
}
