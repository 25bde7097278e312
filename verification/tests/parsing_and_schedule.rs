use travel_time::connection::{Connection, DepartureTime, DirectConnection};
use travel_time::location::Location;
use travel_time::parsing::parse_time_of_day;

fn timetable(departures: &[u16]) -> Connection {
    Connection::from_direct_connection(&DirectConnection {
        origin: "A".to_owned(),
        destination: "B".to_owned(),
        duration_minutes: 5,
        departure_times: departures.to_vec(),
    })
}

#[test]
fn test_parse() {
    assert!(Location::try_parse_loc("51.501105,-0.232320").is_some());
}

#[test]
fn parse_loc_exact_microdegrees() {
    let loc = Location::try_parse_loc("51.501105,-0.232320").unwrap();
    assert_eq!(loc.lat_microdeg, 51_501_105);
    assert_eq!(loc.lon_microdeg, -232_320);
}

#[test]
fn parse_loc_without_fraction() {
    let loc = Location::try_parse_loc("51,-0").unwrap();
    assert_eq!(loc.lat_microdeg, 51_000_000);
    assert_eq!(loc.lon_microdeg, 0);
}

#[test]
fn parse_loc_truncates_beyond_six_places() {
    let loc = Location::try_parse_loc("0.1234567,1.9999999").unwrap();
    assert_eq!(loc.lat_microdeg, 123_456);
    assert_eq!(loc.lon_microdeg, 1_999_999);
}

#[test]
fn parse_loc_rejects_malformed_input() {
    assert!(Location::try_parse_loc("").is_none());
    assert!(Location::try_parse_loc("51.5").is_none());
    assert!(Location::try_parse_loc("51.5,").is_none());
    assert!(Location::try_parse_loc(",0.2").is_none());
    assert!(Location::try_parse_loc("1,2,3").is_none());
    assert!(Location::try_parse_loc("a,b").is_none());
    assert!(Location::try_parse_loc("51.,0.2").is_none());
    assert!(Location::try_parse_loc("-,0.2").is_none());
    assert!(Location::try_parse_loc("1234567890123,0").is_none());
}

#[test]
fn parse_time_accepts_clock_times() {
    assert_eq!(parse_time_of_day("09:55"), Some(595));
    assert_eq!(parse_time_of_day("10:00"), Some(600));
    assert_eq!(parse_time_of_day("0:00"), Some(0));
    assert_eq!(parse_time_of_day("23:59"), Some(1439));
    assert_eq!(parse_time_of_day("9:5"), Some(545));
}

#[test]
fn parse_time_rejects_non_times() {
    assert_eq!(parse_time_of_day("24:00"), None);
    assert_eq!(parse_time_of_day("12:60"), None);
    assert_eq!(parse_time_of_day("12"), None);
    assert_eq!(parse_time_of_day(":30"), None);
    assert_eq!(parse_time_of_day("ab:cd"), None);
    assert_eq!(parse_time_of_day("123:00"), None);
}

#[test]
fn wait_table_counts_down_to_each_departure() {
    // Departures at 08:00, 08:10 and 08:25.
    let c = timetable(&[480, 490, 505]);
    assert_eq!(c.get_minutes_to_departure(483), 7);
    assert_eq!(c.get_minutes_to_departure(490), 0);
    assert_eq!(c.get_minutes_to_departure(492), 13);
}

#[test]
fn wait_table_covers_the_whole_day() {
    let c = timetable(&[480]);
    // Before the first departure the wait counts down from midnight.
    assert_eq!(c.get_minutes_to_departure(0), 480);
    assert_eq!(c.get_minutes_to_departure(479), 1);
    assert_eq!(c.get_minutes_to_departure(480), 0);
    // After the last departure of the day the table holds no wait.
    assert_eq!(c.get_minutes_to_departure(481), 0);
    assert_eq!(c.get_minutes_to_departure(1439), 0);
}

#[test]
fn wait_table_indexes_by_minute_of_day() {
    let c = timetable(&[100]);
    // An absolute minute past midnight wraps into the table.
    assert_eq!(c.get_minutes_to_departure(1440 + 60), 40);
}

#[test]
fn empty_schedule_never_waits() {
    let c = timetable(&[]);
    match &c.departure_times {
        DepartureTime::Timetable(table) => {
            assert_eq!(table.len(), 1440);
            assert!(table.iter().all(|w| *w == 0));
        }
        DepartureTime::Instantaneous => panic!("expected a timetable"),
    }
}
