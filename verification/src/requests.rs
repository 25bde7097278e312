//! Requests towards the upstream transit authority: which lines, stops
//! and timetables to ask for.

use vstd::prelude::*;
use crate::stops_response::TransportMode;

verus! {

/// A request for the routes of every line of the given modes.
pub struct LinesByModeRequest {
    pub modes: Vec<TransportMode>,
}

impl LinesByModeRequest {
    /// A request over the given modes.
    pub fn new(stop_point_modes: Vec<TransportMode>) -> (r: LinesByModeRequest)
        ensures
            r.modes@ == stop_point_modes@,
    {
        LinesByModeRequest { modes: stop_point_modes }
    }
}

/// A paged request for every stop of the given modes.
pub struct StopsByModeRequest {
    pub modes: Vec<TransportMode>,
    pub page: usize,
}

impl StopsByModeRequest {
    /// A request over the given modes, starting at the first page.
    pub fn new(stop_point_modes: Vec<TransportMode>) -> (r: StopsByModeRequest)
        ensures
            r.modes@ == stop_point_modes@,
            r.page == 1,
    {
        StopsByModeRequest { modes: stop_point_modes, page: 1 }
    }
}

/// A request for one line's timetable between two stations.
pub struct TimetableRequest {
    pub line_name: String,
    pub from_station: String,
    pub to_station: String,
}

impl TimetableRequest {
    /// A request for the timetable of `line` from `from` to `to`.
    pub fn new(line: String, from: String, to: String) -> (r: TimetableRequest)
        ensures
            r.line_name@ == line@,
            r.from_station@ == from@,
            r.to_station@ == to@,
    {
        TimetableRequest { line_name: line, from_station: from, to_station: to }
    }
}

} // verus!
