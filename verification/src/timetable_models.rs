//! Schedules and departures as the upstream timetable documents report
//! them.

use vstd::prelude::*;

verus! {

/// One named schedule of a timetable.
pub struct Schedule {
    pub name: String,
    pub known_journeys: Vec<Departure>,
    pub first_journey: Departure,
    pub last_journey: Departure,
}

/// One departure of a schedule, hour and minute as printed.
pub struct Departure {
    pub hour: String,
    pub minute: String,
    pub interval_id: i64,
}

} // verus!
