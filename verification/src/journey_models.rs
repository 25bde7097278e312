//! The parts of an upstream journey-planner response that carry plain
//! values: fares, taps, disruptions and search criteria.

use vstd::prelude::*;

verus! {

/// The endpoints a journey request resolved to.
pub struct JourneyVector {
    pub journey_vector_type: String,
    pub from: String,
    pub to: String,
    pub via: String,
    pub uri: String,
}

/// The fare of a journey.
pub struct JourneyFare {
    pub fare_type: String,
    pub total_cost: i64,
    pub fares: Vec<FareElement>,
    pub caveats: Vec<Caveat>,
}

/// A caveat attached to a fare.
pub struct Caveat {
    pub caveat_type: String,
    pub text: String,
    pub purple_type: String,
}

/// One element of a fare.
pub struct FareElement {
    pub fare_type: String,
    pub low_zone: i64,
    pub high_zone: i64,
    pub cost: i64,
    pub is_hopper_fare: bool,
    pub peak: i64,
    pub off_peak: i64,
    pub taps: Vec<Tap>,
}

/// A card tap belonging to a fare element.
pub struct Tap {
    pub tap_type: String,
    pub atco_code: String,
    pub tap_details: TapDetails,
}

/// The details of a card tap.
pub struct TapDetails {
    pub tap_details_type: String,
    pub mode_type: String,
    pub validation_type: String,
    pub host_device_type: String,
    pub bus_route_id: String,
    pub national_location_code: i64,
    pub tap_timestamp: String,
}

/// A disruption affecting a leg.
pub struct DisruptionElement {
    pub disruption_type: String,
    pub category: String,
    pub purple_type: String,
    pub category_description: String,
    pub description: String,
    pub summary: String,
    pub additional_info: String,
    pub created: String,
    pub last_update: String,
}

/// Crowding information attached to a path step.
pub struct Crowding {
    pub crowding_type: String,
}

/// A mode or line identifier as the journey planner reports it.
pub struct Mode {
    pub mode_type: String,
    pub id: String,
    pub name: String,
    pub purple_type: String,
    pub route_type: String,
    pub status: String,
    pub uri: Option<String>,
    pub crowding: Option<Crowding>,
}

/// One route option of a leg.
pub struct RouteOption {
    pub route_option_type: String,
    pub name: String,
    pub directions: Vec<String>,
    pub line_identifier: Option<Mode>,
}

/// The validity period of a line status.
pub struct ValidityPeriod {
    pub validity_period_type: String,
    pub from_date: String,
    pub to_date: String,
    pub is_now: bool,
}

/// A service type of a line.
pub struct ServiceType {
    pub service_type_type: String,
    pub name: String,
    pub uri: String,
}

/// The criteria a journey search ran under.
pub struct SearchCriteria {
    pub search_criteria_type: String,
    pub date_time: String,
    pub date_time_type: String,
    pub time_adjustments: TimeAdjustments,
}

/// The neighbouring departure times the planner offers.
pub struct TimeAdjustments {
    pub time_adjustments_type: String,
    pub earliest: Earlier,
    pub earlier: Earlier,
    pub later: Earlier,
    pub latest: Earlier,
}

/// One adjusted departure alternative.
pub struct Earlier {
    pub earlier_type: String,
    pub date: String,
    pub time: String,
    pub time_is: String,
    pub uri: String,
}

} // verus!
