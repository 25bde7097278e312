//! Categories, facility keys and grouped line listings as the upstream
//! stop-detail documents report them.

use vstd::prelude::*;

verus! {

/// The category of an additional stop property.
#[derive(Clone, Copy, PartialEq, Eq, Structural, Debug)]
pub enum Category {
    Accessibility,
    Address,
    Facility,
    Geo,
    NearestPlaces,
    OpeningTime,
}

/// The key of an additional stop property.
#[derive(Clone, Copy, PartialEq, Eq, Structural, Debug)]
pub enum Key {
    AccessViaLift,
    Address,
    AddtionalInformation,
    BlueBadgeCarParkSpaces,
    BoardingRamps,
    Bridge,
    CarPark,
    CashMachines,
    Escalators,
    EuroCashMachines,
    Gates,
    HelpPoints,
    Lifts,
    LimitedCapacityLift,
    MonFriFrom,
    MonFriTo,
    OtherFacilities,
    Payphones,
    PhoneNo,
    PhotoBooths,
    SatFrom,
    SatTo,
    SourceSystemPlaceId,
    SpecificEntranceRequired,
    SunFrom,
    SunTo,
    TaxiRankOutsideStation,
    TicketHalls,
    Toilet,
    ToiletNote,
    Toilets,
    WaitingRoom,
    WiFi,
    Zone,
}

/// The source system an additional property came from.
#[derive(Clone, Copy, PartialEq, Eq, Structural, Debug)]
pub enum SourceSystemKey {
    Lrad,
    StaticObjects,
}

/// A transport mode as the stop-detail documents name it.
#[derive(Clone, Copy, PartialEq, Eq, Structural, Debug)]
pub enum Mode {
    Bus,
    CableCar,
    Dlr,
    InternationalRail,
    NationalRail,
    Overground,
    Plane,
    Tflrail,
    Tube,
}

/// The type tag of a line document.
#[derive(Clone, Copy, PartialEq, Eq, Structural, Debug)]
pub enum Type {
    Line,
}

/// The route type of a line document.
#[derive(Clone, Copy, PartialEq, Eq, Structural, Debug)]
pub enum RouteType {
    Unknown,
}

/// The place type of a stop document.
#[derive(Clone, Copy, PartialEq, Eq, Structural, Debug)]
pub enum PlaceType {
    StopPoint,
}

/// The stop types the stop-detail documents use.
#[derive(Clone, Copy, PartialEq, Eq, Structural, Debug)]
pub enum StopType {
    NaptanBusCoachStation,
    NaptanMetroAccessArea,
    NaptanMetroEntrance,
    NaptanMetroPlatform,
    NaptanMetroStation,
    NaptanOnstreetBusCoachStopCluster,
    NaptanOnstreetBusCoachStopPair,
    NaptanPublicBusCoachTram,
    NaptanRailEntrance,
    NaptanRailStation,
    TransportInterchange,
}

/// One additional property of a stop.
pub struct AdditionalProperty {
    pub additional_property_type: String,
    pub category: Category,
    pub key: Key,
    pub source_system_key: SourceSystemKey,
    pub value: String,
}

/// Lines grouped by the stop code they serve.
pub struct LineGroup {
    pub line_group_type: String,
    pub station_atco_code: String,
    pub line_identifier: Vec<String>,
    pub naptan_id_reference: Option<String>,
}

/// Lines grouped by the mode they serve.
pub struct LineModeGroup {
    pub line_mode_group_type: String,
    pub mode_name: Mode,
    pub line_identifier: Vec<String>,
}

/// Crowding information attached to a line or step.
pub struct Crowding {
    pub crowding_type: String,
}

} // verus!
