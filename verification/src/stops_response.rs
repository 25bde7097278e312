//! Transport modes and stop categories as the upstream stop listing
//! reports them.

use vstd::prelude::*;

verus! {

/// A mode of transport a stop or line serves.
#[derive(Clone, Copy, PartialEq, Eq, Structural, Debug)]
pub enum TransportMode {
    Bus,
    CableCar,
    Coach,
    Cycle,
    CycleHire,
    Dlr,
    InterchangeKeepSitting,
    InterchangeSecure,
    NationalRail,
    Overground,
    ReplacementBus,
    RiverBus,
    RiverTour,
    Taxi,
    Tflrail,
    Tram,
    Tube,
    Walking,
    InternationalRail,
    Plane,
    ElizabethLine,
}

/// The physical kind of a stop point.
#[derive(Clone, Copy, PartialEq, Eq, Structural, Debug)]
pub enum StopType {
    CarPickupSetDownArea,
    NaptanAirAccessArea,
    NaptanAirEntrance,
    NaptanAirportBuilding,
    NaptanBusCoachStation,
    NaptanBusWayPoint,
    NaptanCoachAccessArea,
    NaptanCoachBay,
    NaptanCoachEntrance,
    NaptanCoachServiceCoverage,
    NaptanCoachVariableBay,
    NaptanFerryAccessArea,
    NaptanFerryBerth,
    NaptanFerryEntrance,
    NaptanFerryPort,
    NaptanFlexibleZone,
    NaptanHailAndRideSection,
    NaptanLiftCableCarAccessArea,
    NaptanLiftCableCarEntrance,
    NaptanLiftCableCarStop,
    NaptanLiftCableCarStopArea,
    NaptanMarkedPoint,
    NaptanMetroAccessArea,
    NaptanMetroEntrance,
    NaptanMetroPlatform,
    NaptanMetroStation,
    NaptanOnstreetBusCoachStopCluster,
    NaptanOnstreetBusCoachStopPair,
    NaptanPrivateBusCoachTram,
    NaptanPublicBusCoachTram,
    NaptanRailAccessArea,
    NaptanRailEntrance,
    NaptanRailPlatform,
    NaptanRailStation,
    NaptanSharedTaxi,
    NaptanTaxiRank,
    NaptanUnmarkedPoint,
    TransportInterchange,
}

} // verus!
