//! Query results: one reachable destination together with the minutes it
//! takes to get there and the identifiers visited on the way.

use vstd::prelude::*;
use crate::station::{Station, StationV};

verus! {

/// One entry of a query result: a reachable destination, the minutes
/// elapsed since the query's start time, and the ordered identifiers of the
/// stations visited from the origin to the destination.
pub struct Path {
    pub minutes: u64,
    pub destination: Station,
    pub path: Vec<String>,
}

/// Mathematical view of a result entry.
pub struct PathV {
    pub minutes: u64,
    pub destination: StationV,
    pub path: Seq<Seq<char>>,
}

impl View for Path {
    type V = PathV;

    open spec fn view(&self) -> PathV {
        PathV {
            minutes: self.minutes,
            destination: self.destination@,
            path: self.path.deep_view(),
        }
    }
}

impl DeepView for Path {
    type V = PathV;

    open spec fn deep_view(&self) -> PathV {
        self.view()
    }
}

} // verus!
