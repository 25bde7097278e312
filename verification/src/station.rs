//! Graph nodes: a station's identity, display name and coordinate, and the
//! raw stop record it is built from.

use vstd::prelude::*;
use crate::location::Location;

verus! {

/// A raw stop record: the fields of a stop that the graph reads.
pub struct StopPoint {
    pub id: String,
    pub common_name: String,
    pub location: Location,
}

/// Mathematical view of a stop record.
pub struct StopPointV {
    pub id: Seq<char>,
    pub common_name: Seq<char>,
    pub location: Location,
}

impl View for StopPoint {
    type V = StopPointV;

    open spec fn view(&self) -> StopPointV {
        StopPointV { id: self.id@, common_name: self.common_name@, location: self.location }
    }
}

impl DeepView for StopPoint {
    type V = StopPointV;

    open spec fn deep_view(&self) -> StopPointV {
        self.view()
    }
}

/// A node of the transit graph.
pub struct Station {
    pub id: String,
    pub name: String,
    pub location: Location,
}

/// Mathematical view of a station.
pub struct StationV {
    pub id: Seq<char>,
    pub name: Seq<char>,
    pub location: Location,
}

impl View for Station {
    type V = StationV;

    open spec fn view(&self) -> StationV {
        StationV { id: self.id@, name: self.name@, location: self.location }
    }
}

impl DeepView for Station {
    type V = StationV;

    open spec fn deep_view(&self) -> StationV {
        self.view()
    }
}

/// The station that a stop record denotes.
pub open spec fn station_of(sp: StopPointV) -> StationV {
    StationV { id: sp.id, name: sp.common_name, location: sp.location }
}

impl Station {
    /// The station for a stop record: same identifier, name and coordinate.
    pub fn from_stop_point(sp: &StopPoint) -> (r: Station)
        ensures
            r@ == station_of(sp@),
    {
        Station { id: sp.id.clone(), name: sp.common_name.clone(), location: sp.location }
    }

    /// An exact copy; unlike a derived clone, its contract says so.
    pub fn duplicate(&self) -> (r: Station)
        ensures
            r@ == self@,
    {
        Station { id: self.id.clone(), name: self.name.clone(), location: self.location }
    }
}

} // verus!
