//! Route listings as the upstream line documents report them.

use vstd::prelude::*;

verus! {

/// The two directions a route section can run in.
#[derive(Clone, Copy, PartialEq, Eq, Structural, Debug)]
pub enum Direction {
    Outbound,
    Inbound,
}

/// One route section of a line: its endpoints and direction.
pub struct RouteEndpoints {
    pub id: Option<String>,
    pub name: String,
    pub direction: Direction,
    pub origination_name: String,
    pub destination_name: String,
    pub originator: String,
    pub destination: String,
    pub line_ids: Option<Vec<String>>,
}

} // verus!
