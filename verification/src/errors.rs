//! The errors the engine can signal; none of them is fatal to a caller.

use vstd::prelude::*;

verus! {

/// A recoverable query or build error.
#[derive(Clone, Copy, PartialEq, Eq, Structural, Debug)]
pub enum GraphError {
    /// A query named a stop identifier that is not in the graph.
    StopNotFound,
    /// A coordinate string could not be read as a "lat,lon" pair.
    CoordinateParseError,
    /// A connection record referenced a stop missing from the stop
    /// snapshot; the record is skipped and the build continues.
    DataInconsistency,
}

/// A response that is either the expected payload or the upstream
/// service's structured rejection.
pub enum ServerResponse<T> {
    Success(T),
    BadRequest(TflBadRequest),
}

/// The structured body the upstream service answers a bad request with.
pub struct TflBadRequest {
    pub timestamp_utc: Option<String>,
    pub exception_type: String,
    pub http_status_code: i32,
    pub message: String,
}

impl GraphError {
    /// A short description of the error.
    pub fn message(&self) -> (r: &'static str)
        ensures
            *self is StopNotFound ==> r@ == "stop not found"@,
            *self is CoordinateParseError ==> r@ == "coordinate could not be parsed"@,
            *self is DataInconsistency ==> r@ == "inconsistent connection record"@,
    {
        match self {
            GraphError::StopNotFound => "stop not found",
            GraphError::CoordinateParseError => "coordinate could not be parsed",
            GraphError::DataInconsistency => "inconsistent connection record",
        }
    }
}

} // verus!
