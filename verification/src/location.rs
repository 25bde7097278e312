//! Geographic coordinates, held as fixed-point microdegrees so that every
//! computation over them is exact integer arithmetic.

use vstd::prelude::*;
use vstd::string::StrSliceExecFns;
use crate::parsing::{
    decimal_micro, find_first, first_index_of, lemma_first_index_of, parse_decimal_micro,
    valid_decimal,
};

verus! {

/// Scale between whole degrees and the stored fixed-point value.
pub const MICRODEG_PER_DEG: i64 = 1000000;

/// A point on Earth's surface: latitude and longitude in microdegrees
/// (millionths of a degree).
#[derive(Clone, Copy, PartialEq, Eq, Structural, Debug)]
pub struct Location {
    pub lat_microdeg: i64,
    pub lon_microdeg: i64,
}

impl DeepView for Location {
    type V = Location;

    open spec fn deep_view(&self) -> Location {
        *self
    }
}

/// A well-formed coordinate string: one comma with a valid signed decimal
/// on each side of it and no second comma.
pub open spec fn valid_loc_string(s: Seq<char>) -> bool {
    match first_index_of(s, ',') {
        None => false,
        Some(c) => {
            &&& valid_decimal(s.take(c))
            &&& valid_decimal(s.skip(c + 1))
            &&& first_index_of(s.skip(c + 1), ',') is None
        },
    }
}

/// The coordinate a well-formed string denotes: latitude before the
/// comma, longitude after it, both in microdegrees.
pub open spec fn loc_of_string(s: Seq<char>) -> Location {
    let c = first_index_of(s, ',')->0;
    Location {
        lat_microdeg: decimal_micro(s.take(c)) as i64,
        lon_microdeg: decimal_micro(s.skip(c + 1)) as i64,
    }
}

impl Location {
    /// Reads a "lat,lon" pair of signed decimals into a coordinate, or
    /// nothing exactly when the string is not such a pair.
    pub fn try_parse_loc(loc_string: &str) -> (r: Option<Location>)
        ensures
            match r {
                Some(loc) => valid_loc_string(loc_string@) && loc == loc_of_string(loc_string@),
                None => !valid_loc_string(loc_string@),
            },
    {
        let n = loc_string.unicode_len();
        let comma = match find_first(loc_string, ',') {
            Some(c) => c,
            None => {
                return None;
            },
        };
        proof {
            lemma_first_index_of(loc_string@, ',');
        }
        let first = loc_string.substring_char(0, comma);
        let second = loc_string.substring_char(comma + 1, n);
        proof {
            assert(first@ =~= loc_string@.take(comma as int));
            assert(second@ =~= loc_string@.skip(comma as int + 1));
        }
        match find_first(second, ',') {
            Some(_) => {
                return None;
            },
            None => {},
        }
        let lat = match parse_decimal_micro(first) {
            Some(v) => v,
            None => {
                return None;
            },
        };
        let lon = match parse_decimal_micro(second) {
            Some(v) => v,
            None => {
                return None;
            },
        };
        Some(Location { lat_microdeg: lat, lon_microdeg: lon })
    }
}

} // verus!
