//! Pagination of upstream requests.

use vstd::prelude::*;

verus! {

/// How many pages of a paged endpoint to fetch.
pub enum Pagination {
    All,
    Limit(usize),
}

impl Default for Pagination {
    /// Fetching everything is the default.
    fn default() -> (r: Pagination)
        ensures
            r is All,
    {
        Pagination::All
    }
}

/// An endpoint together with how far to page it.
pub struct Paged<E> {
    pub endpoint: E,
    pub pagination: Pagination,
}

/// Marks an endpoint whose response can be paged.
pub trait Pageable {

}

} // verus!
