//! The shape a value must have to live in the document store, and the
//! stored form of one graph edge.

use vstd::prelude::*;
use vstd::string::StringExecFns;
use crate::connection::Connection;
use crate::station::Station;

verus! {

/// A value the document store can hold: where it lives and under which
/// key.
pub trait MongoDoc {
    /// The database the collection lives in.
    fn database_name() -> (r: &'static str);

    /// The collection the value lives in.
    fn collection_name() -> (r: &'static str);

    /// The value's key.
    fn id(&self) -> (r: String);

    /// Writes the key into the value where the store needs it inline.
    fn set_id(&mut self) {
    }
}

/// One stored edge: both endpoint stations and the connection between
/// them.
pub struct NodePair {
    pub from: Station,
    pub to: Station,
    pub edge: Connection,
}

impl MongoDoc for NodePair {
    fn database_name() -> (r: &'static str) {
        "graph"
    }

    fn collection_name() -> (r: &'static str) {
        "nodePair"
    }

    fn id(&self) -> (r: String) {
        let mut key = self.from.id.clone();
        key.append(self.to.id.as_str());
        key
    }
}

} // verus!
