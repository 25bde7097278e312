//! Time-dependent transit travel-time engine.
//!
//! The crate models a city transit network as a graph of stations joined by
//! directed connections whose cost depends on the minute of the day: a
//! timetabled connection makes a traveller wait for the next scheduled
//! departure, a walking connection can be taken at any minute.  On top of the
//! graph it offers a single-source time-dependent shortest-path search, an
//! ephemeral-origin variant for queries that start at an arbitrary
//! coordinate, and a worst-case reduction over several origins for group
//! queries.

pub mod connection;
pub mod data_fixer;
pub mod errors;
pub mod graph;
pub mod journey_models;
pub mod line_models;
pub mod location;
pub mod mongo_doc;
pub mod pagination;
pub mod parsing;
pub mod path;
pub mod queries;
pub mod query_parameters;
pub mod requests;
pub mod search;
pub mod service;
pub mod station;
pub mod stops_model;
pub mod stops_response;
pub mod timetable_models;
