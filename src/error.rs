//! Failures of loading the directories and of answering a query.

use crate::direction::Direction;
use vstd::prelude::*;

verus! {

#[derive(Clone, Debug, PartialEq, Eq)]
pub enum QueryError {
    /// The record at this position of a listing lacks a required field, or
    /// holds one of the wrong type.
    MalformedRecord { index: usize },
    /// No variant of this route number is known.
    UnknownRoute { route: String },
    /// No variant of this route number runs in this direction with this
    /// service type.
    UnknownRouteVariant { route: String, direction: Direction, service_type: i64 },
    /// A route's stop is missing from the stop directory.
    UnknownStop { stop_id: String },
    /// The arrival feed's reference timestamp is absent or unreadable.
    InvalidFeedTimestamp,
}

} // verus!
