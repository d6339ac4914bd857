//! The directories of one invocation, loaded together before any query is
//! answered.

use crate::error::QueryError;
use crate::routes::{
    route_index, route_row_valid, route_rows_valid, row_variants, RouteDirectory, RouteRow,
};
use crate::stops::{stop_index, stop_row_valid, stop_rows_valid, StopDirectory, StopRow};
use vstd::prelude::*;

verus! {

/// Both directories of one invocation, built once and then only read.
pub struct Directories {
    pub stops: StopDirectory,
    pub routes: RouteDirectory,
}

impl Directories {
    pub open spec fn wf(&self) -> bool {
        self.stops.wf() && self.routes.wf()
    }

    /// Loads both directories. Nothing is answered unless both listings are
    /// whole: a malformed stop record fails the load first, then a malformed
    /// route record.
    pub fn load(stop_rows: &Vec<StopRow>, route_rows: &Vec<RouteRow>) -> (r: Result<
        Directories,
        QueryError,
    >)
        ensures
            r is Ok <==> stop_rows_valid(stop_rows@) && route_rows_valid(route_rows@),
            r matches Ok(d) ==> {
                &&& d.wf()
                &&& d.stops@ == stop_index(stop_rows@)
                &&& d.routes@ == route_index(row_variants(route_rows@))
            },
            !stop_rows_valid(stop_rows@) ==> (r matches Err(e) && (
            e matches QueryError::MalformedRecord { index } && {
                &&& index < stop_rows@.len()
                &&& !stop_row_valid(stop_rows@[index as int])
                &&& forall|j: int| 0 <= j < index ==> stop_row_valid(#[trigger] stop_rows@[j])
            })),
            stop_rows_valid(stop_rows@) && !route_rows_valid(route_rows@) ==> (r matches Err(e) && (
            e matches QueryError::MalformedRecord { index } && {
                &&& index < route_rows@.len()
                &&& !route_row_valid(route_rows@[index as int])
                &&& forall|j: int| 0 <= j < index ==> route_row_valid(#[trigger] route_rows@[j])
            })),
    {
        let stops = match StopDirectory::load(stop_rows) {
            Ok(s) => s,
            Err(e) => {
                return Err(e);
            },
        };
        let routes = match RouteDirectory::load(route_rows) {
            Ok(r) => r,
            Err(e) => {
                return Err(e);
            },
        };
        Ok(Directories { stops, routes })
    }
}

} // verus!
