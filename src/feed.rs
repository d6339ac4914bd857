//! Reading the operator's JSON feeds into records. Field presence and field
//! types are only read here; whether a record is complete is decided by the
//! directories and the sequencer that take the records.

use crate::join::{ArrivalFeed, ArrivalRow};
use crate::routes::RouteRow;
use crate::sequence::RouteStopRow;
use crate::stops::StopRow;
use serde_json::Value;
use vstd::prelude::*;

verus! {

#[verifier::external_type_specification]
#[verifier::external_body]
pub struct ExValue(serde_json::Value);

/// Relies on serde_json's `Value::get` with a string key: the member of that
/// name where the value is an object that has one.
#[verifier::external_body]
fn member<'a>(v: &'a Value, key: &str) -> Option<&'a Value> {
    v.get(key)
}

/// Relies on serde_json's `Value::as_array`: the elements where the value is
/// an array.
#[verifier::external_body]
fn elements(v: &Value) -> Option<&Vec<Value>> {
    v.as_array()
}

/// Relies on serde_json's `Value::as_str`: the text where the value is a
/// string.
#[verifier::external_body]
fn text(v: &Value) -> Option<String> {
    v.as_str().map(|s| s.to_owned())
}

/// Relies on serde_json's `Value::as_i64`: the number where the value is an
/// integer that fits in an `i64`.
#[verifier::external_body]
fn integer(v: &Value) -> Option<i64> {
    v.as_i64()
}

/// The text held by member `key`, where it is a string.
fn text_member(v: &Value, key: &str) -> Option<String> {
    match member(v, key) {
        Some(m) => text(m),
        None => None,
    }
}

/// The integer held by member `key`, where it is one.
fn integer_member(v: &Value, key: &str) -> Option<i64> {
    match member(v, key) {
        Some(m) => integer(m),
        None => None,
    }
}

/// The records of a stop listing body: the elements of its `data` array,
/// each with its `stop` and `name_tc` members. A body without that array has
/// no records.
pub fn stop_rows(body: &Value) -> Vec<StopRow> {
    let mut out: Vec<StopRow> = Vec::new();
    if let Some(data) = member(body, "data") {
        if let Some(items) = elements(data) {
            let mut i: usize = 0;
            while i < items.len()
                decreases items@.len() - i,
            {
                let item = &items[i];
                out.push(StopRow { stop_id: text_member(item, "stop"), name: text_member(item, "name_tc") });
                i = i + 1;
            }
        }
    }
    out
}

/// The records of a route listing body: the elements of its `data` array,
/// each with its `route`, `service_type`, `bound`, `orig_tc` and `dest_tc`
/// members. A body without that array has no records.
pub fn route_rows(body: &Value) -> Vec<RouteRow> {
    let mut out: Vec<RouteRow> = Vec::new();
    if let Some(data) = member(body, "data") {
        if let Some(items) = elements(data) {
            let mut i: usize = 0;
            while i < items.len()
                decreases items@.len() - i,
            {
                let item = &items[i];
                out.push(
                    RouteRow {
                        route: text_member(item, "route"),
                        service_type: text_member(item, "service_type"),
                        bound: text_member(item, "bound"),
                        origin: text_member(item, "orig_tc"),
                        destination: text_member(item, "dest_tc"),
                    },
                );
                i = i + 1;
            }
        }
    }
    out
}

/// The records of a route-stop listing body: the elements of its `data`
/// array, each with its `seq` and `stop` members. A body without that array
/// has no records.
pub fn route_stop_rows(body: &Value) -> Vec<RouteStopRow> {
    let mut out: Vec<RouteStopRow> = Vec::new();
    if let Some(data) = member(body, "data") {
        if let Some(items) = elements(data) {
            let mut i: usize = 0;
            while i < items.len()
                decreases items@.len() - i,
            {
                let item = &items[i];
                out.push(RouteStopRow { seq: text_member(item, "seq"), stop_id: text_member(item, "stop") });
                i = i + 1;
            }
        }
    }
    out
}

/// The arrival feed in a route arrival body: its `generated_timestamp`, and
/// the elements of its `data` array, each with its `seq`, `eta_seq`, `dir`
/// and `eta` members. A body without that array has no entries.
pub fn arrival_feed(body: &Value) -> ArrivalFeed {
    let mut rows: Vec<ArrivalRow> = Vec::new();
    if let Some(data) = member(body, "data") {
        if let Some(items) = elements(data) {
            let mut i: usize = 0;
            while i < items.len()
                decreases items@.len() - i,
            {
                let item = &items[i];
                rows.push(
                    ArrivalRow {
                        seq: integer_member(item, "seq"),
                        slot: integer_member(item, "eta_seq"),
                        bound: text_member(item, "dir"),
                        eta: text_member(item, "eta"),
                    },
                );
                i = i + 1;
            }
        }
    }
    ArrivalFeed { generated_at: text_member(body, "generated_timestamp"), rows }
}

} // verus!
