//! Joining a route's stops with the live arrival feed into display rows.

use crate::direction::{direction_of_token, token_matches, Direction};
use crate::error::QueryError;
use crate::eta::{eta_cell, format_eta, parse_timestamp, rfc3339_instant};
use crate::sequence::{
    route_stop_row_valid, route_stop_rows_valid, route_stop_views, route_stops, row_route_stops,
    stable_sorted, lemma_stable_sorted_members, RouteStop, RouteStopRow, RouteStopView,
};
use crate::stops::StopDirectory;
use vstd::prelude::*;

verus! {

/// One entry of the arrival feed, as read: any field may be absent.
#[derive(Clone, Debug)]
pub struct ArrivalRow {
    pub seq: Option<i64>,
    pub slot: Option<i64>,
    pub bound: Option<String>,
    pub eta: Option<String>,
}

/// The arrival feed of one route and service type, all directions.
#[derive(Clone, Debug)]
pub struct ArrivalFeed {
    pub generated_at: Option<String>,
    pub rows: Vec<ArrivalRow>,
}

/// One display row of an ETA query: a stop of the route with up to three
/// upcoming arrivals.
#[derive(Clone, Debug)]
pub struct EtaRow {
    pub sequence: i64,
    pub stop_id: String,
    pub stop_name: String,
    pub slot1: String,
    pub slot2: String,
    pub slot3: String,
}

pub open spec fn text_view(o: Option<String>) -> Option<Seq<char>> {
    match o {
        Some(s) => Some(s@),
        None => None,
    }
}

/// Whether an arrival entry is for stop `seq`, arrival slot `slot`, in
/// direction `d`.
pub open spec fn arrival_matches(a: ArrivalRow, d: Direction, seq: i64, slot: i64) -> bool {
    &&& a.seq == Some(seq)
    &&& a.slot == Some(slot)
    &&& a.bound is Some
    &&& token_matches(a.bound.unwrap()@, d)
}

/// The text of one arrival slot of one stop: from the last entry of the feed
/// for it, empty when the feed has none.
pub open spec fn slot_text(
    rows: Seq<ArrivalRow>,
    d: Direction,
    seq: i64,
    slot: i64,
    reference: i64,
) -> Seq<char>
    decreases rows.len(),
{
    if rows.len() == 0 {
        Seq::empty()
    } else if arrival_matches(rows.last(), d, seq, slot) {
        eta_cell(text_view(rows.last().eta), reference)
    } else {
        slot_text(rows.drop_last(), d, seq, slot, reference)
    }
}

/// The display row owed to a stop of the route.
pub open spec fn eta_row_for(
    row: EtaRow,
    stop: RouteStopView,
    names: Map<Seq<char>, Seq<char>>,
    arrivals: Seq<ArrivalRow>,
    d: Direction,
    reference: i64,
) -> bool {
    &&& row.sequence == stop.sequence
    &&& row.stop_id@ == stop.stop_id
    &&& names.contains_key(stop.stop_id)
    &&& row.stop_name@ == names[stop.stop_id]
    &&& row.slot1@ == slot_text(arrivals, d, stop.sequence, 1, reference)
    &&& row.slot2@ == slot_text(arrivals, d, stop.sequence, 2, reference)
    &&& row.slot3@ == slot_text(arrivals, d, stop.sequence, 3, reference)
}

pub open spec fn eta_row_stop(row: EtaRow) -> RouteStopView {
    RouteStopView { sequence: row.sequence, stop_id: row.stop_id@ }
}

/// The text of one arrival slot of one stop.
pub fn slot_cell(rows: &Vec<ArrivalRow>, d: Direction, seq: i64, slot: i64, reference: i64) -> (r:
    String)
    ensures
        r@ == slot_text(rows@, d, seq, slot, reference),
{
    let mut k: usize = rows.len();
    assert(rows@.subrange(0, k as int) =~= rows@);
    while k > 0
        invariant
            k <= rows@.len(),
            slot_text(rows@, d, seq, slot, reference) == slot_text(
                rows@.subrange(0, k as int),
                d,
                seq,
                slot,
                reference,
            ),
        decreases k,
    {
        let a = &rows[k - 1];
        let ghost pre = rows@.subrange(0, k as int);
        assert(pre.drop_last() =~= rows@.subrange(0, k - 1));
        assert(pre.last() == rows@[k - 1]);
        let hit = match (a.seq, a.slot, &a.bound) {
            (Some(s), Some(t), Some(b)) => s == seq && t == slot && match direction_of_token(
                b.as_str(),
            ) {
                Some(x) => x == d,
                None => false,
            },
            _ => false,
        };
        if hit {
            return format_eta(&a.eta, reference);
        }
        k = k - 1;
    }
    String::new()
}

/// Joins the stops of a route with the arrival feed, keeping the stops'
/// order. Only entries in direction `d` count; a slot that no entry fills is
/// empty. Fails on a stop that the stop directory lacks.
pub fn join_arrivals(
    stops: &StopDirectory,
    route: &Vec<RouteStop>,
    arrivals: &Vec<ArrivalRow>,
    d: Direction,
    reference: i64,
) -> (r: Result<Vec<EtaRow>, QueryError>)
    requires
        stops.wf(),
    ensures
        r is Ok <==> forall|i: int|
            0 <= i < route@.len() ==> stops@.contains_key(#[trigger] route@[i].stop_id@),
        r matches Ok(out) ==> {
            &&& out@.len() == route@.len()
            &&& forall|i: int|
                0 <= i < route@.len() ==> eta_row_for(
                    #[trigger] out@[i],
                    route@[i]@,
                    stops@,
                    arrivals@,
                    d,
                    reference,
                )
        },
        r matches Err(e) ==> e matches QueryError::UnknownStop { stop_id } && exists|i: int|
            0 <= i < route@.len() && #[trigger] route@[i].stop_id@ == stop_id@
                && !stops@.contains_key(stop_id@),
{
    let mut out: Vec<EtaRow> = Vec::new();
    let mut i: usize = 0;
    while i < route.len()
        invariant
            stops.wf(),
            i <= route@.len(),
            out@.len() == i,
            forall|j: int| 0 <= j < i ==> stops@.contains_key(#[trigger] route@[j].stop_id@),
            forall|j: int|
                0 <= j < i ==> eta_row_for(#[trigger] out@[j], route@[j]@, stops@, arrivals@, d, reference),
        decreases route@.len() - i,
    {
        let stop = &route[i];
        match stops.lookup(stop.stop_id.as_str()) {
            Ok(name) => {
                let row = EtaRow {
                    sequence: stop.sequence,
                    stop_id: stop.stop_id.clone(),
                    stop_name: name,
                    slot1: slot_cell(arrivals, d, stop.sequence, 1, reference),
                    slot2: slot_cell(arrivals, d, stop.sequence, 2, reference),
                    slot3: slot_cell(arrivals, d, stop.sequence, 3, reference),
                };
                out.push(row);
            },
            Err(e) => {
                return Err(e);
            },
        }
        i = i + 1;
    }
    Ok(out)
}

/// The feed's reference instant, which every countdown is measured from.
pub fn reference_instant(generated_at: &Option<String>) -> (r: Result<i64, QueryError>)
    ensures
        match text_view(*generated_at) {
            Some(s) => match rfc3339_instant(s) {
                Some(t) => r == Ok::<i64, QueryError>(t),
                None => r == Err::<i64, QueryError>(QueryError::InvalidFeedTimestamp),
            },
            None => r == Err::<i64, QueryError>(QueryError::InvalidFeedTimestamp),
        },
{
    match generated_at {
        Some(s) => match parse_timestamp(s.as_str()) {
            Some(t) => Ok(t),
            None => Err(QueryError::InvalidFeedTimestamp),
        },
        None => Err(QueryError::InvalidFeedTimestamp),
    }
}

/// Answers an ETA query once the route variant is known to exist and both
/// feeds are in: the route's stops in order of sequence number, each with
/// its name and its three arrival slots in direction `d`. Fails on a
/// malformed route-stop record, then on an unreadable reference timestamp,
/// then on a stop that the stop directory lacks.
pub fn resolve_eta(
    stops: &StopDirectory,
    route_stop_rows: &Vec<RouteStopRow>,
    feed: &ArrivalFeed,
    d: Direction,
) -> (r: Result<Vec<EtaRow>, QueryError>)
    requires
        stops.wf(),
    ensures
        !route_stop_rows_valid(route_stop_rows@) ==> (r matches Err(e) && (
        e matches QueryError::MalformedRecord { index } && {
            &&& index < route_stop_rows@.len()
            &&& !route_stop_row_valid(route_stop_rows@[index as int])
            &&& forall|j: int| 0 <= j < index ==> route_stop_row_valid(#[trigger] route_stop_rows@[j])
        })),
        route_stop_rows_valid(route_stop_rows@) ==> match text_view(feed.generated_at) {
            Some(s) => match rfc3339_instant(s) {
                Some(t) => {
                    // the route's stops as listed, before ordering
                    let listed = row_route_stops(route_stop_rows@);
                    &&& r is Ok <==> forall|i: int|
                        0 <= i < listed.len() ==> stops@.contains_key(#[trigger] listed[i].stop_id)
                    &&& r matches Ok(out) ==> {
                        &&& stable_sorted(out@.map_values(|row: EtaRow| eta_row_stop(row)), listed)
                        &&& forall|i: int| 0 <= i < out@.len() ==> eta_row_for(
                            #[trigger] out@[i],
                            eta_row_stop(out@[i]),
                            stops@,
                            feed.rows@,
                            d,
                            t,
                        )
                    }
                    &&& r matches Err(e) ==> e matches QueryError::UnknownStop { stop_id } && exists|i: int|
                        0 <= i < listed.len() && #[trigger] listed[i].stop_id == stop_id@
                            && !stops@.contains_key(stop_id@)
                },
                None => r == Err::<Vec<EtaRow>, QueryError>(QueryError::InvalidFeedTimestamp),
            },
            None => r == Err::<Vec<EtaRow>, QueryError>(QueryError::InvalidFeedTimestamp),
        },
{
    let route = match route_stops(route_stop_rows) {
        Ok(route) => route,
        Err(e) => {
            return Err(e);
        },
    };
    let reference = match reference_instant(&feed.generated_at) {
        Ok(t) => t,
        Err(e) => {
            return Err(e);
        },
    };
    let r = join_arrivals(stops, &route, &feed.rows, d, reference);
    proof {
        let sv = route_stop_views(route@);
        let inp = row_route_stops(route_stop_rows@);
        lemma_stable_sorted_members(sv, inp);
        if r is Ok {
            let out = r->Ok_0;
            assert(out@.map_values(|row: EtaRow| eta_row_stop(row)) =~= sv);
            assert forall|i: int| 0 <= i < out@.len() implies eta_row_for(
                #[trigger] out@[i],
                eta_row_stop(out@[i]),
                stops@,
                feed.rows@,
                d,
                reference,
            ) by {
                assert(eta_row_stop(out@[i]) == route@[i]@);
            }
            assert forall|j: int| 0 <= j < inp.len() implies stops@.contains_key(
                #[trigger] inp[j].stop_id,
            ) by {
                assert(sv.contains(inp[j]));
                let i = choose|i: int| 0 <= i < sv.len() && sv[i] == inp[j];
                assert(stops@.contains_key(route@[i].stop_id@));
            }
        } else {
            let e = r->Err_0;
            let i = choose|i: int|
                0 <= i < route@.len() && #[trigger] route@[i].stop_id@ == e->stop_id@
                    && !stops@.contains_key(e->stop_id@);
            assert(inp.contains(sv[i]));
            let j = choose|j: int| 0 <= j < inp.len() && inp[j] == sv[i];
            assert(inp[j].stop_id == e->stop_id@);
        }
    }
    r
}

} // verus!
