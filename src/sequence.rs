//! The stops of one route variant, in ascending order of sequence number.

use crate::error::QueryError;
use crate::routes::lemma_filter_push;
use crate::text::{i64_of_text, parse_i64};
use vstd::prelude::*;

verus! {

/// One record of a route-stop listing, as read: either field may be absent.
#[derive(Clone, Debug)]
pub struct RouteStopRow {
    pub seq: Option<String>,
    pub stop_id: Option<String>,
}

/// A stop of a route variant with its sequence number along the route.
#[derive(Clone, Debug)]
pub struct RouteStop {
    pub sequence: i64,
    pub stop_id: String,
}

/// A route's stop as the contracts see it.
pub struct RouteStopView {
    pub sequence: i64,
    pub stop_id: Seq<char>,
}

impl View for RouteStop {
    type V = RouteStopView;

    open spec fn view(&self) -> RouteStopView {
        RouteStopView { sequence: self.sequence, stop_id: self.stop_id@ }
    }
}

pub open spec fn route_stop_views(s: Seq<RouteStop>) -> Seq<RouteStopView> {
    s.map_values(|e: RouteStop| e@)
}

pub open spec fn route_stop_row_valid(row: RouteStopRow) -> bool {
    &&& row.seq is Some
    &&& i64_of_text(row.seq.unwrap()@) is Some
    &&& row.stop_id is Some
}

pub open spec fn route_stop_rows_valid(rows: Seq<RouteStopRow>) -> bool {
    forall|i: int| 0 <= i < rows.len() ==> route_stop_row_valid(#[trigger] rows[i])
}

pub open spec fn row_route_stop(row: RouteStopRow) -> RouteStopView {
    RouteStopView {
        sequence: i64_of_text(row.seq.unwrap()@).unwrap(),
        stop_id: row.stop_id.unwrap()@,
    }
}

pub open spec fn row_route_stops(rows: Seq<RouteStopRow>) -> Seq<RouteStopView> {
    rows.map_values(|r: RouteStopRow| row_route_stop(r))
}

pub open spec fn at_sequence(k: i64) -> spec_fn(RouteStopView) -> bool {
    |e: RouteStopView| e.sequence == k
}

pub open spec fn ascending(s: Seq<RouteStopView>) -> bool {
    forall|i: int, j: int| 0 <= i < j < s.len() ==> (#[trigger] s[i]).sequence <= (#[trigger] s[j]).sequence
}

/// `out` is `input` sorted by sequence number, entries that share a sequence
/// number keeping their order in `input`.
pub open spec fn stable_sorted(out: Seq<RouteStopView>, input: Seq<RouteStopView>) -> bool {
    &&& ascending(out)
    &&& forall|k: i64| #[trigger] out.filter(at_sequence(k)) == input.filter(at_sequence(k))
}

proof fn lemma_filter_none<A>(s: Seq<A>, pred: spec_fn(A) -> bool)
    requires
        forall|i: int| 0 <= i < s.len() ==> !pred(#[trigger] s[i]),
    ensures
        s.filter(pred) == Seq::<A>::empty(),
{
    if s.filter(pred).len() > 0 {
        s.lemma_filter_pred(pred, 0);
        s.lemma_filter_contains_rev(pred, s.filter(pred)[0]);
    }
    assert(s.filter(pred) =~= Seq::<A>::empty());
}

/// Inserting `x` after every entry whose sequence number is not greater
/// than its own adds it at the end of its own sequence number's entries.
proof fn lemma_insert_filter(out: Seq<RouteStopView>, p: int, x: RouteStopView, k: i64)
    requires
        0 <= p <= out.len(),
        forall|t: int| p <= t < out.len() ==> (#[trigger] out[t]).sequence > x.sequence,
    ensures
        out.insert(p, x).filter(at_sequence(k)) == if x.sequence == k {
            out.filter(at_sequence(k)).push(x)
        } else {
            out.filter(at_sequence(k))
        },
{
    let a = out.subrange(0, p);
    let b = out.subrange(p, out.len() as int);
    let f = at_sequence(k);
    assert(out =~= a + b);
    assert(out.insert(p, x) =~= a.push(x) + b);
    Seq::filter_distributes_over_add(a, b, f);
    Seq::filter_distributes_over_add(a.push(x), b, f);
    lemma_filter_push(a, x, f);
    if x.sequence == k {
        assert forall|i: int| 0 <= i < b.len() implies !f(#[trigger] b[i]) by {
            assert(b[i] == out[p + i]);
        }
        lemma_filter_none(b, f);
        assert(b.filter(f) + Seq::empty() =~= b.filter(f));
        assert(a.filter(f) + Seq::<RouteStopView>::empty() =~= a.filter(f));
        assert(a.filter(f).push(x) + Seq::<RouteStopView>::empty() =~= a.filter(f).push(x));
    }
}

/// A stable sort neither adds nor loses an entry.
pub proof fn lemma_stable_sorted_members(out: Seq<RouteStopView>, input: Seq<RouteStopView>)
    requires
        stable_sorted(out, input),
    ensures
        forall|i: int| 0 <= i < out.len() ==> input.contains(#[trigger] out[i]),
        forall|j: int| 0 <= j < input.len() ==> out.contains(#[trigger] input[j]),
{
    assert forall|i: int| 0 <= i < out.len() implies input.contains(#[trigger] out[i]) by {
        let f = at_sequence(out[i].sequence);
        out.lemma_filter_contains(f, i);
        assert(out.filter(f) == input.filter(f));
        input.lemma_filter_contains_rev(f, out[i]);
    }
    assert forall|j: int| 0 <= j < input.len() implies out.contains(#[trigger] input[j]) by {
        let f = at_sequence(input[j].sequence);
        input.lemma_filter_contains(f, j);
        assert(out.filter(f) == input.filter(f));
        out.lemma_filter_contains_rev(f, input[j]);
    }
}

/// The stops of a route-stop listing in ascending order of sequence number,
/// those sharing a sequence number in the order of the listing. The whole
/// listing is refused at its first record that lacks a field or whose
/// sequence number is not an integer.
pub fn route_stops(rows: &Vec<RouteStopRow>) -> (r: Result<Vec<RouteStop>, QueryError>)
    ensures
        r is Ok <==> route_stop_rows_valid(rows@),
        r matches Ok(s) ==> stable_sorted(route_stop_views(s@), row_route_stops(rows@)),
        r matches Err(e) ==> e matches QueryError::MalformedRecord { index } && {
            &&& index < rows@.len()
            &&& !route_stop_row_valid(rows@[index as int])
            &&& forall|j: int| 0 <= j < index ==> route_stop_row_valid(#[trigger] rows@[j])
        },
{
    let mut out: Vec<RouteStop> = Vec::new();
    let mut i: usize = 0;
    proof {
        reveal(Seq::filter);
        assert(route_stop_views(out@) =~= Seq::<RouteStopView>::empty());
        assert(row_route_stops(rows@.subrange(0, 0)) =~= Seq::<RouteStopView>::empty());
    }
    while i < rows.len()
        invariant
            i <= rows@.len(),
            route_stop_rows_valid(rows@.subrange(0, i as int)),
            stable_sorted(route_stop_views(out@), row_route_stops(rows@.subrange(0, i as int))),
        decreases rows@.len() - i,
    {
        let row = &rows[i];
        proof {
            assert forall|j: int| 0 <= j < i implies route_stop_row_valid(#[trigger] rows@[j]) by {
                assert(rows@.subrange(0, i as int)[j] == rows@[j]);
            }
            assert(rows@.subrange(0, i + 1) =~= rows@.subrange(0, i as int).push(rows@[i as int]));
            assert(row_route_stops(rows@.subrange(0, i + 1)) =~= row_route_stops(
                rows@.subrange(0, i as int),
            ).push(row_route_stop(rows@[i as int])));
        }
        let entry = match (&row.seq, &row.stop_id) {
            (Some(seq), Some(id)) => match parse_i64(seq.as_str()) {
                Some(n) => Some(RouteStop { sequence: n, stop_id: id.clone() }),
                None => None,
            },
            _ => None,
        };
        match entry {
            Some(e) => {
                let ghost x = e@;
                let ghost prev_in = row_route_stops(rows@.subrange(0, i as int));
                let ghost prev = route_stop_views(out@);
                let mut p: usize = out.len();
                while p > 0 && out[p - 1].sequence > e.sequence
                    invariant
                        p <= out@.len(),
                        prev == route_stop_views(out@),
                        x == e@,
                        forall|t: int| p <= t < out@.len() ==> (#[trigger] out@[t]).sequence > x.sequence,
                    decreases p,
                {
                    p = p - 1;
                }
                assert forall|t: int| p <= t < prev.len() implies (#[trigger] prev[t]).sequence
                    > x.sequence by {
                    assert(prev[t] == out@[t]@);
                }
                assert(p > 0 ==> prev[p - 1].sequence <= x.sequence);
                out.insert(p, e);
                proof {
                    assert(route_stop_views(out@) =~= prev.insert(p as int, x));
                    assert forall|k: i64| #[trigger] route_stop_views(out@).filter(at_sequence(k))
                        == prev_in.push(x).filter(at_sequence(k)) by {
                        lemma_insert_filter(prev, p as int, x, k);
                        lemma_filter_push(prev_in, x, at_sequence(k));
                    }
                    let nv = route_stop_views(out@);
                    assert forall|a: int, b: int| 0 <= a < b < nv.len() implies (#[trigger] nv[a]).sequence
                        <= (#[trigger] nv[b]).sequence by {
                        if b < p {
                            assert(prev[a].sequence <= prev[b].sequence);
                        } else if b == p {
                            if p > 0 {
                                assert(prev[a].sequence <= prev[p - 1].sequence || a == p - 1);
                            }
                        } else if a < p {
                            assert(prev[b - 1].sequence > x.sequence);
                            if p > 0 {
                                assert(prev[a].sequence <= prev[p - 1].sequence || a == p - 1);
                            }
                        } else if a == p {
                            assert(prev[b - 1].sequence > x.sequence);
                        } else {
                            assert(prev[a - 1].sequence <= prev[b - 1].sequence);
                        }
                    }
                }
            },
            None => {
                return Err(QueryError::MalformedRecord { index: i });
            },
        }
        i = i + 1;
    }
    assert(rows@.subrange(0, i as int) =~= rows@);
    Ok(out)
}

} // verus!
