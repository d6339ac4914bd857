//! The route directory: every variant of every route, grouped by route
//! number and kept in ascending order of route number.

use crate::direction::{token_direction, direction_of_token, Direction};
use crate::error::QueryError;
use crate::keys::{key_views, keys_sorted, lemma_insert_sorted, lemma_sorted_distinct, locate};
use crate::text::{i64_of_text, parse_i64, upper_of, uppercase};
use vstd::prelude::*;

verus! {

/// One record of the bulk route listing, as read: any field may be absent.
#[derive(Clone, Debug)]
pub struct RouteRow {
    pub route: Option<String>,
    pub service_type: Option<String>,
    pub bound: Option<String>,
    pub origin: Option<String>,
    pub destination: Option<String>,
}

/// A route number in one direction with one service type, with the names of
/// its two ends. A direction of `None` stands for a feed token that names no
/// direction.
#[derive(Clone, Debug)]
pub struct RouteVariant {
    pub route_number: String,
    pub service_type: i64,
    pub direction: Option<Direction>,
    pub origin: String,
    pub destination: String,
}

/// A route variant as the contracts see it.
pub struct VariantView {
    pub route_number: Seq<char>,
    pub service_type: i64,
    pub direction: Option<Direction>,
    pub origin: Seq<char>,
    pub destination: Seq<char>,
}

impl View for RouteVariant {
    type V = VariantView;

    open spec fn view(&self) -> VariantView {
        VariantView {
            route_number: self.route_number@,
            service_type: self.service_type,
            direction: self.direction,
            origin: self.origin@,
            destination: self.destination@,
        }
    }
}

impl RouteVariant {
    /// A copy of this variant.
    pub fn duplicate(&self) -> (r: RouteVariant)
        ensures
            r@ == self@,
    {
        RouteVariant {
            route_number: self.route_number.clone(),
            service_type: self.service_type,
            direction: self.direction,
            origin: self.origin.clone(),
            destination: self.destination.clone(),
        }
    }
}

pub open spec fn variant_views(vs: Seq<RouteVariant>) -> Seq<VariantView> {
    vs.map_values(|v: RouteVariant| v@)
}

pub open spec fn route_row_valid(row: RouteRow) -> bool {
    &&& row.route is Some
    &&& row.service_type is Some
    &&& i64_of_text(row.service_type.unwrap()@) is Some
    &&& row.bound is Some
    &&& row.origin is Some
    &&& row.destination is Some
}

pub open spec fn route_rows_valid(rows: Seq<RouteRow>) -> bool {
    forall|i: int| 0 <= i < rows.len() ==> route_row_valid(#[trigger] rows[i])
}

/// The variant that a valid record describes; its route number is kept
/// upper-cased.
pub open spec fn row_variant(row: RouteRow) -> VariantView {
    VariantView {
        route_number: upper_of(row.route.unwrap()@),
        service_type: i64_of_text(row.service_type.unwrap()@).unwrap(),
        direction: token_direction(row.bound.unwrap()@),
        origin: row.origin.unwrap()@,
        destination: row.destination.unwrap()@,
    }
}

pub open spec fn row_variants(rows: Seq<RouteRow>) -> Seq<VariantView> {
    rows.map_values(|r: RouteRow| row_variant(r))
}

pub open spec fn on_route(route: Seq<char>) -> spec_fn(VariantView) -> bool {
    |v: VariantView| v.route_number == route
}

/// The variants of one route number, in the order of the listing.
pub open spec fn variants_of(vs: Seq<VariantView>, route: Seq<char>) -> Seq<VariantView> {
    vs.filter(on_route(route))
}

/// The directory that a sequence of variants describes: each route number
/// that some variant carries, to all of its variants in their order.
pub open spec fn route_index(vs: Seq<VariantView>) -> Map<Seq<char>, Seq<VariantView>> {
    Map::new(|k: Seq<char>| variants_of(vs, k).len() > 0, |k: Seq<char>| variants_of(vs, k))
}

/// Which variants an ETA query for direction `d` and service type `st`
/// accepts.
pub open spec fn selects(d: Direction, st: i64) -> spec_fn(VariantView) -> bool {
    |v: VariantView| v.direction == Some(d) && v.service_type == st
}

/// The variants of a route that run in one direction with one service type.
pub open spec fn selected_variants(
    dir: Map<Seq<char>, Seq<VariantView>>,
    route: Seq<char>,
    d: Direction,
    st: i64,
) -> Seq<VariantView> {
    if dir.contains_key(route) {
        dir[route].filter(selects(d, st))
    } else {
        Seq::empty()
    }
}

/// The listing of a directory: the groups in the order of `keys`, one after
/// another.
pub open spec fn listing(dir: Map<Seq<char>, Seq<VariantView>>, keys: Seq<Seq<char>>) -> Seq<
    VariantView,
> {
    keys.map_values(|k: Seq<char>| dir[k]).flatten()
}

pub proof fn lemma_filter_push<A>(s: Seq<A>, x: A, pred: spec_fn(A) -> bool)
    ensures
        s.push(x).filter(pred) == if pred(x) {
            s.filter(pred).push(x)
        } else {
            s.filter(pred)
        },
{
    reveal(Seq::filter);
    assert(s.push(x).drop_last() =~= s);
    assert(s.push(x).last() == x);
}

/// Copies of the variants, in their order.
fn copy_variants(vs: &Vec<RouteVariant>) -> (r: Vec<RouteVariant>)
    ensures
        variant_views(r@) == variant_views(vs@),
{
    let mut out: Vec<RouteVariant> = Vec::new();
    let mut j: usize = 0;
    while j < vs.len()
        invariant
            j <= vs@.len(),
            out@.len() == j,
            forall|k: int| 0 <= k < j ==> (#[trigger] out@[k])@ == vs@[k]@,
        decreases vs@.len() - j,
    {
        out.push(vs[j].duplicate());
        j = j + 1;
    }
    assert(variant_views(out@) =~= variant_views(vs@));
    out
}

proof fn lemma_route_index_push(vs: Seq<VariantView>, v: VariantView)
    ensures
        route_index(vs.push(v)) == route_index(vs).insert(
            v.route_number,
            if route_index(vs).contains_key(v.route_number) {
                route_index(vs)[v.route_number].push(v)
            } else {
                seq![v]
            },
        ),
{
    assert(vs.push(v).drop_last() =~= vs);
    assert(vs.push(v).last() == v);
    let m = route_index(vs.push(v));
    let n = route_index(vs).insert(
        v.route_number,
        if route_index(vs).contains_key(v.route_number) {
            route_index(vs)[v.route_number].push(v)
        } else {
            seq![v]
        },
    );
    assert forall|k: Seq<char>| variants_of(vs.push(v), k) == if k == v.route_number {
        variants_of(vs, k).push(v)
    } else {
        variants_of(vs, k)
    } by {
        lemma_filter_push(vs, v, on_route(k));
    }
    assert(variants_of(vs, v.route_number).len() == 0 ==> variants_of(vs, v.route_number).push(v)
        =~= seq![v]);
    assert(m =~= n);
}

/// Looking a route number up in the directory loaded from a listing gives
/// exactly the listed variants whose route number, upper-cased, equals the
/// query upper-cased, in the order of the listing; a query that matches no
/// listed variant finds nothing.
pub proof fn lemma_find_after_load(rows: Seq<RouteRow>, query: Seq<char>)
    ensures
        ({
            let m = route_index(row_variants(rows));
            let k = upper_of(query);
            &&& m.contains_key(k) <==> exists|i: int|
                0 <= i < rows.len() && upper_of((#[trigger] rows[i]).route.unwrap()@) == k
            &&& m.contains_key(k) ==> m[k] == row_variants(rows).filter(on_route(k))
            &&& m.contains_key(k) ==> forall|j: int|
                0 <= j < m[k].len() ==> (#[trigger] m[k][j]).route_number == k
            &&& forall|i: int|
                0 <= i < rows.len() && upper_of((#[trigger] rows[i]).route.unwrap()@) == k
                    ==> m.contains_key(k) && m[k].contains(row_variant(rows[i]))
        }),
{
    let vs = row_variants(rows);
    let k = upper_of(query);
    let f = vs.filter(on_route(k));
    assert forall|i: int|
        0 <= i < rows.len() && upper_of((#[trigger] rows[i]).route.unwrap()@) == k implies f.contains(
        row_variant(rows[i])) by {
        assert(vs[i] == row_variant(rows[i]));
        vs.lemma_filter_contains(on_route(k), i);
    }
    assert forall|j: int| 0 <= j < f.len() implies (#[trigger] f[j]).route_number == k by {
        vs.lemma_filter_pred(on_route(k), j);
    }
    if f.len() > 0 {
        vs.lemma_filter_pred(on_route(k), 0);
        vs.lemma_filter_contains_rev(on_route(k), f[0]);
        let i = choose|i: int| 0 <= i < vs.len() && vs[i] == f[0];
        assert(upper_of(rows[i].route.unwrap()@) == k);
    }
}

/// What the two feeds of an ETA query are asked for: a route variant that
/// the directory holds. Only the directory issues one.
pub struct EtaRequest {
    route: String,
    direction: Direction,
    service_type: i64,
}

impl View for EtaRequest {
    type V = (Seq<char>, Direction, i64);

    closed spec fn view(&self) -> (Seq<char>, Direction, i64) {
        (self.route@, self.direction, self.service_type)
    }
}

impl EtaRequest {
    /// The route number, upper-cased.
    pub fn route(&self) -> (r: &str)
        ensures
            r@ == self@.0,
    {
        self.route.as_str()
    }

    pub fn direction(&self) -> (r: Direction)
        ensures
            r == self@.1,
    {
        self.direction
    }

    pub fn service_type(&self) -> (r: i64)
        ensures
            r == self@.2,
    {
        self.service_type
    }
}

/// The variants of every route, grouped by upper-cased route number, the
/// groups held in ascending order of their UTF-8 bytes.
pub struct RouteDirectory {
    keys: Vec<String>,
    groups: Vec<Vec<RouteVariant>>,
    model: Ghost<Map<Seq<char>, Seq<VariantView>>>,
}

impl View for RouteDirectory {
    type V = Map<Seq<char>, Seq<VariantView>>;

    closed spec fn view(&self) -> Map<Seq<char>, Seq<VariantView>> {
        self.model@
    }
}

impl RouteDirectory {
    /// Route numbers ascending and unique, each with the variants that carry
    /// it, and the model holds exactly these groups.
    pub closed spec fn wf(&self) -> bool {
        &&& self.keys@.len() == self.groups@.len()
        &&& keys_sorted(key_views(self.keys@))
        &&& forall|k: Seq<char>|
            #![trigger self.model@.contains_key(k)]
            self.model@.contains_key(k) <==> exists|i: int|
                0 <= i < self.keys@.len() && #[trigger] self.keys@[i]@ == k
        &&& forall|i: int|
            0 <= i < self.keys@.len() ==> self.model@[#[trigger] self.keys@[i]@]
                == variant_views(self.groups@[i]@)
    }

    /// The route numbers in ascending order.
    pub closed spec fn route_keys(&self) -> Seq<Seq<char>> {
        key_views(self.keys@)
    }

    /// A directory without routes.
    pub fn new() -> (r: RouteDirectory)
        ensures
            r.wf(),
            r@ == Map::<Seq<char>, Seq<VariantView>>::empty(),
    {
        RouteDirectory { keys: Vec::new(), groups: Vec::new(), model: Ghost(Map::empty()) }
    }

    /// Builds the directory from the bulk route listing. The whole load fails
    /// on the first record that lacks a field or whose service type is not an
    /// integer. Route numbers are stored upper-cased. Every variant is kept,
    /// also one that repeats the route number, direction and service type of
    /// an earlier one.
    pub fn load(rows: &Vec<RouteRow>) -> (r: Result<RouteDirectory, QueryError>)
        ensures
            r is Ok <==> route_rows_valid(rows@),
            r matches Ok(d) ==> d.wf() && d@ == route_index(row_variants(rows@)),
            r matches Err(e) ==> e matches QueryError::MalformedRecord { index } && {
                &&& index < rows@.len()
                &&& !route_row_valid(rows@[index as int])
                &&& forall|j: int| 0 <= j < index ==> route_row_valid(#[trigger] rows@[j])
            },
    {
        let mut dir = RouteDirectory::new();
        let mut i: usize = 0;
        while i < rows.len()
            invariant
                i <= rows@.len(),
                dir.wf(),
                route_rows_valid(rows@.subrange(0, i as int)),
                dir@ == route_index(row_variants(rows@.subrange(0, i as int))),
            decreases rows@.len() - i,
        {
            let row = &rows[i];
            proof {
                assert forall|j: int| 0 <= j < i implies route_row_valid(#[trigger] rows@[j]) by {
                    assert(rows@.subrange(0, i as int)[j] == rows@[j]);
                }
                assert(rows@.subrange(0, i + 1) =~= rows@.subrange(0, i as int).push(rows@[i as int]));
                assert(row_variants(rows@.subrange(0, i + 1)) =~= row_variants(
                    rows@.subrange(0, i as int),
                ).push(row_variant(rows@[i as int])));
            }
            let parsed = match (&row.route, &row.service_type, &row.bound, &row.origin, &row.destination) {
                (Some(route), Some(st), Some(bound), Some(origin), Some(dest)) => {
                    match parse_i64(st.as_str()) {
                        Some(n) => Some(
                            RouteVariant {
                                route_number: uppercase(route.as_str()),
                                service_type: n,
                                direction: direction_of_token(bound.as_str()),
                                origin: origin.clone(),
                                destination: dest.clone(),
                            },
                        ),
                        None => None,
                    }
                },
                _ => None,
            };
            match parsed {
                Some(v) => {
                    proof {
                        lemma_route_index_push(
                            row_variants(rows@.subrange(0, i as int)),
                            row_variant(rows@[i as int]),
                        );
                    }
                    dir.add(v);
                },
                None => {
                    return Err(QueryError::MalformedRecord { index: i });
                },
            }
            i = i + 1;
        }
        assert(rows@.subrange(0, i as int) =~= rows@);
        Ok(dir)
    }

    /// All variants of one route number, as stored (upper-cased), in the order
    /// of the listing they were loaded from.
    pub fn find_key(&self, key: &str) -> (r: Result<Vec<RouteVariant>, QueryError>)
        requires
            self.wf(),
        ensures
            match r {
                Ok(vs) => self@.contains_key(key@) && variant_views(vs@) == self@[key@],
                Err(e) => !self@.contains_key(key@) && (e matches QueryError::UnknownRoute {
                    route,
                } && route@ == key@),
            },
    {
        match locate(&self.keys, key) {
            Ok(i) => Ok(copy_variants(&self.groups[i])),
            Err(_) => {
                assert(!self@.contains_key(key@));
                Err(QueryError::UnknownRoute { route: key.to_owned() })
            },
        }
    }

    /// All variants of a route number, matched without regard to case.
    pub fn find(&self, route: &str) -> (r: Result<Vec<RouteVariant>, QueryError>)
        requires
            self.wf(),
        ensures
            match r {
                Ok(vs) => self@.contains_key(upper_of(route@)) && variant_views(vs@)
                    == self@[upper_of(route@)],
                Err(e) => !self@.contains_key(upper_of(route@)) && (
                e matches QueryError::UnknownRoute { route: key } && key@ == upper_of(route@)),
            },
    {
        let key = uppercase(route);
        self.find_key(key.as_str())
    }

    /// The variants of a route number, as stored, that run in direction `d`
    /// with service type `st`; failing when there is none.
    pub fn find_filtered_key(&self, key: &str, d: Direction, st: i64) -> (r: Result<
        Vec<RouteVariant>,
        QueryError,
    >)
        requires
            self.wf(),
        ensures
            match r {
                Ok(vs) => selected_variants(self@, key@, d, st).len() > 0 && variant_views(vs@)
                    == selected_variants(self@, key@, d, st),
                Err(e) => selected_variants(self@, key@, d, st).len() == 0 && (
                e matches QueryError::UnknownRouteVariant { route, direction, service_type }
                    && route@ == key@ && direction == d && service_type == st),
            },
    {
        let mut out: Vec<RouteVariant> = Vec::new();
        match locate(&self.keys, key) {
            Ok(i) => {
                let group = &self.groups[i];
                let ghost gv = variant_views(group@);
                assert(gv == self@[key@]);
                let mut j: usize = 0;
                while j < group.len()
                    invariant
                        j <= group@.len(),
                        gv == variant_views(group@),
                        variant_views(out@) == gv.subrange(0, j as int).filter(selects(d, st)),
                    decreases group@.len() - j,
                {
                    let v = &group[j];
                    proof {
                        assert(gv.subrange(0, j + 1) =~= gv.subrange(0, j as int).push(v@));
                        lemma_filter_push(gv.subrange(0, j as int), v@, selects(d, st));
                    }
                    if v.direction == Some(d) && v.service_type == st {
                        let ghost prev = out@;
                        out.push(v.duplicate());
                        assert(variant_views(out@) =~= variant_views(prev).push(v@));
                    }
                    j = j + 1;
                }
                assert(gv.subrange(0, j as int) =~= gv);
            },
            Err(_) => {
            },
        }
        if out.len() == 0 {
            Err(QueryError::UnknownRouteVariant { route: key.to_owned(), direction: d, service_type: st })
        } else {
            Ok(out)
        }
    }

    /// The variants of a route number, matched without regard to case, that
    /// run in direction `d` with service type `st`; failing when there is
    /// none, before anything else is asked of the feed.
    pub fn find_filtered(&self, route: &str, d: Direction, st: i64) -> (r: Result<
        Vec<RouteVariant>,
        QueryError,
    >)
        requires
            self.wf(),
        ensures
            match r {
                Ok(vs) => selected_variants(self@, upper_of(route@), d, st).len() > 0
                    && variant_views(vs@) == selected_variants(self@, upper_of(route@), d, st),
                Err(e) => selected_variants(self@, upper_of(route@), d, st).len() == 0 && (
                e matches QueryError::UnknownRouteVariant { route: key, direction, service_type }
                    && key@ == upper_of(route@) && direction == d && service_type == st),
            },
    {
        let key = uppercase(route);
        self.find_filtered_key(key.as_str(), d, st)
    }

    /// Checks an ETA query before its two feeds are fetched: the request for
    /// them comes back only where the directory holds a variant of the route
    /// number (without regard to case) in direction `d` with service type
    /// `st`.
    pub fn eta_request(&self, route: &str, d: Direction, st: i64) -> (r: Result<
        EtaRequest,
        QueryError,
    >)
        requires
            self.wf(),
        ensures
            match r {
                Ok(req) => selected_variants(self@, upper_of(route@), d, st).len() > 0 && req@ == (
                upper_of(route@),
                d,
                st,
                ),
                Err(e) => selected_variants(self@, upper_of(route@), d, st).len() == 0 && (
                e matches QueryError::UnknownRouteVariant { route: key, direction, service_type }
                    && key@ == upper_of(route@) && direction == d && service_type == st),
            },
    {
        let key = uppercase(route);
        match self.find_filtered_key(key.as_str(), d, st) {
            Ok(_) => Ok(EtaRequest { route: key, direction: d, service_type: st }),
            Err(e) => Err(e),
        }
    }

    /// Every variant: groups in ascending order of route number, each group in
    /// the order of the listing it was loaded from.
    pub fn all_variants(&self) -> (r: Vec<RouteVariant>)
        requires
            self.wf(),
        ensures
            variant_views(r@) == listing(self@, self.route_keys()),
            keys_sorted(self.route_keys()),
            self.route_keys().to_set() == self@.dom(),
    {
        let mut out: Vec<RouteVariant> = Vec::new();
        let ghost ks = self.route_keys();
        let mut i: usize = 0;
        while i < self.groups.len()
            invariant
                self.wf(),
                i <= self.groups@.len(),
                ks == self.route_keys(),
                variant_views(out@) == ks.subrange(0, i as int).map_values(|k: Seq<char>| self@[k]).flatten(),
            decreases self.groups@.len() - i,
        {
            let ghost before = out@;
            let group = &self.groups[i];
            let mut j: usize = 0;
            while j < group.len()
                invariant
                    j <= group@.len(),
                    out@.len() == before.len() + j,
                    forall|k: int| 0 <= k < before.len() ==> (#[trigger] out@[k]) == before[k],
                    forall|k: int|
                        0 <= k < j ==> (#[trigger] out@[before.len() + k])@ == group@[k]@,
                decreases group@.len() - j,
            {
                out.push(group[j].duplicate());
                j = j + 1;
            }
            proof {
                assert(variant_views(out@) =~= variant_views(before) + variant_views(group@)) by {
                    assert forall|k: int| before.len() <= k < out@.len() implies (#[trigger] out@[k])@
                        == group@[k - before.len()]@ by {
                        assert(out@[before.len() + (k - before.len())] == out@[k]);
                    }
                }
                let prev = ks.subrange(0, i as int).map_values(|k: Seq<char>| self@[k]);
                assert(ks.subrange(0, i + 1).map_values(|k: Seq<char>| self@[k]) =~= prev.push(self@[ks[i as int]]));
                assert(ks[i as int] == self.keys@[i as int]@);
                prev.lemma_flatten_push(self@[ks[i as int]]);
            }
            i = i + 1;
        }
        proof {
            assert(ks.subrange(0, i as int) =~= ks);
            assert(ks.to_set() =~= self@.dom()) by {
                assert forall|k: Seq<char>| ks.to_set().contains(k) <==> self@.dom().contains(k) by {
                    if self@.dom().contains(k) {
                        assert(self.model@.contains_key(k));
                        let j = choose|j: int| 0 <= j < self.keys@.len() && #[trigger] self.keys@[j]@ == k;
                        assert(ks[j] == k);
                    }
                    if ks.to_set().contains(k) {
                        let j = choose|j: int| 0 <= j < ks.len() && ks[j] == k;
                        assert(self.keys@[j]@ == k);
                    }
                }
            }
        }
        out
    }

    /// Appends a variant to the group of its route number.
    fn add(&mut self, v: RouteVariant)
        requires
            old(self).wf(),
        ensures
            final(self).wf(),
            final(self)@ == old(self)@.insert(
                v@.route_number,
                if old(self)@.contains_key(v@.route_number) {
                    old(self)@[v@.route_number].push(v@)
                } else {
                    seq![v@]
                },
            ),
    {
        let ghost old_keys = self.keys@;
        let ghost old_groups = self.groups@;
        let ghost k = v@.route_number;
        let ghost vv = v@;
        match locate(&self.keys, v.route_number.as_str()) {
            Ok(i) => {
                assert(self.model@.contains_key(k));
                self.groups[i].push(v);
                self.model = Ghost(self.model@.insert(k, self.model@[k].push(vv)));
                assert(variant_views(self.groups@[i as int]@) =~= variant_views(
                    old_groups[i as int]@,
                ).push(vv));
                assert forall|j: int| 0 <= j < self.keys@.len() implies self.model@[
                    #[trigger] self.keys@[j]@] == variant_views(self.groups@[j]@) by {
                    if j != i {
                        lemma_sorted_distinct(key_views(old_keys), i as int, j);
                        assert(key_views(old_keys)[j] == old_keys[j]@);
                    }
                }
            },
            Err(p) => {
                assert(!self.model@.contains_key(k));
                let key = v.route_number.clone();
                self.keys.insert(p, key);
                self.groups.insert(p, vec![v]);
                self.model = Ghost(self.model@.insert(k, seq![vv]));
                assert(key_views(self.keys@) =~= key_views(old_keys).insert(p as int, k));
                proof {
                    lemma_insert_sorted(key_views(old_keys), p as int, k);
                }
                assert(variant_views(self.groups@[p as int]@) =~= seq![vv]);
                assert forall|q: Seq<char>| #![trigger self.model@.contains_key(q)]
                    self.model@.contains_key(q) <==> exists|i: int|
                        0 <= i < self.keys@.len() && #[trigger] self.keys@[i]@ == q by {
                    if q != k && self.model@.contains_key(q) {
                        let i = choose|i: int| 0 <= i < old_keys.len() && #[trigger] old_keys[i]@ == q;
                        if i < p {
                            assert(self.keys@[i]@ == q);
                        } else {
                            assert(self.keys@[i + 1]@ == q);
                        }
                    }
                    if q == k {
                        assert(self.keys@[p as int]@ == q);
                    }
                    if exists|i: int| 0 <= i < self.keys@.len() && #[trigger] self.keys@[i]@ == q {
                        let i = choose|i: int| 0 <= i < self.keys@.len() && #[trigger] self.keys@[i]@ == q;
                        if i < p {
                            assert(old_keys[i]@ == q);
                        } else if i > p {
                            assert(old_keys[i - 1]@ == q);
                        }
                    }
                }
                assert forall|j: int| 0 <= j < self.keys@.len() implies self.model@[
                    #[trigger] self.keys@[j]@] == variant_views(self.groups@[j]@) by {
                    if j < p {
                        assert(old_keys[j]@ != k);
                    } else if j > p {
                        assert(old_keys[j - 1]@ != k);
                    }
                }
            },
        }
    }
}

} // verus!
