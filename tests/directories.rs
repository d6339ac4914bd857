use kmb_eta_cli::direction::{direction_of_token, Direction};
use kmb_eta_cli::error::QueryError;
use kmb_eta_cli::query::Directories;
use kmb_eta_cli::routes::{RouteDirectory, RouteRow, RouteVariant};
use kmb_eta_cli::stops::{StopDirectory, StopRow};

fn stop(id: &str, name: &str) -> StopRow {
    StopRow { stop_id: Some(id.to_string()), name: Some(name.to_string()) }
}

fn route(number: &str, st: &str, bound: &str, orig: &str, dest: &str) -> RouteRow {
    RouteRow {
        route: Some(number.to_string()),
        service_type: Some(st.to_string()),
        bound: Some(bound.to_string()),
        origin: Some(orig.to_string()),
        destination: Some(dest.to_string()),
    }
}

fn summary(v: &RouteVariant) -> (String, i64, Option<Direction>, String, String) {
    (
        v.route_number.clone(),
        v.service_type,
        v.direction,
        v.origin.clone(),
        v.destination.clone(),
    )
}

#[test]
fn direction_tokens_map_o_and_i_only() {
    assert_eq!(direction_of_token("O"), Some(Direction::Outbound));
    assert_eq!(direction_of_token("I"), Some(Direction::Inbound));
    assert_eq!(direction_of_token("o"), None);
    assert_eq!(direction_of_token("i"), None);
    assert_eq!(direction_of_token(""), None);
    assert_eq!(direction_of_token("OI"), None);
    assert_eq!(direction_of_token("outbound"), None);
}

#[test]
fn direction_names() {
    assert_eq!(Direction::Inbound.name(), "inbound");
    assert_eq!(Direction::Outbound.name(), "outbound");
}

#[test]
fn lookup_after_load_returns_each_name() {
    let rows = vec![stop("B2", "Admiralty"), stop("A1", "Central"), stop("C3", "Jordan")];
    let dir = StopDirectory::load(&rows).unwrap();
    assert_eq!(dir.len(), 3);
    assert_eq!(dir.lookup("A1").unwrap(), "Central");
    assert_eq!(dir.lookup("B2").unwrap(), "Admiralty");
    assert_eq!(dir.lookup("C3").unwrap(), "Jordan");
}

#[test]
fn lookup_of_absent_id_is_unknown_stop() {
    let rows = vec![stop("1", "Central"), stop("2", "Admiralty")];
    let dir = StopDirectory::load(&rows).unwrap();
    assert_eq!(dir.lookup("3"), Err(QueryError::UnknownStop { stop_id: "3".to_string() }));
    assert_eq!(dir.lookup(""), Err(QueryError::UnknownStop { stop_id: "".to_string() }));
}

#[test]
fn duplicate_stop_id_keeps_last_name() {
    let rows = vec![stop("1", "Old"), stop("2", "Other"), stop("1", "New")];
    let dir = StopDirectory::load(&rows).unwrap();
    assert_eq!(dir.len(), 2);
    assert_eq!(dir.lookup("1").unwrap(), "New");
}

#[test]
fn empty_stop_listing_loads_empty() {
    let dir = StopDirectory::load(&vec![]).unwrap();
    assert_eq!(dir.len(), 0);
    assert!(dir.lookup("1").is_err());
}

#[test]
fn stop_ids_with_non_ascii_text_are_found() {
    let rows = vec![stop("中環", "Central"), stop("金鐘", "Admiralty"), stop("Z", "Zed")];
    let dir = StopDirectory::load(&rows).unwrap();
    assert_eq!(dir.lookup("金鐘").unwrap(), "Admiralty");
    assert_eq!(dir.lookup("中環").unwrap(), "Central");
    assert_eq!(dir.lookup("Z").unwrap(), "Zed");
}

#[test]
fn malformed_stop_record_fails_whole_load() {
    let rows = vec![
        stop("1", "Central"),
        StopRow { stop_id: Some("2".to_string()), name: None },
        StopRow { stop_id: None, name: Some("X".to_string()) },
    ];
    assert_eq!(
        StopDirectory::load(&rows).err(),
        Some(QueryError::MalformedRecord { index: 1 })
    );
    let routes = vec![route("1A", "1", "O", "Central", "Admiralty")];
    assert_eq!(
        Directories::load(&rows, &routes).err(),
        Some(QueryError::MalformedRecord { index: 1 })
    );
}

#[test]
fn find_returns_variants_of_route_in_listing_order() {
    let rows = vec![
        route("1A", "1", "O", "Central", "Admiralty"),
        route("2", "1", "O", "X", "Y"),
        route("1A", "1", "I", "Admiralty", "Central"),
        route("1A", "2", "O", "Central", "Jordan"),
    ];
    let dir = RouteDirectory::load(&rows).unwrap();
    let found = dir.find("1A").unwrap();
    let got: Vec<_> = found.iter().map(summary).collect();
    assert_eq!(
        got,
        vec![
            ("1A".to_string(), 1, Some(Direction::Outbound), "Central".to_string(), "Admiralty".to_string()),
            ("1A".to_string(), 1, Some(Direction::Inbound), "Admiralty".to_string(), "Central".to_string()),
            ("1A".to_string(), 2, Some(Direction::Outbound), "Central".to_string(), "Jordan".to_string()),
        ]
    );
    let again: Vec<_> = dir.find("1A").unwrap().iter().map(summary).collect();
    assert_eq!(got, again);
}

#[test]
fn find_ignores_case() {
    let rows = vec![route("1a", "1", "O", "Central", "Admiralty"), route("1A", "1", "I", "Admiralty", "Central")];
    let dir = RouteDirectory::load(&rows).unwrap();
    let lower = dir.find("1a").unwrap();
    assert_eq!(lower.len(), 2);
    assert_eq!(lower[0].route_number, "1A");
    assert_eq!(lower[1].route_number, "1A");
    assert_eq!(dir.find("1A").unwrap().len(), 2);
}

#[test]
fn find_of_absent_route_is_unknown_route() {
    let rows = vec![route("1A", "1", "O", "Central", "Admiralty")];
    let dir = RouteDirectory::load(&rows).unwrap();
    assert_eq!(dir.find("9x").err(), Some(QueryError::UnknownRoute { route: "9X".to_string() }));
    assert_eq!(dir.find("1").err(), Some(QueryError::UnknownRoute { route: "1".to_string() }));
}

#[test]
fn unnamed_direction_token_matches_no_filtered_query() {
    let rows = vec![route("5", "1", "X", "A", "B")];
    let dir = RouteDirectory::load(&rows).unwrap();
    assert_eq!(dir.find("5").unwrap()[0].direction, None);
    assert!(dir.find_filtered("5", Direction::Inbound, 1).is_err());
    assert!(dir.find_filtered("5", Direction::Outbound, 1).is_err());
}

#[test]
fn find_filtered_selects_direction_and_service_type() {
    let rows = vec![
        route("1A", "1", "O", "Central", "Admiralty"),
        route("1A", "1", "I", "Admiralty", "Central"),
        route("1A", "2", "O", "Central", "Jordan"),
    ];
    let dir = RouteDirectory::load(&rows).unwrap();
    let out = dir.find_filtered("1a", Direction::Outbound, 2).unwrap();
    assert_eq!(out.len(), 1);
    assert_eq!(out[0].destination, "Jordan");
    let inb = dir.find_filtered("1A", Direction::Inbound, 1).unwrap();
    assert_eq!(inb.len(), 1);
    assert_eq!(inb[0].origin, "Admiralty");
}

#[test]
fn absent_variant_is_unknown_route_variant() {
    let rows = vec![route("1A", "1", "O", "Central", "Admiralty")];
    let dir = RouteDirectory::load(&rows).unwrap();
    assert_eq!(
        dir.find_filtered("1A", Direction::Inbound, 1).err(),
        Some(QueryError::UnknownRouteVariant {
            route: "1A".to_string(),
            direction: Direction::Inbound,
            service_type: 1,
        })
    );
    assert_eq!(
        dir.find_filtered("7", Direction::Outbound, 3).err(),
        Some(QueryError::UnknownRouteVariant {
            route: "7".to_string(),
            direction: Direction::Outbound,
            service_type: 3,
        })
    );
}

#[test]
fn service_type_text_is_parsed_as_integer() {
    let rows = vec![route("3", "02", "O", "A", "B"), route("3", "+7", "I", "B", "A")];
    let dir = RouteDirectory::load(&rows).unwrap();
    let vs = dir.find("3").unwrap();
    assert_eq!(vs[0].service_type, 2);
    assert_eq!(vs[1].service_type, 7);
}

#[test]
fn malformed_route_records_fail_load() {
    let bad_type = vec![route("1A", "1", "O", "A", "B"), route("2", "one", "O", "A", "B")];
    assert_eq!(
        RouteDirectory::load(&bad_type).err(),
        Some(QueryError::MalformedRecord { index: 1 })
    );
    let mut missing = route("3", "1", "O", "A", "B");
    missing.destination = None;
    assert_eq!(
        RouteDirectory::load(&vec![missing]).err(),
        Some(QueryError::MalformedRecord { index: 0 })
    );
    let stops = vec![stop("1", "Central")];
    assert_eq!(
        Directories::load(&stops, &bad_type).err(),
        Some(QueryError::MalformedRecord { index: 1 })
    );
}

#[test]
fn listing_groups_routes_in_ascending_order() {
    let rows = vec![
        route("2", "1", "O", "a", "b"),
        route("10", "1", "O", "c", "d"),
        route("1A", "1", "O", "e", "f"),
        route("2", "1", "I", "b", "a"),
        route("10", "1", "I", "d", "c"),
    ];
    let dirs = Directories::load(&vec![], &rows).unwrap();
    let all = dirs.routes.all_variants();
    let got: Vec<(String, String)> = all.iter().map(|v| (v.route_number.clone(), v.origin.clone())).collect();
    assert_eq!(
        got,
        vec![
            ("10".to_string(), "c".to_string()),
            ("10".to_string(), "d".to_string()),
            ("1A".to_string(), "e".to_string()),
            ("2".to_string(), "a".to_string()),
            ("2".to_string(), "b".to_string()),
        ]
    );
}

#[test]
fn empty_route_directory_answers_unknown_route() {
    let dir = RouteDirectory::load(&vec![]).unwrap();
    assert!(dir.all_variants().is_empty());
    assert_eq!(dir.find("1").err(), Some(QueryError::UnknownRoute { route: "1".to_string() }));
}
