use kmb_eta_cli::direction::Direction;
use kmb_eta_cli::error::QueryError;
use kmb_eta_cli::feed::{arrival_feed, route_rows, route_stop_rows, stop_rows};
use kmb_eta_cli::join::resolve_eta;
use kmb_eta_cli::query::Directories;
use serde_json::Value;

fn parse(text: &str) -> Value {
    serde_json::from_str(text).unwrap()
}

fn directories() -> Directories {
    let stops = parse(
        r#"{"data":[{"stop":"1","name_tc":"Central"},{"stop":"2","name_tc":"Admiralty"}]}"#,
    );
    let routes = parse(
        r#"{"data":[{"route":"1A","bound":"O","service_type":"1","orig_tc":"Central","dest_tc":"Admiralty"}]}"#,
    );
    Directories::load(&stop_rows(&stops), &route_rows(&routes)).unwrap()
}

#[test]
fn eta_query_end_to_end() {
    let dirs = directories();
    assert!(dirs.routes.find_filtered("1A", Direction::Outbound, 1).is_ok());
    let route_stops = parse(r#"{"data":[{"seq":"1","stop":"1"},{"seq":"2","stop":"2"}]}"#);
    let feed = parse(
        r#"{"generated_timestamp":"2023-06-01T12:00:00+08:00","data":[
            {"seq":1,"eta_seq":1,"dir":"O","eta":"2023-06-01T12:02:05+08:00"}]}"#,
    );
    let rows = resolve_eta(
        &dirs.stops,
        &route_stop_rows(&route_stops),
        &arrival_feed(&feed),
        Direction::Outbound,
    )
    .unwrap();
    assert_eq!(rows.len(), 2);
    assert_eq!(rows[0].sequence, 1);
    assert_eq!(rows[0].stop_name, "Central");
    assert_eq!(rows[0].slot1, "  2m  5s");
    assert_eq!(rows[0].slot2, "");
    assert_eq!(rows[0].slot3, "");
    assert_eq!(rows[1].sequence, 2);
    assert_eq!(rows[1].stop_name, "Admiralty");
    assert_eq!(rows[1].slot1, "");
    assert_eq!(rows[1].slot2, "");
    assert_eq!(rows[1].slot3, "");
}

#[test]
fn eta_query_for_absent_variant_stops_at_gate() {
    let dirs = directories();
    let mut fetches: Vec<String> = Vec::new();
    let gate = dirs.routes.eta_request("1A", Direction::Inbound, 1);
    if let Ok(request) = &gate {
        fetches.push(format!("route-stop/{}", request.route()));
        fetches.push(format!("route-eta/{}", request.route()));
    }
    assert_eq!(
        gate.err(),
        Some(QueryError::UnknownRouteVariant {
            route: "1A".to_string(),
            direction: Direction::Inbound,
            service_type: 1,
        })
    );
    assert!(fetches.is_empty());
    assert!(dirs.routes.eta_request("1A", Direction::Outbound, 2).is_err());
    assert!(dirs.routes.find_filtered("1A", Direction::Inbound, 1).is_err());
}

#[test]
fn eta_request_for_present_variant_names_it_upper_cased() {
    let dirs = directories();
    let request = dirs.routes.eta_request("1a", Direction::Outbound, 1).unwrap();
    assert_eq!(request.route(), "1A");
    assert_eq!(request.direction(), Direction::Outbound);
    assert_eq!(request.service_type(), 1);
}

#[test]
fn stop_record_without_name_fails_load() {
    let stops = parse(r#"{"data":[{"stop":"1","name_tc":"Central"},{"stop":"2"}]}"#);
    let routes = parse(
        r#"{"data":[{"route":"1A","bound":"O","service_type":"1","orig_tc":"Central","dest_tc":"Admiralty"}]}"#,
    );
    let loaded = Directories::load(&stop_rows(&stops), &route_rows(&routes));
    assert_eq!(loaded.err(), Some(QueryError::MalformedRecord { index: 1 }));
}

#[test]
fn stop_record_with_non_string_name_fails_load() {
    let stops = parse(r#"{"data":[{"stop":"1","name_tc":7}]}"#);
    assert_eq!(
        Directories::load(&stop_rows(&stops), &vec![]).err(),
        Some(QueryError::MalformedRecord { index: 0 })
    );
}

#[test]
fn feed_reading_of_fields() {
    let routes = parse(
        r#"{"data":[{"route":"1a","bound":"I","service_type":"2","orig_tc":"X","dest_tc":"Y"},{"route":"9"}]}"#,
    );
    let rows = route_rows(&routes);
    assert_eq!(rows.len(), 2);
    assert_eq!(rows[0].route.as_deref(), Some("1a"));
    assert_eq!(rows[0].bound.as_deref(), Some("I"));
    assert_eq!(rows[0].service_type.as_deref(), Some("2"));
    assert_eq!(rows[1].origin, None);
    let feed = arrival_feed(&parse(r#"{"data":[{"seq":3,"eta_seq":2,"dir":"I","eta":null}]}"#));
    assert_eq!(feed.generated_at, None);
    assert_eq!(feed.rows.len(), 1);
    assert_eq!(feed.rows[0].seq, Some(3));
    assert_eq!(feed.rows[0].slot, Some(2));
    assert_eq!(feed.rows[0].eta, None);
    assert!(stop_rows(&parse(r#"{"type":"empty"}"#)).is_empty());
}
