use kmb_eta_cli::direction::Direction;
use kmb_eta_cli::error::QueryError;
use kmb_eta_cli::eta::{countdown, format_eta};
use kmb_eta_cli::join::{join_arrivals, reference_instant, resolve_eta, slot_cell, ArrivalFeed, ArrivalRow};
use kmb_eta_cli::sequence::{route_stops, RouteStop, RouteStopRow};
use kmb_eta_cli::stops::{StopDirectory, StopRow};

const T0: i64 = 1_685_592_000;

fn arrival(seq: i64, slot: i64, dir: &str, eta: Option<&str>) -> ArrivalRow {
    ArrivalRow {
        seq: Some(seq),
        slot: Some(slot),
        bound: Some(dir.to_string()),
        eta: eta.map(|s| s.to_string()),
    }
}

fn rs_row(seq: &str, stop: &str) -> RouteStopRow {
    RouteStopRow { seq: Some(seq.to_string()), stop_id: Some(stop.to_string()) }
}

fn directory() -> StopDirectory {
    StopDirectory::load(&vec![
        StopRow { stop_id: Some("1".to_string()), name: Some("Central".to_string()) },
        StopRow { stop_id: Some("2".to_string()), name: Some("Admiralty".to_string()) },
    ])
    .unwrap()
}

#[test]
fn countdown_of_125_seconds() {
    assert_eq!(countdown(T0 + 125, T0), "  2m  5s");
}

#[test]
fn countdown_at_or_before_reference_is_leaving() {
    assert_eq!(countdown(T0, T0), "LEAVING");
    assert_eq!(countdown(T0 - 5, T0), "LEAVING");
    assert_eq!(countdown(i64::MIN, i64::MAX), "LEAVING");
}

#[test]
fn countdown_pads_and_overflows_width() {
    assert_eq!(countdown(T0 + 1, T0), "  0m  1s");
    assert_eq!(countdown(T0 + 60, T0), "  1m  0s");
    assert_eq!(countdown(T0 + 3605, T0), " 60m  5s");
    assert_eq!(countdown(T0 + 59_999, T0), "999m 59s");
    assert_eq!(countdown(T0 + 60_000, T0), "1000m  0s");
    assert_eq!(countdown(i64::MAX, i64::MIN), "307445734561825860m 15s");
}

#[test]
fn later_arrival_never_renders_sooner() {
    let reference = T0;
    let times = [T0 - 10, T0, T0 + 1, T0 + 59, T0 + 60, T0 + 61, T0 + 600, T0 + 6000];
    let key = |t: i64| -> (bool, i64, i64) {
        let d = t - reference;
        let text = countdown(t, reference);
        if text == "LEAVING" {
            assert!(d <= 0);
            (false, 0, 0)
        } else {
            assert!(d > 0);
            (true, d / 60, d % 60)
        }
    };
    for w in times.windows(2) {
        assert!(key(w[0]) <= key(w[1]));
    }
}

#[test]
fn format_eta_reads_rfc3339_with_offset() {
    let reference = reference_instant(&Some("2023-06-01T12:00:00+08:00".to_string())).unwrap();
    assert_eq!(reference, T0);
    assert_eq!(format_eta(&Some("2023-06-01T12:02:05+08:00".to_string()), reference), "  2m  5s");
    assert_eq!(format_eta(&Some("2023-06-01T04:02:05Z".to_string()), reference), "  2m  5s");
    assert_eq!(format_eta(&Some("2023-06-01T11:59:00+08:00".to_string()), reference), "LEAVING");
}

#[test]
fn format_eta_of_absent_or_unreadable_is_empty() {
    assert_eq!(format_eta(&None, T0), "");
    assert_eq!(format_eta(&Some("".to_string()), T0), "");
    assert_eq!(format_eta(&Some("soon".to_string()), T0), "");
    assert_eq!(format_eta(&Some("2023-06-01 12:02:05".to_string()), T0), "");
}

#[test]
fn unreadable_reference_is_invalid_feed_timestamp() {
    assert_eq!(reference_instant(&None), Err(QueryError::InvalidFeedTimestamp));
    assert_eq!(reference_instant(&Some("yesterday".to_string())), Err(QueryError::InvalidFeedTimestamp));
}

#[test]
fn route_stops_sorted_stably_by_sequence() {
    let rows = vec![rs_row("3", "c"), rs_row("1", "a"), rs_row("2", "b"), rs_row("1", "a2"), rs_row("10", "j")];
    let out = route_stops(&rows).unwrap();
    let got: Vec<(i64, String)> = out.iter().map(|s| (s.sequence, s.stop_id.clone())).collect();
    assert_eq!(
        got,
        vec![
            (1, "a".to_string()),
            (1, "a2".to_string()),
            (2, "b".to_string()),
            (3, "c".to_string()),
            (10, "j".to_string()),
        ]
    );
    assert!(route_stops(&vec![]).unwrap().is_empty());
}

#[test]
fn malformed_route_stop_is_refused() {
    let rows = vec![rs_row("1", "a"), rs_row("x", "b")];
    assert_eq!(route_stops(&rows).err(), Some(QueryError::MalformedRecord { index: 1 }));
    let rows = vec![RouteStopRow { seq: Some("1".to_string()), stop_id: None }];
    assert_eq!(route_stops(&rows).err(), Some(QueryError::MalformedRecord { index: 0 }));
}

#[test]
fn slot_uses_last_matching_entry_in_direction() {
    let rows = vec![
        arrival(1, 1, "O", Some("2023-06-01T12:01:00+08:00")),
        arrival(1, 1, "I", Some("2023-06-01T12:03:00+08:00")),
        arrival(1, 1, "O", Some("2023-06-01T12:02:00+08:00")),
        arrival(1, 2, "O", None),
    ];
    assert_eq!(slot_cell(&rows, Direction::Outbound, 1, 1, T0), "  2m  0s");
    assert_eq!(slot_cell(&rows, Direction::Inbound, 1, 1, T0), "  3m  0s");
    assert_eq!(slot_cell(&rows, Direction::Outbound, 1, 2, T0), "");
    assert_eq!(slot_cell(&rows, Direction::Outbound, 1, 3, T0), "");
    assert_eq!(slot_cell(&rows, Direction::Outbound, 2, 1, T0), "");
}

#[test]
fn join_keeps_stop_order_and_fails_on_unknown_stop() {
    let dir = directory();
    let route = vec![
        RouteStop { sequence: 2, stop_id: "2".to_string() },
        RouteStop { sequence: 1, stop_id: "1".to_string() },
    ];
    let rows = join_arrivals(&dir, &route, &vec![], Direction::Inbound, T0).unwrap();
    assert_eq!(rows.len(), 2);
    assert_eq!(rows[0].stop_name, "Admiralty");
    assert_eq!(rows[1].stop_name, "Central");
    let bad = vec![RouteStop { sequence: 1, stop_id: "9".to_string() }];
    assert_eq!(
        join_arrivals(&dir, &bad, &vec![], Direction::Inbound, T0).err(),
        Some(QueryError::UnknownStop { stop_id: "9".to_string() })
    );
}

#[test]
fn resolve_eta_fails_on_invalid_reference() {
    let dir = directory();
    let feed = ArrivalFeed { generated_at: Some("not a time".to_string()), rows: vec![] };
    assert_eq!(
        resolve_eta(&dir, &vec![rs_row("1", "1")], &feed, Direction::Outbound).err(),
        Some(QueryError::InvalidFeedTimestamp)
    );
}

#[test]
fn resolve_eta_joins_slots() {
    let dir = directory();
    let feed = ArrivalFeed {
        generated_at: Some("2023-06-01T12:00:00+08:00".to_string()),
        rows: vec![
            arrival(2, 3, "O", Some("2023-06-01T12:10:00+08:00")),
            arrival(2, 1, "O", Some("2023-06-01T11:59:59+08:00")),
            arrival(2, 2, "O", Some("garbled")),
        ],
    };
    let rows = resolve_eta(&dir, &vec![rs_row("2", "2"), rs_row("1", "1")], &feed, Direction::Outbound).unwrap();
    assert_eq!(rows.len(), 2);
    assert_eq!(rows[0].sequence, 1);
    assert_eq!((rows[0].slot1.as_str(), rows[0].slot2.as_str(), rows[0].slot3.as_str()), ("", "", ""));
    assert_eq!(rows[1].sequence, 2);
    assert_eq!(rows[1].stop_name, "Admiralty");
    assert_eq!(rows[1].slot1, "LEAVING");
    assert_eq!(rows[1].slot2, "");
    assert_eq!(rows[1].slot3, " 10m  0s");
}
