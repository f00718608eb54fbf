use perf_rs::catalog::{parse_event_list, resolve_event_names};
use perf_rs::perf::Perf;
use perf_rs::PerfError;

#[test]
fn primary_name_wins_secondary_fills_in() {
    let listing = r#"[
        {"EventName": "cycles"},
        {"MetricName": "ipc"},
        {"EventName": "instructions", "MetricName": "shadowed"}
    ]"#;
    let records = parse_event_list(listing).expect("listing should parse");
    let names = resolve_event_names(&records).expect("all records are named");
    assert_eq!(names, vec!["cycles".to_string(), "ipc".to_string(), "instructions".to_string()]);
}

#[test]
fn unnamed_record_is_fatal() {
    let listing = r#"[{"EventName": "cycles"}, {"Unit": "cpu"}]"#;
    let records = parse_event_list(listing).expect("listing should parse");
    assert_eq!(resolve_event_names(&records), Err(PerfError::CatalogParseError));
}

#[test]
fn malformed_listing_is_rejected() {
    assert!(parse_event_list("not json at all").is_none());
    assert!(parse_event_list(r#"{"EventName": "cycles"}"#).is_none());
}

#[test]
fn duplicates_and_order_are_preserved() {
    let listing = r#"[{"EventName": "b"}, {"EventName": "a"}, {"EventName": "b"}]"#;
    let records = parse_event_list(listing).expect("listing should parse");
    let names = resolve_event_names(&records).expect("all records are named");
    assert_eq!(names, vec!["b".to_string(), "a".to_string(), "b".to_string()]);
}

#[test]
fn plan_from_catalog_keeps_target_and_events() {
    let listing = r#"[{"EventName": "cycles"}, {"MetricName": "ipc"}]"#;
    let p = Perf::from_catalog(
        "/bin/true".to_string(),
        vec!["-q".to_string()],
        listing,
    )
    .expect("catalog is well formed");
    assert_eq!(p.executable, "/bin/true");
    assert_eq!(p.args, vec!["-q".to_string()]);
    assert_eq!(p.events, vec!["cycles".to_string(), "ipc".to_string()]);
}

#[test]
fn plan_fails_on_malformed_catalog() {
    let r = Perf::from_catalog("/bin/true".to_string(), Vec::new(), "[42]");
    assert_eq!(r.err(), Some(PerfError::CatalogParseError));
}
