use perf_rs::aggregate::{parse_record_line, Aggregate};
use perf_rs::batch::{batches, comma_join};

fn record_line(event: &str, value: &str) -> String {
    format!(r#"{{"event":"{}","counter-value":"{}"}}"#, event, value)
}

fn mean_of(means: &[(String, serde_json::Number)], event: &str) -> f64 {
    means
        .iter()
        .find(|(e, _)| e == event)
        .expect("event should be reported")
        .1
        .as_f64()
        .expect("mean is a finite double")
}

#[test]
fn record_value_as_numeric_string() {
    let r = parse_record_line(r#"{"event":"cycles","counter-value":"123.5"}"#)
        .expect("line is well formed");
    assert_eq!(r.event, "cycles");
    assert_eq!(r.value.as_f64(), Some(123.5));
}

#[test]
fn record_value_as_number() {
    let r = parse_record_line(r#"{"event":"cycles","counter-value":42}"#)
        .expect("line is well formed");
    assert_eq!(r.event, "cycles");
    assert_eq!(r.value.as_f64(), Some(42.0));
}

#[test]
fn record_ignores_unrelated_fields() {
    let r = parse_record_line(
        r#"{"unit":"","event":"cycles","counter-value":"7","event-runtime":3}"#,
    )
    .expect("line is well formed");
    assert_eq!(r.event, "cycles");
    assert_eq!(r.value.as_f64(), Some(7.0));
}

#[test]
fn malformed_lines_are_dropped() {
    assert!(parse_record_line("").is_none());
    assert!(parse_record_line("Performance counter stats:").is_none());
    assert!(parse_record_line(r#"{"event":"cycles"}"#).is_none());
    assert!(parse_record_line(r#"{"counter-value":"1"}"#).is_none());
    assert!(parse_record_line(r#"{"event":"cycles","counter-value":"<not counted>"}"#).is_none());
    assert!(parse_record_line(r#"{"event":7,"counter-value":"1"}"#).is_none());
}

#[test]
fn single_trial_reports_raw_values() {
    let mut agg = Aggregate::new();
    agg.add_line(&record_line("cycles", "10.5"));
    agg.add_line(&record_line("instructions", "3.25"));
    let means = agg.means(1);
    assert_eq!(means.len(), 2);
    assert_eq!(mean_of(&means, "cycles"), 10.5);
    assert_eq!(mean_of(&means, "instructions"), 3.25);
}

#[test]
fn mean_over_three_trials_is_exact() {
    let mut agg = Aggregate::new();
    for v in ["1.5", "2.5", "3.5"] {
        agg.add_line(&record_line("cycles", v));
    }
    let means = agg.means(3);
    assert_eq!(mean_of(&means, "cycles"), 2.5);
}

#[test]
fn corrupted_line_spares_other_events_and_trials() {
    let mut agg = Aggregate::new();
    // trial 1: both events report
    agg.add_line(&record_line("alpha", "4.0"));
    agg.add_line(&record_line("beta", "10.0"));
    // trial 2: beta's line arrives corrupted and is dropped
    agg.add_line(&record_line("alpha", "6.0"));
    agg.add_line(r#"{"event":"beta","counter-value":"<not supported>"}"#);
    let means = agg.means(2);
    // alpha keeps its full two-trial mean
    assert_eq!(mean_of(&means, "alpha"), 5.0);
    // beta still divides by the full trial count, understating its mean
    assert_eq!(mean_of(&means, "beta"), 5.0);
}

#[test]
fn unseen_event_is_absent_from_the_report() {
    let mut agg = Aggregate::new();
    agg.add_line(&record_line("alpha", "1.0"));
    let means = agg.means(1);
    assert!(means.iter().all(|(e, _)| e != "beta"));
}

#[test]
fn end_to_end_batched_three_trials() {
    let events: Vec<String> = ["A", "B", "C", "D", "E"].iter().map(|s| s.to_string()).collect();
    let bs = batches(&events, 2);
    assert_eq!(bs.len(), 3);
    let mut agg = Aggregate::new();
    for _trial in 0..3 {
        for b in &bs {
            // every batch invocation reports 10.0 for each of its events
            let lines: Vec<String> = b.iter().map(|e| record_line(e, "10.0")).collect();
            agg.add_lines(&lines);
        }
    }
    let means = agg.means(3);
    assert_eq!(means.len(), 5);
    for e in ["A", "B", "C", "D", "E"] {
        assert_eq!(mean_of(&means, e), 10.0);
    }
}

#[test]
fn repeated_records_accumulate() {
    let mut agg = Aggregate::new();
    agg.add_line(&record_line("cycles", "1.0"));
    agg.add_line(&record_line("cycles", "2.0"));
    agg.add_line(&record_line("cycles", "4.0"));
    let means = agg.means(1);
    assert_eq!(means.len(), 1);
    assert_eq!(mean_of(&means, "cycles"), 7.0);
}

#[test]
fn report_keeps_first_seen_order() {
    let mut agg = Aggregate::new();
    agg.add_line(&record_line("zeta", "1.0"));
    agg.add_line(&record_line("alpha", "1.0"));
    agg.add_line(&record_line("zeta", "1.0"));
    let means = agg.means(2);
    let order: Vec<&str> = means.iter().map(|(e, _)| e.as_str()).collect();
    assert_eq!(order, vec!["zeta", "alpha"]);
}

#[test]
fn batch_argument_lists_every_event_of_the_batch() {
    let events: Vec<String> = ["A", "B", "C"].iter().map(|s| s.to_string()).collect();
    let bs = batches(&events, 2);
    assert_eq!(comma_join(&bs[0]), "A,B");
    assert_eq!(comma_join(&bs[1]), "C");
}
