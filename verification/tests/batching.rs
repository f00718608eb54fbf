use perf_rs::batch::{batches, comma_join};

fn names(v: &[&str]) -> Vec<String> {
    v.iter().map(|s| s.to_string()).collect()
}

#[test]
fn five_events_budget_two() {
    let events = names(&["A", "B", "C", "D", "E"]);
    let bs = batches(&events, 2);
    assert_eq!(bs.len(), 3);
    assert_eq!(bs[0], names(&["A", "B"]));
    assert_eq!(bs[1], names(&["C", "D"]));
    assert_eq!(bs[2], names(&["E"]));
}

#[test]
fn budget_larger_than_universe() {
    let events = names(&["A", "B"]);
    let bs = batches(&events, 10);
    assert_eq!(bs.len(), 1);
    assert_eq!(bs[0], events);
}

#[test]
fn budget_one_means_one_event_per_batch() {
    let events = names(&["A", "B", "C"]);
    let bs = batches(&events, 1);
    assert_eq!(bs.len(), 3);
    for (i, b) in bs.iter().enumerate() {
        assert_eq!(b.len(), 1);
        assert_eq!(b[0], events[i]);
    }
}

#[test]
fn no_events_no_batches() {
    let events: Vec<String> = Vec::new();
    let bs = batches(&events, 4);
    assert_eq!(bs.len(), 0);
}

#[test]
fn exact_multiple_has_no_short_batch() {
    let events = names(&["A", "B", "C", "D"]);
    let bs = batches(&events, 2);
    assert_eq!(bs.len(), 2);
    assert_eq!(bs[0].len(), 2);
    assert_eq!(bs[1].len(), 2);
}

#[test]
fn join_several() {
    assert_eq!(comma_join(&names(&["a", "b", "c"])), "a,b,c");
}

#[test]
fn join_single() {
    assert_eq!(comma_join(&names(&["cycles"])), "cycles");
}

#[test]
fn join_empty() {
    assert_eq!(comma_join(&Vec::new()), "");
}
