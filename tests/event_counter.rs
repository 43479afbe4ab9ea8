use workpool::events::EventCounter;

#[test]
fn new_counter_has_zero_for_all() {
    let counter = EventCounter::new();
    assert_eq!(counter.get_count("motion"), 0);
    assert_eq!(counter.get_count("temperature"), 0);
}

#[test]
fn record_event_increases_count() {
    let mut counter = EventCounter::new();
    counter.record_event("motion");
    counter.record_event("motion");
    assert_eq!(counter.get_count("motion"), 2);
}

#[test]
fn snapshot_returns_all_counts() {
    let mut counter = EventCounter::new();
    counter.record_event("a");
    counter.record_event("b");
    counter.record_event("a");

    let mut snapshot = counter.snapshot();
    snapshot.sort();

    assert_eq!(snapshot, vec![("a".to_string(), 2), ("b".to_string(), 1)]);
}

#[test]
fn recording_one_category_leaves_others_alone() {
    let mut counter = EventCounter::new();
    counter.record_event("power_loss");
    counter.record_event("motion");
    counter.record_event("motion");
    assert_eq!(counter.get_count("power_loss"), 1);
    assert_eq!(counter.get_count("motion"), 2);
    assert_eq!(counter.get_count("temperature"), 0);
    assert_eq!(
        counter.snapshot(),
        vec![("power_loss".to_string(), 1), ("motion".to_string(), 2)]
    );
}
