use burner_watcher::events::{
    make_initial_status, process_event, process_event_with, BurnerStatus, EventStatus, LineState,
    DEBOUNCE_THRESHOLD_NANOS,
};

fn high(at: u64) -> EventStatus {
    EventStatus { timestamp: at, pin_state: LineState::High }
}

fn low(at: u64) -> EventStatus {
    EventStatus { timestamp: at, pin_state: LineState::Low }
}

#[test]
fn high_resets_anchor_and_emits_nothing() {
    let prev = BurnerStatus { start_time: 42, end_time: 99, firing: true };
    let (status, emitted) = process_event(prev, &high(1_000));
    assert_eq!(status.start_time, 1_000);
    assert_eq!(status.end_time, 1_000);
    assert!(status.firing);
    assert!(emitted.is_none());
}

#[test]
fn low_after_high_beyond_threshold_emits_one_record() {
    let start = make_initial_status(0);
    let (after_high, none) = process_event(start, &high(1_000_000_000));
    assert!(none.is_none());
    let (status, emitted) = process_event(after_high, &low(7_000_000_000));
    let record = emitted.expect("a six second gap must emit");
    assert_eq!(record.start_time, 1_000_000_000);
    assert_eq!(record.end_time, 7_000_000_000);
    assert!(record.firing);
    assert!(!status.firing);
    assert_eq!(status.start_time, 1_000_000_000);
    assert_eq!(status.end_time, 7_000_000_000);
}

#[test]
fn low_after_high_within_threshold_emits_nothing() {
    let start = make_initial_status(0);
    let (after_high, _) = process_event(start, &high(1_000_000_000));
    let (status, emitted) = process_event(after_high, &low(3_000_000_000));
    assert!(emitted.is_none());
    assert_eq!(status.start_time, 1_000_000_000);
    assert_eq!(status.end_time, 3_000_000_000);
    assert!(!status.firing);
}

#[test]
fn gap_of_exactly_the_threshold_emits_nothing() {
    let start = make_initial_status(0);
    let (after_high, _) = process_event(start, &high(2_000_000_000));
    let exactly = 2_000_000_000 + DEBOUNCE_THRESHOLD_NANOS;
    let (_, emitted) = process_event(after_high, &low(exactly));
    assert!(emitted.is_none());
    let (after_high, _) = process_event(start, &high(2_000_000_000));
    let (_, emitted) = process_event(after_high, &low(exactly + 1));
    assert!(emitted.is_some());
}

#[test]
fn threshold_is_an_explicit_parameter() {
    let start = make_initial_status(0);
    let (after_high, _) = process_event_with(start, &high(0), 1_000_000_000);
    let (_, emitted) = process_event_with(after_high, &low(2_000_000_000), 1_000_000_000);
    assert!(emitted.is_some());
    let (after_high, _) = process_event_with(start, &high(0), 10_000_000_000);
    let (_, emitted) = process_event_with(after_high, &low(2_000_000_000), 10_000_000_000);
    assert!(emitted.is_none());
}

#[test]
fn low_before_anchor_emits_nothing() {
    let prev = BurnerStatus { start_time: 9_000_000_000, end_time: 9_000_000_000, firing: true };
    let (status, emitted) = process_event(prev, &low(1_000_000_000));
    assert!(emitted.is_none());
    assert_eq!(status.start_time, 9_000_000_000);
    assert_eq!(status.end_time, 1_000_000_000);
}
