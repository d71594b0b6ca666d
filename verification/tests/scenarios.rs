use burner_watcher::events::{SessionRecord, DEBOUNCE_THRESHOLD_NANOS};
use burner_watcher::record::session_row;
use burner_watcher::replay::{parse_commands, replay, try_replay};

fn run(script: &str) -> Vec<SessionRecord> {
    let commands = parse_commands(script.as_bytes()).expect("script should parse");
    replay(&commands, 0, DEBOUNCE_THRESHOLD_NANOS)
}

#[test]
fn high_then_low_six_seconds_gives_one_record() {
    let records = run("HIGH:0-LOW:6000");
    assert_eq!(records.len(), 1);
    assert_eq!(records[0].end_time - records[0].start_time, 6_000_000_000);
    assert_eq!(records[0].start_time, 0);
    assert_eq!(records[0].end_time, 6_000_000_000);
    assert!(records[0].firing);
}

#[test]
fn high_then_low_two_seconds_gives_no_record() {
    let records = run("HIGH:0-LOW:2000");
    assert_eq!(records.len(), 0);
}

#[test]
fn second_low_reemits_from_the_carried_anchor() {
    let records = run("HIGH:0-LOW:6000-LOW:6000");
    assert_eq!(records.len(), 2);
    assert_eq!(records[0].start_time, records[1].start_time);
    assert_eq!(records[1].end_time, records[0].end_time + 6_000_000_000);
}

#[test]
fn second_high_wins_over_the_first() {
    let records = run("HIGH:0-HIGH:0-LOW:6000");
    assert_eq!(records.len(), 1);
    assert_eq!(records[0].start_time, 0);
    assert_eq!(records[0].end_time, 6_000_000_000);
}

#[test]
fn second_high_wins_with_distinct_times() {
    // Highs at 1s and 3s, Low at 9s: anchored at the second High.
    let records = run("HIGH:1000-HIGH:2000-LOW:6000");
    assert_eq!(records.len(), 1);
    assert_eq!(records[0].start_time, 3_000_000_000);
    assert_eq!(records[0].end_time, 9_000_000_000);
}

#[test]
fn first_low_measures_from_monitoring_start() {
    // The sentinel anchors at the moment monitoring starts, so a first Low
    // only qualifies once the line has been up longer than the threshold.
    assert_eq!(run("LOW:2000").len(), 0);
    let records = run("LOW:6000");
    assert_eq!(records.len(), 1);
    assert_eq!(records[0].start_time, 0);
    assert_eq!(records[0].end_time, 6_000_000_000);
}

#[test]
fn replay_is_deterministic() {
    let first = run("HIGH:0-LOW:6000-HIGH:500-LOW:5500-LOW:100");
    let second = run("HIGH:0-LOW:6000-HIGH:500-LOW:5500-LOW:100");
    assert_eq!(first, second);
    for (a, b) in first.iter().zip(second.iter()) {
        let row_a = session_row(a, 1_111_000_000_000);
        let row_b = session_row(b, 2_222_000_000_000);
        // Byte-identical timestamp columns; only the audit column differs.
        assert_eq!(row_a.0, row_b.0);
        assert_eq!(row_a.1, row_b.1);
    }
}

#[test]
fn replay_with_a_higher_threshold_suppresses_the_record() {
    let commands = parse_commands("HIGH:0-LOW:6000".as_bytes()).expect("script should parse");
    let records = replay(&commands, 0, 10_000_000_000);
    assert_eq!(records.len(), 0);
}

#[test]
fn replay_start_offsets_every_timestamp() {
    let commands = parse_commands("HIGH:0-LOW:6000".as_bytes()).expect("script should parse");
    let records = replay(&commands, 100_000_000_000, DEBOUNCE_THRESHOLD_NANOS);
    assert_eq!(records.len(), 1);
    assert_eq!(records[0].start_time, 100_000_000_000);
    assert_eq!(records[0].end_time, 106_000_000_000);
}

#[test]
fn try_replay_rejects_a_clock_overflow() {
    let commands = parse_commands("HIGH:18446744073709551615-LOW:6000".as_bytes())
        .expect("script should parse");
    assert!(try_replay(&commands, 0, DEBOUNCE_THRESHOLD_NANOS).is_none());
    let commands = parse_commands("HIGH:0-LOW:6000".as_bytes()).expect("script should parse");
    let records = try_replay(&commands, 0, DEBOUNCE_THRESHOLD_NANOS)
        .expect("a small script must replay");
    assert_eq!(records.len(), 1);
}

#[test]
fn session_row_renders_rfc3339_seconds() {
    let record = SessionRecord { start_time: 0, end_time: 6_000_000_000, firing: true };
    let (start, end, insertion) = session_row(&record, 12_345_000_000_000);
    assert_eq!(start, "1970-01-01T00:00:00Z");
    assert_eq!(end, "1970-01-01T00:00:06Z");
    assert_eq!(insertion, "1970-01-01T03:25:45Z");
}

#[test]
fn session_row_truncates_to_whole_seconds() {
    let record = SessionRecord { start_time: 1_500_000_000, end_time: 7_999_999_999, firing: true };
    let (start, end, _) = session_row(&record, 0);
    assert_eq!(start, "1970-01-01T00:00:01Z");
    assert_eq!(end, "1970-01-01T00:00:07Z");
}
