use vstd::prelude::*;

verus! {

/// The logical level of the monitored burner line.
#[derive(Clone, Copy, Debug, PartialEq, Eq, Structural)]
pub enum LineState {
    Low,
    High,
}

/// The reducer's carried-forward belief about the current or most recent
/// firing interval. Exactly one value is live at a time: the driver loop
/// threads it from one `process_event` call to the next.
#[derive(Clone, Copy, Debug, PartialEq, Eq, Structural)]
pub struct BurnerStatus {
    /// Timestamp (nanoseconds) of the edge that opened the interval.
    pub start_time: u64,
    /// Timestamp (nanoseconds) of the most recently observed edge.
    pub end_time: u64,
    /// Whether the burner is currently believed to be firing.
    pub firing: bool,
}

/// One observed edge: a timestamp in nanoseconds and the level the line
/// transitioned to.
#[derive(Clone, Copy, Debug, PartialEq, Eq, Structural)]
pub struct EventStatus {
    pub timestamp: u64,
    pub pin_state: LineState,
}

/// A qualifying burn interval, emitted by the reducer once the debounce
/// predicate holds and handed to the sink for durable storage. Timestamps
/// are the edge timestamps of the opening High and the closing Low.
#[derive(Clone, Copy, Debug, PartialEq, Eq, Structural)]
pub struct SessionRecord {
    pub start_time: u64,
    pub end_time: u64,
    /// Always true for an emitted record: it describes a firing interval.
    pub firing: bool,
}

/// Minimum elapsed time, in nanoseconds, a candidate interval must exceed
/// before it is persisted: five seconds.
pub const DEBOUNCE_THRESHOLD_NANOS: u64 = 5_000_000_000;

/// The sentinel status used before any edge has been seen: anchored at the
/// moment monitoring starts, not firing. It must not itself be mistaken for
/// a real session; anchoring it at start-up time means a spurious first Low
/// cannot look older than the monitoring process itself.
pub open spec fn initial_status(now: u64) -> BurnerStatus {
    BurnerStatus { start_time: now, end_time: now, firing: false }
}

/// What one reduction step does: the new accumulated status together with
/// the record to persist, if any.
///
/// - High: unconditionally start a new interval at the event's time; never
///   emit. An in-progress interval is silently dropped.
/// - Low: carry the previous anchor (`start_time`) forward, close the
///   interval at the event's time, and emit one record exactly when the
///   elapsed time strictly exceeds the threshold. The anchor is carried
///   forward even after an emission, so a further Low with no intervening
///   High measures from the same anchor and may emit again.
pub open spec fn reduce(
    prev: BurnerStatus,
    event: EventStatus,
    threshold_nanos: u64,
) -> (BurnerStatus, Option<SessionRecord>) {
    match event.pin_state {
        LineState::High => (
            BurnerStatus {
                start_time: event.timestamp,
                end_time: event.timestamp,
                firing: true,
            },
            None,
        ),
        LineState::Low => {
            let status = BurnerStatus {
                start_time: prev.start_time,
                end_time: event.timestamp,
                firing: false,
            };
            if event.timestamp as int - prev.start_time as int > threshold_nanos as int {
                (
                    status,
                    Some(SessionRecord {
                        start_time: prev.start_time,
                        end_time: event.timestamp,
                        firing: true,
                    }),
                )
            } else {
                (status, None)
            }
        },
    }
}

/// Make the sentinel status the driver loop starts from.
pub fn make_initial_status(now: u64) -> (r: BurnerStatus)
    ensures
        r == initial_status(now),
{
    BurnerStatus { start_time: now, end_time: now, firing: false }
}

/// One reduction step with an explicit debounce threshold: consume one edge
/// and the previous accumulated status, return the new status and the record
/// to persist, if the elapsed time strictly exceeds `threshold_nanos`.
pub fn process_event_with(
    burner_status: BurnerStatus,
    event_status: &EventStatus,
    threshold_nanos: u64,
) -> (r: (BurnerStatus, Option<SessionRecord>))
    ensures
        r == reduce(burner_status, *event_status, threshold_nanos),
{
    match event_status.pin_state {
        LineState::High => (
            BurnerStatus {
                start_time: event_status.timestamp,
                end_time: event_status.timestamp,
                firing: true,
            },
            None,
        ),
        LineState::Low => {
            let status = BurnerStatus {
                start_time: burner_status.start_time,
                end_time: event_status.timestamp,
                firing: false,
            };
            if event_status.timestamp > burner_status.start_time
                && event_status.timestamp - burner_status.start_time > threshold_nanos {
                (
                    status,
                    Some(SessionRecord {
                        start_time: burner_status.start_time,
                        end_time: event_status.timestamp,
                        firing: true,
                    }),
                )
            } else {
                (status, None)
            }
        },
    }
}

/// One reduction step at the default five-second threshold.
pub fn process_event(
    burner_status: BurnerStatus,
    event_status: &EventStatus,
) -> (r: (BurnerStatus, Option<SessionRecord>))
    ensures
        r == reduce(burner_status, *event_status, DEBOUNCE_THRESHOLD_NANOS),
{
    process_event_with(burner_status, event_status, DEBOUNCE_THRESHOLD_NANOS)
}

/// Law: whatever the accumulated status, a High edge resets the anchor to
/// its own time, marks the burner firing, and emits nothing.
pub proof fn lemma_high_resets(prev: BurnerStatus, event: EventStatus, threshold_nanos: u64)
    requires
        event.pin_state is High,
    ensures
        reduce(prev, event, threshold_nanos).0 == (BurnerStatus {
            start_time: event.timestamp,
            end_time: event.timestamp,
            firing: true,
        }),
        reduce(prev, event, threshold_nanos).1 is None,
{
}

/// Law: a Low edge directly following a High edge emits exactly one record,
/// anchored at the High's time and closed at the Low's time, when the gap
/// strictly exceeds the threshold; it emits nothing when the gap is at most
/// the threshold. Either way the record, if any, spans more than the
/// threshold.
pub proof fn lemma_low_after_high(
    prev: BurnerStatus,
    high: EventStatus,
    low: EventStatus,
    threshold_nanos: u64,
)
    requires
        high.pin_state is High,
        low.pin_state is Low,
    ensures
        low.timestamp as int - high.timestamp as int > threshold_nanos as int ==> reduce(
            reduce(prev, high, threshold_nanos).0,
            low,
            threshold_nanos,
        ).1 == Some(
            SessionRecord { start_time: high.timestamp, end_time: low.timestamp, firing: true },
        ),
        low.timestamp as int - high.timestamp as int <= threshold_nanos as int ==> reduce(
            reduce(prev, high, threshold_nanos).0,
            low,
            threshold_nanos,
        ).1 is None,
{
}

/// Law: every record the reducer ever emits is well formed: it is marked
/// firing and spans strictly more than the threshold, so its end lies
/// strictly after its start.
pub proof fn lemma_emitted_record_wf(
    prev: BurnerStatus,
    event: EventStatus,
    threshold_nanos: u64,
    record: SessionRecord,
)
    requires
        reduce(prev, event, threshold_nanos).1 == Some(record),
    ensures
        record.firing,
        record.end_time as int - record.start_time as int > threshold_nanos as int,
        record.end_time > record.start_time,
{
}

} // verus!

