//! Watches a burner's ignition-detect line and turns raw edge transitions
//! into durable burn-session records, suppressing intervals shorter than a
//! debounce threshold. The core is a pure reduction over edge events; the
//! surrounding process feeds it edges from hardware or from a textual
//! replay script and appends the emitted records to a log.

pub mod events;
pub mod record;
pub mod replay;
