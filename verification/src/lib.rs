//! Telemetry log sessions for a four-wheel vehicle: a versioned binary
//! decoder for recorded log segments, channel accessors that project the
//! decoded entries into ordered time series, an arithmetic formula evaluator
//! for user-defined channels, and the assembly of all of it into one
//! immutable session value.
pub mod channel;
pub mod data;
pub mod eval;
pub mod session;
