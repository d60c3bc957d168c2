//! A tick-driven simulation core built around two verified components:
//! a bounded, rotating telemetry log with windowed analytics, and a
//! single-delivery rendezvous cell for deferred subsystem initialization.
//!
//! The log stores structured snapshots (flat field/value records), mirrors
//! them to a newline-delimited backing file through explicit I/O effects,
//! and answers windowed average and trend queries exactly, in fixed-point
//! arithmetic. The rendezvous cell wraps a oneshot channel and guarantees
//! that a background result is observed at most once.

pub mod codec;
pub mod memory;
pub mod rendezvous;
pub mod snapshot;
