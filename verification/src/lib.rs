//! Ingestion core of a multi-source telemetry pipeline.
//!
//! Incoming per-station messages are demultiplexed into per-station buffers
//! kept strictly sorted by creation time, and a grouper periodically drains
//! the oldest buffered message of every station into a time-aligned group.
//! This crate holds the buffering, ordering and grouping logic; the async
//! plumbing around it (streams, timers, channels) lives with the caller.

pub mod buffer;
pub mod message;
pub mod store;
