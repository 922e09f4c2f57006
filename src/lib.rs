//! Replay of a simulation event log and reconstruction of activity episodes.
//!
//! * `registry`: interning of external string identifiers into compact handles.
//! * `event`: the typed events that a log holds.
//! * `shards`: merging of time-ordered shards into one stream.
//! * `bus`: routing of events to subscribers and of the final flush.
//! * `handler`: the per-person reducer that turns events into activity summaries.
//! * `table`: the whole analysis of a sharded log, and its rows with names resolved.
pub mod bus;
pub mod event;
pub mod handler;
pub mod registry;
pub mod shards;
pub mod table;
