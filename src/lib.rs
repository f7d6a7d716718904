//! A bounded-concurrency fetch, aggregate and persist pipeline.
//!
//! The library holds the decisions of the pipeline: which job keys exist,
//! how a key is rendered, which job may start under the concurrency cap, what
//! the aggregate of results holds after every completion, and the snapshot
//! text that is persisted after each successful insert. Network calls, file
//! writes and the task runtime are driven from outside through these types.
use vstd::prelude::*;

pub mod keys;
pub mod keymap;
pub mod job_source;
pub mod results;
pub mod aggregate;
pub mod dispatcher;
pub mod config;
