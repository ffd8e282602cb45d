//! Verified core of an HTTP benchmarking engine.
//!
//! Given a list of HTTP requests, each with a method, URL, optional body,
//! optional timeout and optional scheduled start time, the engine dispatches
//! them at a configurable concurrency level, records one result per request,
//! and computes aggregate summaries and one-second time-series buckets.
//!
//! This crate holds the logic: the scheduled priority queue, the worker
//! decision functions, the connection-pool bookkeeping, result recording,
//! the statistics, and the result list's JSON form with its round-trip
//! theorem. The surrounding I/O (sockets, files, the CLI) lives in the
//! companion binary, which drives these functions and performs the actions
//! they decide on.

pub mod error;
pub mod json;
pub mod pool;
pub mod queue;
pub mod request;
pub mod run;
pub mod summary;
pub mod time;
pub mod time_series;
