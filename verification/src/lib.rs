//! Dependency-aware task execution with TAP version 14 reporting.
//!
//! Given a set of requested tasks and a dependency graph, this library
//! builds a deduplicated, dependency-ordered execution plan, tracks each
//! task through an explicit lifecycle (pending, running, passed, failed,
//! skipped) with failure propagation, and serializes every completed task
//! as a TAP test point with structured diagnostics.  Running the task
//! commands themselves and writing the stream to an output device are left
//! to the caller.

pub mod format;
pub mod plan;
pub mod run;
pub mod tap;
pub mod text;
pub mod tools;

