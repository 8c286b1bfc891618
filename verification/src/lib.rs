//! A bounded-concurrency scan-and-aggregate engine for a directory of
//! network service endpoints.
//!
//! The library models the endpoint directory, drives a scan of all entries
//! under a fixed concurrency ceiling, records one outcome per entry whether
//! the probe succeeded or failed, folds the outcomes into a
//! language-coverage report, and round-trips scan results through a
//! persisted text format.

pub mod model;
pub mod order;
pub mod probe;
pub mod scan;
pub mod aggregate;
pub mod codec;
pub mod render;
