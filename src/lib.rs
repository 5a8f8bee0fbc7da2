//! Watcher core for store appointment availability: the polled data model,
//! the summary formatter, the per-cycle collector, the poll scheduler's
//! decision logic and the source configuration.

pub mod config;
pub mod cycle;
pub mod report;
pub mod scheduler;

use vstd::prelude::*;

verus! {

/// Shared data handed to the chat framework's handlers; the watcher keeps
/// none.
#[derive(Debug)]
pub struct Data {}

} // verus!
