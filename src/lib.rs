//! An in-memory task scheduler: tasks are ordered by priority class, dispatched
//! one attempt at a time, and retried with exponential backoff up to a bound.
use vstd::prelude::*;

pub mod laws;
pub mod priority_queue;
pub mod types;

verus! {

} // verus!
