//! Processing engine configuration: how many dealers a run may schedule.
//!
//! Wiring the dealers, the record source and the output up is runtime
//! plumbing and lives outside the library; the decisions they take are the
//! verified functions of [`crate::models`].

use vstd::prelude::*;

verus! {

/// Processing engine. Holds the amount of dealer threads a run schedules.
pub struct Engine {
    pub thread_count: u8,
}

impl Engine {
    /// Creates a new instance.
    pub fn new(thread_count: u8) -> (r: Self)
        ensures
            r.thread_count == thread_count,
    {
        Self { thread_count }
    }
}

} // verus!
