use vstd::prelude::*;
use crate::value::Value;

verus! {

/// A batch of records dropped because deduplication found them in its
/// cache. The surrounding pipeline logs the drop and bumps its
/// events-discarded counter; the amount to add is computed here.
#[derive(Debug)]
pub struct DedupeEventsDropped<const N: usize> {
    pub events: [Value; N],
}

impl<const N: usize> DedupeEventsDropped<N> {
    /// How many events the drop discards: what the pipeline's
    /// events-discarded counter is incremented by.
    pub fn discarded_count(&self) -> (n: usize)
        ensures
            n == N,
    {
        self.events.len()
    }
}

} // verus!
