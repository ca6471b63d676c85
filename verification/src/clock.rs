//! The clock adapter: one method handing the store a wall-clock reading in
//! seconds, used to feed the hybrid logical clock.

use vstd::prelude::*;

verus! {

/// A source of wall-clock seconds.  Nothing is promised of the reading:
/// callers must cope with a clock that stands still or runs backwards.
pub trait Clock {
    fn unix_timestamp(&self) -> u32;
}

/// A clock that always reads the same instant, for deterministic runs.
#[derive(Debug, Clone, Copy, PartialEq, Eq, Structural)]
pub struct FixedClock {
    pub now: u32,
}

impl Clock for FixedClock {
    fn unix_timestamp(&self) -> u32 {
        self.now
    }
}

} // verus!
