//! The node adapter: small pieces of node-specific state (an identifier and
//! the highest clock seen) that a client persists across restarts.

use vstd::prelude::*;

use crate::hlc::Hlc;

verus! {

/// Node-local identity and clock cache.  Implementations are expected to
/// persist on write and to regenerate missing data; a received clock is kept
/// only if it reads later than the cached one.
pub trait Node: Sized {
    /// The cached clock, as the specification sees it.
    spec fn spec_clock(&self) -> Hlc;

    /// This node's identifier.
    fn node_id(&self) -> u16;

    /// The highest cached clock.
    fn clock(&self) -> (r: Hlc)
        ensures
            r == self.spec_clock(),
    ;

    /// Keep `clock` if it reads later than the cached one; the cache never
    /// moves backwards.
    fn receive_clock(&mut self, clock: Hlc)
        ensures
            final(self).spec_clock()@ >= old(self).spec_clock()@,
            final(self).spec_clock()@ >= clock@,
    ;
}

/// A node that keeps its identity and clock in memory only.
#[derive(Debug, PartialEq, Eq, Structural, Clone, Copy)]
pub struct MemoryNode {
    pub id: u16,
    pub clock: Hlc,
}

impl MemoryNode {
    pub fn new(id: u16) -> (r: Self)
        ensures
            r.id == id,
            r.clock.spec_timestamp() == 0,
            r.clock.spec_counter() == 0,
            r.clock.spec_node() == id,
    {
        Self { id, clock: Hlc::new_at(0, 0, id) }
    }
}

impl Node for MemoryNode {
    open spec fn spec_clock(&self) -> Hlc {
        self.clock
    }

    fn node_id(&self) -> (r: u16)
        ensures
            r == self.id,
    {
        self.id
    }

    fn clock(&self) -> Hlc {
        self.clock
    }

    fn receive_clock(&mut self, clock: Hlc)
        ensures
            final(self).id == old(self).id,
            final(self).clock == if clock@ > old(self).clock@ {
                clock
            } else {
                old(self).clock
            },
    {
        if clock.is_after(&self.clock) {
            self.clock = clock;
        }
    }
}

} // verus!
