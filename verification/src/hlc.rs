//! A Hybrid Logical Clock packed into a single `u64`: the high 32 bits hold a
//! wall-clock timestamp in seconds, the middle 16 bits a logical counter, and
//! the low 16 bits a node identifier.  The natural `u64` ordering therefore
//! matches the lexicographic ordering on (timestamp, counter, node).

use vstd::prelude::*;

verus! {

pub const TIMESTAMP_BITS: u32 = 32;
pub const TIMESTAMP_MASK: u64 = !((u32::MAX as u64) << TIMESTAMP_BITS);

pub const COUNTER_BITS: u32 = 16;
pub const COUNTER_MASK: u64 = !((u16::MAX as u64) << COUNTER_BITS);

pub const NODE_BITS: u32 = 16;
pub const NODE_MASK: u64 = !(u16::MAX as u64);

#[derive(Debug, PartialEq, Eq, Structural, PartialOrd, Ord, Clone, Copy, Hash)]
pub struct Hlc(u64);

impl View for Hlc {
    type V = u64;

    closed spec fn view(&self) -> u64 {
        self.0
    }
}

impl Hlc {
    /// The wall-clock part of the packed value.
    pub open spec fn spec_timestamp(&self) -> u32 {
        (self@ >> 32) as u32
    }

    /// The logical-counter part of the packed value.
    pub open spec fn spec_counter(&self) -> u16 {
        (self@ >> 16) as u16
    }

    /// The node-identifier part of the packed value.
    pub open spec fn spec_node(&self) -> u16 {
        self@ as u16
    }

    pub fn new_at(timestamp: u32, counter: u16, node: u16) -> (r: Self)
        ensures
            r@ == ((timestamp as u64) << 32) | ((counter as u64) << 16) | (node as u64),
            r.spec_timestamp() == timestamp,
            r.spec_counter() == counter,
            r.spec_node() == node,
    {
        let mut out: u64 = 0;

        out |= timestamp as u64;

        out <<= COUNTER_BITS;
        out |= counter as u64;

        out <<= NODE_BITS;
        out |= node as u64;

        proof {
            let t = timestamp;
            let c = counter;
            let n = node;
            assert((((((0u64 | (t as u64)) << 16) | (c as u64)) << 16) | (n as u64)) == (((
            t as u64) << 32) | ((c as u64) << 16) | (n as u64))) by (bit_vector);
            assert({
                let r = ((t as u64) << 32) | ((c as u64) << 16) | (n as u64);
                ((r >> 32) as u32 == t) && ((r >> 16) as u16 == c) && (r as u16 == n)
            }) by (bit_vector);
        }

        Self(out)
    }

    pub fn zero() -> (r: Self)
        ensures
            r@ == 0,
    {
        Self(0)
    }

    /// The packed value as a plain integer.
    pub fn as_u64(&self) -> (r: u64)
        ensures
            r == self@,
    {
        self.0
    }

    /// Advance the clock given a fresh wall-clock reading.  If time appears to
    /// have moved backwards (or stood still), the counter is incremented
    /// instead; a counter overflow carries into the timestamp, which is
    /// acceptable because the timestamp is only approximate anyway.
    pub fn next(&self, new_timestamp: u32) -> (r: Self)
        requires
            new_timestamp <= self.spec_timestamp() ==> self@ + 0x1_0000 <= u64::MAX,
        ensures
            r@ > self@,
            r.spec_node() == self.spec_node(),
            new_timestamp <= self.spec_timestamp() ==> r@ == self@ + 0x1_0000,
            new_timestamp > self.spec_timestamp() ==> {
                &&& r.spec_timestamp() == new_timestamp
                &&& r.spec_counter() == 0
            },
    {
        if new_timestamp <= self.timestamp() {
            proof {
                assert((1u64 << 16) == 0x1_0000) by (bit_vector);
                assert(self@ + 0x1_0000 <= u64::MAX);
                let v = self@;
                assert(v + 0x1_0000 <= u64::MAX ==> ((v + 0x1_0000) as u64) as u16 == v as u16)
                    by (bit_vector);
            }
            Hlc(self.0 + (1u64 << COUNTER_BITS))
        } else {
            proof {
                let v = self@;
                let w = new_timestamp;
                assert(w > (v >> 32) as u32 ==> {
                    let r = v & TIMESTAMP_MASK & COUNTER_MASK | ((w as u64) << 32);
                    &&& r > v
                    &&& (r >> 32) as u32 == w
                    &&& (r >> 16) as u16 == 0
                    &&& r as u16 == v as u16
                }) by (bit_vector);
            }
            Hlc(self.0 & TIMESTAMP_MASK & COUNTER_MASK | ((new_timestamp as u64) << 32))
        }
    }

    /// Replace the node identifier in the low 16 bits.
    pub fn set_node(&self, new_node: u16) -> (r: Self)
        ensures
            r.spec_timestamp() == self.spec_timestamp(),
            r.spec_counter() == self.spec_counter(),
            r.spec_node() == new_node,
    {
        proof {
            let v = self@;
            let n = new_node;
            assert({
                let r = v & NODE_MASK | (n as u64);
                &&& (r >> 32) as u32 == (v >> 32) as u32
                &&& (r >> 16) as u16 == (v >> 16) as u16
                &&& r as u16 == n
            }) by (bit_vector);
        }
        Self(self.0 & NODE_MASK | new_node as u64)
    }

    #[inline]
    pub fn timestamp(&self) -> (r: u32)
        ensures
            r == self.spec_timestamp(),
    {
        (self.0 >> TIMESTAMP_BITS) as u32
    }

    #[inline]
    pub fn counter(&self) -> (r: u16)
        ensures
            r == self.spec_counter(),
    {
        (self.0 >> COUNTER_BITS) as u16
    }

    #[inline]
    pub fn node(&self) -> (r: u16)
        ensures
            r == self.spec_node(),
    {
        self.0 as u16
    }

    /// Whether this clock reads strictly later than `other`.
    pub fn is_after(&self, other: &Hlc) -> (r: bool)
        ensures
            r == (self@ > other@),
    {
        self.0 > other.0
    }
}

} // verus!
