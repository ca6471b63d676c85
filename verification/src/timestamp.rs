//! Operation timestamps for the document model: a Lamport-style counter paired
//! with the 128-bit identifier of the node that issued the operation.  The
//! ordering is by counter first, node second, which the derived lexicographic
//! ordering on the fields provides.

use vstd::prelude::*;
use vstd::string::StringExecFns;

use crate::pointer::{spec_dec, spec_hex, u128_to_hex, u64_to_dec};

verus! {

/// The hyphenated textual form of a 128-bit node identifier: its 32
/// lowercase hexadecimal digits, most significant first, in groups of
/// 8-4-4-4-12 separated by hyphens.
pub open spec fn spec_uuid_hyphenated(n: u128) -> Seq<char> {
    spec_hex(n / 0x1000000000000000000000000, 8) + "-"@ + spec_hex(
        n / 0x100000000000000000000,
        4,
    ) + "-"@ + spec_hex(n / 0x10000000000000000, 4) + "-"@ + spec_hex(n / 0x1000000000000, 4)
        + "-"@ + spec_hex(n, 12)
}

/// Render a 128-bit node identifier in its hyphenated form.
pub fn uuid_hyphenated(n: u128) -> (r: String)
    ensures
        r@ == spec_uuid_hyphenated(n),
{
    u128_to_hex(n / 0x1000000000000000000000000, 8).concat("-").concat(
        u128_to_hex(n / 0x100000000000000000000, 4).as_str(),
    ).concat("-").concat(u128_to_hex(n / 0x10000000000000000, 4).as_str()).concat("-").concat(
        u128_to_hex(n / 0x1000000000000, 4).as_str(),
    ).concat("-").concat(u128_to_hex(n, 12).as_str())
}

#[derive(Debug, Clone, Copy, PartialEq, Eq, Structural, PartialOrd, Ord, Hash)]
pub struct Timestamp {
    pub counter: u64,
    pub node: u128,
}

impl View for Timestamp {
    type V = Timestamp;

    open spec fn view(&self) -> Timestamp {
        *self
    }
}

impl Timestamp {
    pub fn new(counter: u64, node: u128) -> (r: Self)
        ensures
            r.counter == counter,
            r.node == node,
    {
        Self { counter, node }
    }

    /// The textual form `"{counter}@{node}"`, with the node rendered in its
    /// hyphenated form.
    pub fn to_display_string(&self) -> (r: String)
        ensures
            r@ == spec_dec(self.counter) + "@"@ + spec_uuid_hyphenated(self.node),
    {
        u64_to_dec(self.counter).concat("@").concat(uuid_hyphenated(self.node).as_str())
    }
}

} // verus!
