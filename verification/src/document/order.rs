//! The insert-after ordering structure: a mapping `after-id -> next-id`
//! forming per-list singly-linked chains rooted at the list's own id.  Each
//! node has at most one outgoing edge by construction; with fresh insertion
//! ids no node gains more than one incoming edge either (see
//! [`Order::insert_after`]), so the chains neither branch nor join.

use vstd::prelude::*;

use crate::timestamp::Timestamp;
use crate::tsmap::TsMap;

verus! {

#[derive(Debug, PartialEq)]
pub struct Order {
    pub ordering: TsMap<Timestamp>,
}

/// No ordering target has more than one incoming pointer.
pub open spec fn no_duplicate_targets(m: Map<Timestamp, Timestamp>) -> bool {
    forall|a: Timestamp, b: Timestamp|
        m.dom().contains(a) && m.dom().contains(b) && a != b ==> m[a] != m[b]
}

/// `op_id` is new to the structure: not a source, not a target, and not
/// the node it is being inserted after.
pub open spec fn spec_fresh_for(
    m: Map<Timestamp, Timestamp>,
    op_id: Timestamp,
    after: Timestamp,
) -> bool {
    &&& no_duplicate_targets(m)
    &&& !m.dom().contains(op_id)
    &&& op_id != after
    &&& forall|k: Timestamp| m.dom().contains(k) ==> m[k] != op_id
}

/// The chain read from `m` starting after `start`, cut off at `fuel` links.
pub open spec fn spec_chain(m: Map<Timestamp, Timestamp>, start: Timestamp, fuel: nat) -> Seq<
    Timestamp,
>
    decreases fuel,
{
    if fuel == 0 || !m.dom().contains(start) {
        Seq::empty()
    } else {
        seq![m[start]] + spec_chain(m, m[start], (fuel - 1) as nat)
    }
}

impl Order {
    pub open spec fn wf(&self) -> bool {
        self.ordering.wf()
    }

    pub fn new() -> (r: Self)
        ensures
            r.wf(),
            r.ordering@ == Map::<Timestamp, Timestamp>::empty(),
    {
        Order { ordering: TsMap::new() }
    }

    /// Link `op_id` in directly after `after`.  If `after` already had a
    /// successor, that successor now follows `op_id`, so the chain stays a
    /// chain.  When `op_id` is fresh (neither a source nor a target yet),
    /// the no-duplicate-targets property is preserved.
    pub fn insert_after(&mut self, op_id: Timestamp, after: Timestamp)
        requires
            old(self).wf(),
        ensures
            final(self).wf(),
            (old(self).ordering@.dom().contains(after) ==> final(self).ordering@ == old(
                self,
            ).ordering@.insert(after, op_id).insert(op_id, old(self).ordering@[after])),
            (!old(self).ordering@.dom().contains(after) ==> final(self).ordering@ == old(
                self,
            ).ordering@.insert(after, op_id)),
            (spec_fresh_for(old(self).ordering@, op_id, after) ==> no_duplicate_targets(
                final(self).ordering@,
            )),
    {
        let ghost pre = self.ordering@;
        match self.ordering.insert(after, op_id) {
            Some(previous) => {
                self.ordering.insert(op_id, previous);
                proof {
                    if spec_fresh_for(pre, op_id, after) {
                        let m2 = self.ordering@;
                        assert forall|a: Timestamp, b: Timestamp|
                            m2.dom().contains(a) && m2.dom().contains(b) && a != b implies m2[a]
                            != m2[b] by {
                            if a == op_id || b == op_id {
                                let other = if a == op_id {
                                    b
                                } else {
                                    a
                                };
                                if m2[other] == previous {
                                    assert(pre.dom().contains(other) && other != after ==> pre[other]
                                        == previous && pre[after] == previous);
                                }
                            }
                        }
                    }
                }
            },
            None => {
                proof {
                    if spec_fresh_for(pre, op_id, after) {
                        let m2 = self.ordering@;
                        assert forall|a: Timestamp, b: Timestamp|
                            m2.dom().contains(a) && m2.dom().contains(b) && a != b implies m2[a]
                            != m2[b] by {}
                    }
                }
            },
        }
    }

    /// The items that follow `start`, in chain order.  The walk is cut off
    /// after as many links as the structure holds, which is enough to cover
    /// any chain without revisiting a node.
    pub fn iter(&self, start: Timestamp) -> (r: Vec<Timestamp>)
        requires
            self.wf(),
        ensures
            r@ == spec_chain(self.ordering@, start, self.ordering.entries@.len() as nat),
    {
        let fuel = self.ordering.len();
        self.iter_from(start, fuel)
    }

    fn iter_from(&self, cur: Timestamp, fuel: usize) -> (r: Vec<Timestamp>)
        requires
            self.wf(),
        ensures
            r@ == spec_chain(self.ordering@, cur, fuel as nat),
        decreases fuel,
    {
        if fuel == 0 {
            return Vec::new();
        }
        match self.ordering.get(cur) {
            None => Vec::new(),
            Some(next) => {
                let next = *next;
                let mut rest = self.iter_from(next, fuel - 1);
                let mut out: Vec<Timestamp> = Vec::new();
                out.push(next);
                out.append(&mut rest);
                proof {
                    assert(out@ =~= seq![next] + spec_chain(
                        self.ordering@,
                        next,
                        (fuel - 1) as nat,
                    ));
                }
                out
            },
        }
    }
}

/// Iteration matches insertion: when the ordering is exactly the linear
/// chain `vs[0] -> vs[1] -> ... -> vs[n-1]` over distinct ids — the shape
/// that successive fresh `insert_after` calls build — walking from `vs[i]`
/// yields precisely the ids that were inserted after it, in order.
pub proof fn lemma_chain_linear(
    m: Map<Timestamp, Timestamp>,
    vs: Seq<Timestamp>,
    i: int,
    fuel: nat,
)
    requires
        0 <= i < vs.len(),
        forall|x: int, y: int| 0 <= x < y < vs.len() ==> vs[x] != vs[y],
        forall|k: Timestamp|
            #[trigger] m.dom().contains(k) <==> exists|j: int|
                0 <= j < vs.len() - 1 && vs[j] == k,
        forall|j: int| 0 <= j < vs.len() - 1 ==> m[#[trigger] vs[j]] == vs[j + 1],
        fuel >= vs.len() - 1 - i,
    ensures
        spec_chain(m, vs[i], fuel) == vs.skip(i + 1),
    decreases vs.len() - i,
{
    if i == vs.len() - 1 {
        assert(!m.dom().contains(vs[i])) by {
            if m.dom().contains(vs[i]) {
                let j = choose|j: int| 0 <= j < vs.len() - 1 && vs[j] == vs[i];
                assert(vs[j] == vs[i] && j != i);
            }
        }
        assert(spec_chain(m, vs[i], fuel) =~= vs.skip(i + 1));
    } else {
        assert(m.dom().contains(vs[i])) by {
            assert(vs[i] == vs[i]);
        }
        assert(m[vs[i]] == vs[i + 1]);
        lemma_chain_linear(m, vs, i + 1, (fuel - 1) as nat);
        assert(spec_chain(m, vs[i], fuel) =~= vs.skip(i + 1));
    }
}

} // verus!
