//! Change subscriptions: per document, a table of numbered callbacks.  The
//! subscription counter only grows, so every subscription id is unique for
//! the lifetime of the table.

use vstd::prelude::*;

verus! {

#[derive(Debug, PartialEq)]
pub struct Subscriptions<Callback> {
    pub subscriptions: Vec<(u128, Vec<(usize, Callback)>)>,
    pub next_id: usize,
}

impl<Callback> Default for Subscriptions<Callback> {
    /// An empty table.
    fn default() -> (r: Self)
        ensures
            r.wf(),
            r.subscriptions@.len() == 0,
            r.next_id == 0,
    {
        Subscriptions::new()
    }
}

impl<Callback> Subscriptions<Callback> {
    /// Each document appears at most once in the table.
    pub open spec fn wf(&self) -> bool {
        forall|i: int, j: int|
            0 <= i < j < self.subscriptions@.len() ==> self.subscriptions@[i].0
                != self.subscriptions@[j].0
    }

    pub fn new() -> (r: Self)
        ensures
            r.wf(),
            r.subscriptions@.len() == 0,
            r.next_id == 0,
    {
        Subscriptions { subscriptions: Vec::new(), next_id: 0 }
    }

    /// Register `cb` for changes of the document `doc`, returning the
    /// subscription id to later unsubscribe with.
    pub fn subscribe(&mut self, doc: u128, cb: Callback) -> (r: usize)
        requires
            old(self).wf(),
            old(self).next_id < usize::MAX,
        ensures
            final(self).wf(),
            r == old(self).next_id,
            final(self).next_id == old(self).next_id + 1,
            (exists|i: int|
                0 <= i < old(self).subscriptions@.len() && (
                #[trigger] old(self).subscriptions@[i]).0 == doc) ==> {
                let i = choose|i: int|
                    0 <= i < old(self).subscriptions@.len() && (
                    #[trigger] old(self).subscriptions@[i]).0 == doc;
                &&& final(self).subscriptions@.len() == old(self).subscriptions@.len()
                &&& (forall|j: int|
                    0 <= j < old(self).subscriptions@.len() && j != i
                        ==> #[trigger] final(self).subscriptions@[j] == old(
                        self,
                    ).subscriptions@[j])
                &&& final(self).subscriptions@[i].0 == doc
                &&& final(self).subscriptions@[i].1@ == old(self).subscriptions@[i].1@.push(
                    (r, cb),
                )
            },
            (forall|i: int|
                0 <= i < old(self).subscriptions@.len() ==> (
                #[trigger] old(self).subscriptions@[i]).0 != doc) ==> {
                &&& final(self).subscriptions@.len() == old(self).subscriptions@.len() + 1
                &&& final(self).subscriptions@.take(old(self).subscriptions@.len() as int) == old(
                    self,
                ).subscriptions@
                &&& final(self).subscriptions@.last().0 == doc
                &&& final(self).subscriptions@.last().1@ == seq![(r, cb)]
            },
    {
        let id = self.next_id;
        let n = self.subscriptions.len();
        let mut i: usize = 0;
        while i < n
            invariant
                n == self.subscriptions@.len(),
                i <= n,
                id == old(self).next_id,
                old(self).next_id < usize::MAX,
                old(self).wf(),
                self.next_id == old(self).next_id,
                self.subscriptions == old(self).subscriptions,
                forall|j: int| 0 <= j < i ==> (#[trigger] self.subscriptions@[j]).0 != doc,
            decreases n - i,
        {
            if self.subscriptions[i].0 == doc {
                let ghost pre = self.subscriptions@;
                let (d, mut cbs) = self.subscriptions.remove(i);
                let ghost cbs_pre = cbs@;
                cbs.push((id, cb));
                self.subscriptions.insert(i, (d, cbs));
                self.next_id = self.next_id + 1;
                proof {
                    let k = choose|k: int|
                        0 <= k < pre.len() && (#[trigger] pre[k]).0 == doc;
                    assert(k == i);
                    assert forall|x: int, y: int|
                        0 <= x < y < self.subscriptions@.len() implies self.subscriptions@[x].0
                        != self.subscriptions@[y].0 by {
                        assert(self.subscriptions@[x].0 == pre[x].0);
                        assert(self.subscriptions@[y].0 == pre[y].0);
                    }
                    assert(self.subscriptions@.len() == pre.len());
                    assert forall|j: int|
                        0 <= j < pre.len() && j != k implies #[trigger] self.subscriptions@[j]
                        == pre[j] by {}
                    assert(self.subscriptions@[i as int].1@ =~= pre[i as int].1@.push((id, cb)));
                }
                return id;
            }
            i += 1;
        }
        self.subscriptions.push((doc, vec![(id, cb)]));
        self.next_id = self.next_id + 1;
        proof {
            assert(self.subscriptions@.take(old(self).subscriptions@.len() as int) =~= old(
                self,
            ).subscriptions@);
            assert(self.subscriptions@.last().1@ =~= seq![(id, cb)]);
            assert forall|x: int, y: int|
                0 <= x < y < self.subscriptions@.len() implies self.subscriptions@[x].0
                != self.subscriptions@[y].0 by {
                if y < old(self).subscriptions@.len() {
                    assert(self.subscriptions@[x] == old(self).subscriptions@[x]);
                    assert(self.subscriptions@[y] == old(self).subscriptions@[y]);
                } else {
                    assert(self.subscriptions@[x] == old(self).subscriptions@[x]);
                    assert(self.subscriptions@[y].0 == doc);
                }
            }
        }
        id
    }

    /// Withdraw the subscription `sub` from every document it may be
    /// registered under.
    pub fn unsubscribe(&mut self, sub: usize)
        ensures
            old(self).wf() ==> final(self).wf(),
            final(self).next_id == old(self).next_id,
            final(self).subscriptions@.len() == old(self).subscriptions@.len(),
            forall|i: int|
                0 <= i < old(self).subscriptions@.len() ==> {
                    &&& (#[trigger] final(self).subscriptions@[i]).0 == old(
                        self,
                    ).subscriptions@[i].0
                    &&& final(self).subscriptions@[i].1@ == old(
                        self,
                    ).subscriptions@[i].1@.filter(|p: (usize, Callback)| p.0 != sub)
                },
    {
        let n = self.subscriptions.len();
        let mut i: usize = 0;
        while i < n
            invariant
                n == self.subscriptions@.len(),
                i <= n,
                self.next_id == old(self).next_id,
                self.subscriptions@.len() == old(self).subscriptions@.len(),
                forall|j: int|
                    i <= j < n ==> #[trigger] self.subscriptions@[j] == old(
                        self,
                    ).subscriptions@[j],
                forall|j: int|
                    0 <= j < i ==> {
                        &&& (#[trigger] self.subscriptions@[j]).0 == old(self).subscriptions@[j].0
                        &&& self.subscriptions@[j].1@ == old(self).subscriptions@[j].1@.filter(
                            |p: (usize, Callback)| p.0 != sub,
                        )
                    },
            decreases n - i,
        {
            let ghost pre = self.subscriptions@;
            let (d, cbs) = self.subscriptions.remove(i);
            let kept = retain_others(cbs, sub);
            self.subscriptions.insert(i, (d, kept));
            proof {
                assert(self.subscriptions@ =~= pre.update(i as int, self.subscriptions@[i as int]));
                assert forall|j: int|
                    i + 1 <= j < n implies #[trigger] self.subscriptions@[j] == old(
                    self,
                ).subscriptions@[j] by {
                    assert(self.subscriptions@[j] == pre[j]);
                }
            }
            i += 1;
        }
    }
}

/// The pairs of `cbs` whose id is not `sub`, in order.
fn retain_others<Callback>(cbs: Vec<(usize, Callback)>, sub: usize) -> (r: Vec<(usize, Callback)>)
    ensures
        r@ == cbs@.filter(|p: (usize, Callback)| p.0 != sub),
{
    let ghost all = cbs@;
    let mut cbs = cbs;
    let mut out: Vec<(usize, Callback)> = Vec::new();
    let n = cbs.len();
    let mut i: usize = 0;
    proof {
        reveal(Seq::filter);
        assert(all.take(0).filter(|p: (usize, Callback)| p.0 != sub) =~= out@);
    }
    while i < n
        invariant
            n == all.len(),
            i <= n,
            cbs@ == all.skip(i as int),
            out@ == all.take(i as int).filter(|p: (usize, Callback)| p.0 != sub),
        decreases n - i,
    {
        let ghost pre = out@;
        let item = cbs.remove(0);
        proof {
            assert(all.skip(i as int)[0] == all[i as int]);
            assert(all.skip(i as int).remove(0) =~= all.skip(i as int + 1));
        }
        if item.0 != sub {
            out.push(item);
        }
        proof {
            reveal(Seq::filter);
            let next = all.take(i as int + 1);
            assert(next.drop_last() =~= all.take(i as int));
            assert(next.last() == all[i as int]);
            if all[i as int].0 != sub {
                assert(out@ =~= pre.push(all[i as int]));
            } else {
                assert(out@ =~= pre);
            }
        }
        i += 1;
    }
    proof {
        assert(all.take(n as int) =~= all);
    }
    out
}

} // verus!
