//! Per-key multi-value registers.  For each assignment key the register
//! holds the currently-winning entries as a mapping from the id of the
//! assign operation to the id of the value it set.  Concurrent assignments
//! that knew nothing of one another therefore coexist until one of them is
//! named in a later operation's `prev` set.

use vstd::prelude::*;

use super::operation::{AssignKey, AssignKeyV};
use crate::strmap::{char_seq_lt, lemma_char_seq_lt_irrefl, lemma_char_seq_lt_total};
use crate::timestamp::Timestamp;
use crate::tsmap::TsMap;

verus! {

/// Strict order on assignment keys: map keys in character order, then list
/// position markers in timestamp order.
pub open spec fn assign_key_lt(a: AssignKeyV, b: AssignKeyV) -> bool {
    match (a, b) {
        (AssignKeyV::MapKey(x), AssignKeyV::MapKey(y)) => char_seq_lt(x, y),
        (AssignKeyV::MapKey(_), AssignKeyV::InsertAfter(_)) => true,
        (AssignKeyV::InsertAfter(_), AssignKeyV::MapKey(_)) => false,
        (AssignKeyV::InsertAfter(x), AssignKeyV::InsertAfter(y)) => x.counter < y.counter || (
        x.counter == y.counter && x.node < y.node),
    }
}

/// Distinct assignment keys are strictly ordered one way or the other.
pub proof fn lemma_assign_key_lt_total(a: AssignKeyV, b: AssignKeyV)
    requires
        a != b,
    ensures
        assign_key_lt(a, b) != assign_key_lt(b, a),
{
    match (a, b) {
        (AssignKeyV::MapKey(x), AssignKeyV::MapKey(y)) => {
            lemma_char_seq_lt_total(x, y);
        },
        _ => {},
    }
}

/// No assignment key orders before itself.
pub proof fn lemma_assign_key_lt_irrefl(a: AssignKeyV)
    ensures
        !assign_key_lt(a, a),
{
    match a {
        AssignKeyV::MapKey(x) => {
            lemma_char_seq_lt_irrefl(x);
        },
        _ => {},
    }
}

/// Whether `a` orders strictly before `b`.
fn key_lt(a: &AssignKey, b: &AssignKey) -> (r: bool)
    ensures
        r == assign_key_lt(a@, b@),
{
    match (a, b) {
        (AssignKey::MapKey(x), AssignKey::MapKey(y)) => crate::strmap::str_lt(
            x.as_str(),
            y.as_str(),
        ),
        (AssignKey::MapKey(_), AssignKey::InsertAfter(_)) => true,
        (AssignKey::InsertAfter(_), AssignKey::MapKey(_)) => false,
        (AssignKey::InsertAfter(x), AssignKey::InsertAfter(y)) => x.counter < y.counter || (
        x.counter == y.counter && x.node < y.node),
    }
}

/// A register: assign-op id to value id.
pub type Register = TsMap<Timestamp>;

/// The register table of one object, keyed by assignment key.
#[derive(Debug, PartialEq)]
pub struct Assign {
    pub entries: Vec<(AssignKey, Register)>,
}

/// The map described by the register list.
pub open spec fn reg_assoc_view(s: Seq<(AssignKey, Register)>) -> Map<
    AssignKeyV,
    Map<Timestamp, Timestamp>,
>
    decreases s.len(),
{
    if s.len() == 0 {
        Map::empty()
    } else {
        reg_assoc_view(s.drop_last()).insert(s.last().0@, s.last().1@)
    }
}

impl View for Assign {
    type V = Map<AssignKeyV, Map<Timestamp, Timestamp>>;

    open spec fn view(&self) -> Map<AssignKeyV, Map<Timestamp, Timestamp>> {
        reg_assoc_view(self.entries@)
    }
}

/// A key is in the register table exactly when some entry holds it.
proof fn lemma_reg_view_dom(s: Seq<(AssignKey, Register)>)
    ensures
        forall|k: AssignKeyV|
            #[trigger] reg_assoc_view(s).dom().contains(k) <==> exists|i: int|
                0 <= i < s.len() && s[i].0@ == k,
    decreases s.len(),
{
    if s.len() > 0 {
        lemma_reg_view_dom(s.drop_last());
        assert forall|k: AssignKeyV| #[trigger]
            reg_assoc_view(s).dom().contains(k) implies exists|i: int|
            0 <= i < s.len() && s[i].0@ == k by {
            if k == s.last().0@ {
                assert(s[s.len() - 1].0@ == k);
            } else {
                assert(reg_assoc_view(s.drop_last()).dom().contains(k));
                let i = choose|i: int| 0 <= i < s.drop_last().len() && s.drop_last()[i].0@ == k;
                assert(s.drop_last()[i] == s[i]);
                assert(s[i].0@ == k);
            }
        }
        assert forall|k: AssignKeyV|
            (exists|i: int| 0 <= i < s.len() && s[i].0@ == k) implies #[trigger]
            reg_assoc_view(s).dom().contains(k) by {
            let i = choose|i: int| 0 <= i < s.len() && s[i].0@ == k;
            if i < s.len() - 1 {
                assert(s.drop_last()[i].0@ == k);
                assert(reg_assoc_view(s.drop_last()).dom().contains(k));
            } else {
                assert(k == s.last().0@);
            }
        }
    }
}

/// Under unique keys, the table sends each entry's key to that register.
proof fn lemma_reg_view_at(s: Seq<(AssignKey, Register)>, i: int)
    requires
        forall|x: int, y: int| 0 <= x < y < s.len() ==> s[x].0@ != s[y].0@,
        0 <= i < s.len(),
    ensures
        reg_assoc_view(s).dom().contains(s[i].0@),
        reg_assoc_view(s)[s[i].0@] == s[i].1@,
    decreases s.len(),
{
    if i == s.len() - 1 {
    } else {
        assert(forall|x: int, y: int|
            0 <= x < y < s.drop_last().len() ==> s.drop_last()[x].0@ != s.drop_last()[y].0@);
        lemma_reg_view_at(s.drop_last(), i);
        assert(s[i].0@ != s.last().0@);
    }
}

/// Removing the entry at `i` removes exactly its key from the table view.
proof fn lemma_reg_removed(s: Seq<(AssignKey, Register)>, i: int)
    requires
        forall|x: int, y: int| 0 <= x < y < s.len() ==> s[x].0@ != s[y].0@,
        0 <= i < s.len(),
    ensures
        reg_assoc_view(s.remove(i)) == reg_assoc_view(s).remove(s[i].0@),
    decreases s.len(),
{
    lemma_reg_view_dom(s);
    lemma_reg_view_dom(s.remove(i));
    if i == s.len() - 1 {
        assert(s.remove(i) == s.drop_last());
        assert(!reg_assoc_view(s.drop_last()).dom().contains(s[i].0@)) by {
            lemma_reg_view_dom(s.drop_last());
        }
        assert(reg_assoc_view(s.remove(i)) =~= reg_assoc_view(s).remove(s[i].0@));
    } else {
        let t = s.remove(i);
        assert(t.drop_last() == s.drop_last().remove(i));
        assert(t.last() == s.last());
        assert(forall|x: int, y: int|
            0 <= x < y < s.drop_last().len() ==> s.drop_last()[x].0@ != s.drop_last()[y].0@);
        lemma_reg_removed(s.drop_last(), i);
        assert(s.drop_last()[i] == s[i]);
        assert(s[i].0@ != s.last().0@);
        assert(reg_assoc_view(t) == reg_assoc_view(t.drop_last()).insert(t.last().0@, t.last().1@));
        assert(reg_assoc_view(t) =~= reg_assoc_view(s).remove(s[i].0@));
    }
}

/// The register that `key` holds in `a`, or the empty register.
pub open spec fn spec_register(
    a: Map<AssignKeyV, Map<Timestamp, Timestamp>>,
    key: AssignKeyV,
) -> Map<Timestamp, Timestamp> {
    if a.dom().contains(key) {
        a[key]
    } else {
        Map::empty()
    }
}

/// What an assignment does to a register: the ids named in `prev` lose,
/// then the new entry wins alongside whatever remains.
pub open spec fn spec_assigned(
    reg: Map<Timestamp, Timestamp>,
    id: Timestamp,
    val: Timestamp,
    prev: Seq<Timestamp>,
) -> Map<Timestamp, Timestamp> {
    reg.remove_keys(prev.to_set()).insert(id, val)
}

/// Extending a taken prefix by one element inserts exactly that element
/// into the prefix's set.
proof fn lemma_take_to_set_step(s: Seq<Timestamp>, i: int)
    requires
        0 <= i < s.len(),
    ensures
        s.take(i + 1).to_set() == s.take(i).to_set().insert(s[i]),
{
    assert forall|t: Timestamp| #[trigger]
        s.take(i + 1).to_set().contains(t) implies s.take(i).to_set().insert(s[i]).contains(t) by {
        assert(s.take(i + 1).contains(t));
        let j = choose|j: int| 0 <= j < s.take(i + 1).len() && #[trigger] s.take(i + 1)[j] == t;
        if j < i {
            assert(s.take(i)[j] == t);
            assert(s.take(i).contains(t));
        }
    }
    assert forall|t: Timestamp| #[trigger]
        s.take(i).to_set().insert(s[i]).contains(t) implies s.take(i + 1).to_set().contains(t) by {
        if s.take(i).to_set().contains(t) {
            assert(s.take(i).contains(t));
            let j = choose|j: int| 0 <= j < s.take(i).len() && #[trigger] s.take(i)[j] == t;
            assert(s.take(i + 1)[j] == t);
        } else {
            assert(s.take(i + 1)[i] == t);
        }
        assert(s.take(i + 1).contains(t));
    }
    assert(s.take(i + 1).to_set() =~= s.take(i).to_set().insert(s[i]));
}

/// The first position whose entry key does not order strictly before `key`;
/// everything before it does.
fn find_pos(entries: &Vec<(AssignKey, Register)>, key: &AssignKey) -> (p: usize)
    ensures
        p <= entries@.len(),
        forall|k: int| 0 <= k < p ==> assign_key_lt((#[trigger] entries@[k]).0@, key@),
        p < entries@.len() ==> !assign_key_lt(entries@[p as int].0@, key@),
{
    let n = entries.len();
    let mut p: usize = 0;
    while p < n
        invariant
            n == entries@.len(),
            p <= n,
            forall|k: int| 0 <= k < p ==> assign_key_lt((#[trigger] entries@[k]).0@, key@),
        decreases n - p,
    {
        if !key_lt(&entries[p].0, key) {
            return p;
        }
        p += 1;
    }
    p
}

/// Strict key order is transitive.
pub proof fn lemma_assign_key_lt_trans(a: AssignKeyV, b: AssignKeyV, c: AssignKeyV)
    requires
        assign_key_lt(a, b),
        assign_key_lt(b, c),
    ensures
        assign_key_lt(a, c),
{
    match (a, b, c) {
        (AssignKeyV::MapKey(x), AssignKeyV::MapKey(y), AssignKeyV::MapKey(z)) => {
            crate::strmap::lemma_char_seq_lt_trans(x, y, z);
        },
        _ => {},
    }
}

/// Inserting an entry with a fresh key at a position keeps the described map
/// one insertion bigger.
proof fn lemma_reg_insert_at(s: Seq<(AssignKey, Register)>, p: int, e: (AssignKey, Register))
    requires
        forall|x: int, y: int| 0 <= x < y < s.len() ==> s[x].0@ != s[y].0@,
        forall|j: int| 0 <= j < s.len() ==> s[j].0@ != e.0@,
        0 <= p <= s.len(),
    ensures
        reg_assoc_view(s.insert(p, e)) == reg_assoc_view(s).insert(e.0@, e.1@),
    decreases s.len(),
{
    let t = s.insert(p, e);
    if p == s.len() {
        assert(t.drop_last() =~= s);
    } else {
        assert(t.drop_last() =~= s.drop_last().insert(p, e));
        assert(t.last() == s.last());
        assert(forall|x: int, y: int|
            0 <= x < y < s.drop_last().len() ==> s.drop_last()[x].0@ != s.drop_last()[y].0@);
        assert(forall|j: int| 0 <= j < s.drop_last().len() ==> s.drop_last()[j].0@ != e.0@);
        lemma_reg_insert_at(s.drop_last(), p, e);
        assert(s[s.len() - 1].0@ != e.0@);
        assert(reg_assoc_view(t) =~= reg_assoc_view(s).insert(e.0@, e.1@));
    }
}

impl Assign {
    /// Keys stand in strictly increasing order (so map keys iterate in name
    /// order) and every register is well formed.
    pub open spec fn wf(&self) -> bool {
        (forall|i: int, j: int|
            0 <= i < j < self.entries@.len() ==> assign_key_lt(
                self.entries@[i].0@,
                self.entries@[j].0@,
            ))
            && forall|i: int| 0 <= i < self.entries@.len() ==> (#[trigger] self.entries@[i]).1.wf()
    }

    /// Sorted keys are in particular pairwise distinct.
    pub proof fn lemma_wf_unique(&self)
        requires
            self.wf(),
        ensures
            forall|i: int, j: int|
                0 <= i < j < self.entries@.len() ==> self.entries@[i].0@ != self.entries@[j].0@,
    {
        assert forall|i: int, j: int|
            0 <= i < j < self.entries@.len() implies self.entries@[i].0@
            != self.entries@[j].0@ by {
            if self.entries@[i].0@ == self.entries@[j].0@ {
                lemma_assign_key_lt_irrefl(self.entries@[i].0@);
            }
        }
    }

    pub fn new() -> (r: Self)
        ensures
            r.wf(),
            r@ == Map::<AssignKeyV, Map<Timestamp, Timestamp>>::empty(),
    {
        Assign { entries: Vec::new() }
    }

    fn index_of(&self, key: &AssignKey) -> (r: Option<usize>)
        ensures
            match r {
                Some(i) => i < self.entries@.len() && self.entries@[i as int].0@ == key@,
                None => forall|j: int| 0 <= j < self.entries@.len() ==> self.entries@[j].0@ != key@,
            },
    {
        let n = self.entries.len();
        let mut i: usize = 0;
        while i < n
            invariant
                n == self.entries@.len(),
                i <= n,
                forall|j: int| 0 <= j < i ==> self.entries@[j].0@ != key@,
            decreases n - i,
        {
            if self.entries[i].0.key_eq(key) {
                return Some(i);
            }
            i += 1;
        }
        None
    }

    /// The register currently at `key`, if any.
    pub fn get<'a>(&'a self, key: &AssignKey) -> (r: Option<&'a Register>)
        requires
            self.wf(),
        ensures
            match r {
                Some(v) => self@.dom().contains(key@) && v@ == self@[key@] && v.wf(),
                None => !self@.dom().contains(key@),
            },
            r matches Some(v) ==> exists|i: int|
                0 <= i < self.entries@.len() && (#[trigger] self.entries@[i]).0@ == key@ && *v
                    == self.entries@[i].1,
    {
        proof {
            self.lemma_wf_unique();
            lemma_reg_view_dom(self.entries@);
        }
        match self.index_of(key) {
            Some(i) => {
                proof {
                    lemma_reg_view_at(self.entries@, i as int);
                }
                Some(&self.entries[i].1)
            },
            None => None,
        }
    }

    /// Record that the operation `id` set `key` to the value `val`,
    /// superseding the operations named in `prev`.
    pub fn assign(&mut self, id: Timestamp, key: AssignKey, val: Timestamp, prev: &Vec<Timestamp>)
        requires
            old(self).wf(),
        ensures
            final(self).wf(),
            final(self)@ == old(self)@.insert(
                key@,
                spec_assigned(spec_register(old(self)@, key@), id, val, prev@),
            ),
    {
        proof {
            lemma_reg_view_dom(self.entries@);
        }
        let ghost pre = self.entries@;
        let mut reg = match self.take_entry(&key) {
            Some(r) => r,
            None => TsMap::new(),
        };
        let ghost reg0 = reg@;
        let n = prev.len();
        let mut i: usize = 0;
        while i < n
            invariant
                n == prev@.len(),
                i <= n,
                reg.wf(),
                reg@ == reg0.remove_keys(prev@.take(i as int).to_set()),
            decreases n - i,
        {
            let ghost before = reg@;
            reg.take(prev[i]);
            proof {
                lemma_take_to_set_step(prev@, i as int);
                assert(reg@ =~= reg0.remove_keys(prev@.take(i as int + 1).to_set()));
            }
            i += 1;
        }
        proof {
            assert(prev@.take(n as int) =~= prev@);
        }
        reg.insert(id, val);
        let ghost newreg = reg@;
        self.put_entry(key, reg);
        proof {
            assert(newreg == spec_assigned(spec_register(old(self)@, key@), id, val, prev@));
            assert(self@ =~= old(self)@.insert(key@, newreg));
        }
    }

    /// Remove the entries of `prev` from the register at `key`; if the
    /// register becomes empty, drop the key entirely.
    pub fn remove(&mut self, key: &AssignKey, prev: &Vec<Timestamp>)
        requires
            old(self).wf(),
        ensures
            final(self).wf(),
            !old(self)@.dom().contains(key@) ==> final(self)@ == old(self)@,
            old(self)@.dom().contains(key@) ==> {
                let cleaned = old(self)@[key@].remove_keys(prev@.to_set());
                if cleaned.dom() == Set::<Timestamp>::empty() {
                    final(self)@ == old(self)@.remove(key@)
                } else {
                    final(self)@ == old(self)@.insert(key@, cleaned)
                }
            },
    {
        proof {
            lemma_reg_view_dom(self.entries@);
        }
        let mut reg = match self.take_entry(key) {
            Some(r) => r,
            None => {
                proof {
                    assert(self@ =~= old(self)@);
                }
                return ;
            },
        };
        let ghost reg0 = reg@;
        let n = prev.len();
        let mut i: usize = 0;
        while i < n
            invariant
                n == prev@.len(),
                i <= n,
                reg.wf(),
                reg@ == reg0.remove_keys(prev@.take(i as int).to_set()),
            decreases n - i,
        {
            reg.take(prev[i]);
            proof {
                lemma_take_to_set_step(prev@, i as int);
                assert(reg@ =~= reg0.remove_keys(prev@.take(i as int + 1).to_set()));
            }
            i += 1;
        }
        proof {
            assert(prev@.take(n as int) =~= prev@);
        }
        if reg.len() == 0 {
            proof {
                crate::tsmap::lemma_ts_assoc_view_dom(reg.entries@);
                assert(reg@.dom() =~= Set::<Timestamp>::empty());
            }
        } else {
            proof {
                crate::tsmap::lemma_ts_assoc_view_dom(reg.entries@);
                assert(reg@.dom().contains(reg.entries@[0].0));
            }
            let ghost cleaned = reg@;
            self.put_entry(key.duplicate(), reg);
            proof {
                assert(self@ =~= old(self)@.insert(key@, cleaned));
            }
        }
    }

    /// Take the register at `key` out of the table, if present.
    fn take_entry(&mut self, key: &AssignKey) -> (r: Option<Register>)
        requires
            old(self).wf(),
        ensures
            final(self).wf(),
            final(self)@ == old(self)@.remove(key@),
            match r {
                Some(v) => old(self)@.dom().contains(key@) && v@ == old(self)@[key@] && v.wf(),
                None => !old(self)@.dom().contains(key@),
            },
    {
        proof {
            self.lemma_wf_unique();
            lemma_reg_view_dom(self.entries@);
        }
        let ghost pre = self.entries@;
        match self.index_of(key) {
            Some(i) => {
                proof {
                    lemma_reg_view_at(self.entries@, i as int);
                }
                let entry = self.entries.remove(i);
                proof {
                    lemma_reg_removed(pre, i as int);
                    assert forall|x: int, y: int|
                        0 <= x < y < self.entries@.len() implies assign_key_lt(
                        self.entries@[x].0@,
                        self.entries@[y].0@,
                    ) by {
                        let sx = if x < i {
                            x
                        } else {
                            x + 1
                        };
                        let sy = if y < i {
                            y
                        } else {
                            y + 1
                        };
                        assert(self.entries@[x] == pre[sx] && self.entries@[y] == pre[sy]);
                    }
                    assert forall|k: int|
                        0 <= k < self.entries@.len() implies (#[trigger] self.entries@[k]).1.wf() by {
                        let sk = if k < i {
                            k
                        } else {
                            k + 1
                        };
                        assert(self.entries@[k] == pre[sk]);
                    }
                    assert(self@ =~= old(self)@.remove(key@));
                }
                Some(entry.1)
            },
            None => {
                proof {
                    assert(self@ =~= old(self)@.remove(key@));
                }
                None
            },
        }
    }

    /// Put a register under `key` at its ordered place, assuming the key is
    /// not present.
    fn put_entry(&mut self, key: AssignKey, reg: Register)
        requires
            old(self).wf(),
            !old(self)@.dom().contains(key@),
            reg.wf(),
        ensures
            final(self).wf(),
            final(self)@ == old(self)@.insert(key@, reg@),
    {
        proof {
            self.lemma_wf_unique();
            lemma_reg_view_dom(self.entries@);
        }
        let ghost pre = self.entries@;
        let ghost pushed = (key, reg);
        let p = find_pos(&self.entries, &key);
        proof {
            assert(forall|j: int| 0 <= j < pre.len() ==> pre[j].0@ != pushed.0@);
            if p < pre.len() {
                assert(!assign_key_lt(pre[p as int].0@, pushed.0@));
                lemma_assign_key_lt_total(pre[p as int].0@, pushed.0@);
                assert(assign_key_lt(pushed.0@, pre[p as int].0@));
            }
        }
        self.entries.insert(p, (key, reg));
        proof {
            assert(self.entries@ == pre.insert(p as int, pushed));
            lemma_reg_insert_at(pre, p as int, pushed);
            assert forall|x: int, y: int|
                0 <= x < y < self.entries@.len() implies assign_key_lt(
                self.entries@[x].0@,
                self.entries@[y].0@,
            ) by {
                let sx = if x < p {
                    x
                } else {
                    x - 1
                };
                let sy = if y < p {
                    y
                } else {
                    y - 1
                };
                if x == p as int {
                    assert(self.entries@[x] == pushed && self.entries@[y] == pre[sy]);
                    if sy > p {
                        assert(assign_key_lt(pre[p as int].0@, pre[sy].0@));
                        lemma_assign_key_lt_trans(pushed.0@, pre[p as int].0@, pre[sy].0@);
                    }
                } else if y == p as int {
                    assert(self.entries@[x] == pre[sx] && self.entries@[y] == pushed);
                } else {
                    assert(self.entries@[x] == pre[sx] && self.entries@[y] == pre[sy]);
                }
            }
            assert forall|k: int|
                0 <= k < self.entries@.len() implies (#[trigger] self.entries@[k]).1.wf() by {
                let sk = if k < p {
                    k
                } else {
                    k - 1
                };
                if k == p as int {
                    assert(self.entries@[k] == pushed);
                } else {
                    assert(self.entries@[k] == pre[sk]);
                }
            }
        }
    }

    /// How many keys the table holds.
    pub fn len(&self) -> (r: usize)
        ensures
            r == self.entries@.len(),
    {
        self.entries.len()
    }

    /// The key at position `i`, in insertion order.
    pub fn key_at<'a>(&'a self, i: usize) -> (r: &'a AssignKey)
        requires
            i < self.entries@.len(),
        ensures
            *r == self.entries@[i as int].0,
    {
        &self.entries[i].0
    }

    /// The register at position `i`, in insertion order.
    pub fn register_at<'a>(&'a self, i: usize) -> (r: &'a Register)
        requires
            i < self.entries@.len(),
        ensures
            *r == self.entries@[i as int].1,
    {
        &self.entries[i].1
    }

    /// Each entry's key is in the table and leads to that entry's register.
    pub proof fn lemma_entries_in_view(&self)
        requires
            self.wf(),
        ensures
            forall|i: int|
                0 <= i < self.entries@.len() ==> #[trigger] self@.dom().contains(
                    self.entries@[i].0@,
                ) && self@[self.entries@[i].0@] == self.entries@[i].1@,
            forall|k: AssignKeyV|
                #[trigger] self@.dom().contains(k) ==> exists|i: int|
                    0 <= i < self.entries@.len() && self.entries@[i].0@ == k,
    {
        self.lemma_wf_unique();
        lemma_reg_view_dom(self.entries@);
        assert forall|i: int| 0 <= i < self.entries@.len() implies #[trigger]
            self@.dom().contains(self.entries@[i].0@) && self@[self.entries@[i].0@]
            == self.entries@[i].1@ by {
            self.lemma_wf_unique();
            lemma_reg_view_at(self.entries@, i);
        }
    }
}

/// An assignment that names its predecessor supersedes it: after assigning
/// `v1` at a key and then assigning `v2` with the first operation's id in
/// `prev`, the register holds only the second entry.
pub proof fn lemma_assign_supersedes(
    id1: Timestamp,
    v1: Timestamp,
    id2: Timestamp,
    v2: Timestamp,
)
    ensures
        spec_assigned(
            spec_assigned(Map::empty(), id1, v1, Seq::empty()),
            id2,
            v2,
            seq![id1],
        ) == map![id2 => v2],
{
    let after1 = spec_assigned(Map::empty(), id1, v1, Seq::empty());
    assert(after1 =~= map![id1 => v1]) by {
        assert(Map::<Timestamp, Timestamp>::empty().remove_keys(
            Seq::<Timestamp>::empty().to_set(),
        ) =~= Map::<Timestamp, Timestamp>::empty());
    }
    assert(seq![id1].to_set() =~= set![id1]) by {
        assert(seq![id1][0] == id1);
        assert forall|t: Timestamp| seq![id1].to_set().contains(t) implies t == id1 by {
            let j = choose|j: int| 0 <= j < seq![id1].len() && #[trigger] seq![id1][j] == t;
        }
    }
    assert(after1.remove_keys(seq![id1].to_set()) =~= Map::<Timestamp, Timestamp>::empty());
    assert(spec_assigned(after1, id2, v2, seq![id1]) =~= map![id2 => v2]);
}

/// Two assignments at the same key that knew nothing of one another are
/// both retained: the register represents the concurrent edit.
pub proof fn lemma_parallel_assigns_retained(
    id1: Timestamp,
    v1: Timestamp,
    id2: Timestamp,
    v2: Timestamp,
)
    requires
        id1 != id2,
    ensures
        spec_assigned(
            spec_assigned(Map::empty(), id1, v1, Seq::empty()),
            id2,
            v2,
            Seq::empty(),
        ) == map![id1 => v1, id2 => v2],
{
    let after1 = spec_assigned(Map::empty(), id1, v1, Seq::empty());
    assert(after1 =~= map![id1 => v1]) by {
        assert(Map::<Timestamp, Timestamp>::empty().remove_keys(
            Seq::<Timestamp>::empty().to_set(),
        ) =~= Map::<Timestamp, Timestamp>::empty());
    }
    assert(after1.remove_keys(Seq::<Timestamp>::empty().to_set()) =~= after1);
    assert(spec_assigned(after1, id2, v2, Seq::empty()) =~= map![id1 => v1, id2 => v2]);
}

} // verus!
