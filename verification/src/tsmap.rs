//! An insertion-ordered association map keyed by operation timestamps, used
//! for the document's object, value, and register tables.  Its mathematical
//! view is a `Map<Timestamp, _>`; a well-formedness invariant keeps the keys
//! unique.

use vstd::prelude::*;

use crate::timestamp::Timestamp;

verus! {

/// The map described by an association list keyed by timestamps.
pub open spec fn ts_assoc_view<V: View>(s: Seq<(Timestamp, V)>) -> Map<Timestamp, V::V>
    decreases s.len(),
{
    if s.len() == 0 {
        Map::empty()
    } else {
        ts_assoc_view(s.drop_last()).insert(s.last().0, s.last().1@)
    }
}

/// No two entries share a key.
pub open spec fn ts_unique_keys<V: View>(s: Seq<(Timestamp, V)>) -> bool {
    forall|i: int, j: int| 0 <= i < j < s.len() ==> s[i].0 != s[j].0
}

/// A key is in the map described by `s` exactly when some entry holds it.
pub proof fn lemma_ts_assoc_view_dom<V: View>(s: Seq<(Timestamp, V)>)
    ensures
        forall|k: Timestamp|
            #[trigger] ts_assoc_view(s).dom().contains(k) <==> exists|i: int|
                0 <= i < s.len() && s[i].0 == k,
    decreases s.len(),
{
    if s.len() > 0 {
        lemma_ts_assoc_view_dom(s.drop_last());
        assert forall|k: Timestamp| #[trigger]
            ts_assoc_view(s).dom().contains(k) implies exists|i: int|
            0 <= i < s.len() && s[i].0 == k by {
            if k == s.last().0 {
                assert(s[s.len() - 1].0 == k);
            } else {
                assert(ts_assoc_view(s.drop_last()).dom().contains(k));
                let i = choose|i: int| 0 <= i < s.drop_last().len() && s.drop_last()[i].0 == k;
                assert(s.drop_last()[i] == s[i]);
                assert(s[i].0 == k);
            }
        }
        assert forall|k: Timestamp|
            (exists|i: int| 0 <= i < s.len() && s[i].0 == k) implies #[trigger]
            ts_assoc_view(s).dom().contains(k) by {
            let i = choose|i: int| 0 <= i < s.len() && s[i].0 == k;
            if i < s.len() - 1 {
                assert(s.drop_last()[i].0 == k);
                assert(ts_assoc_view(s.drop_last()).dom().contains(k));
            } else {
                assert(k == s.last().0);
            }
        }
    }
}

/// Under unique keys, the map sends each entry's key to that entry's value.
pub proof fn lemma_ts_assoc_view_at<V: View>(s: Seq<(Timestamp, V)>, i: int)
    requires
        ts_unique_keys(s),
        0 <= i < s.len(),
    ensures
        ts_assoc_view(s).dom().contains(s[i].0),
        ts_assoc_view(s)[s[i].0] == s[i].1@,
    decreases s.len(),
{
    if i == s.len() - 1 {
    } else {
        assert(forall|x: int, y: int|
            0 <= x < y < s.drop_last().len() ==> s.drop_last()[x].0 != s.drop_last()[y].0);
        lemma_ts_assoc_view_at(s.drop_last(), i);
        assert(s[i].0 != s.last().0);
    }
}

/// An insertion-ordered map from timestamps to values of type `V`.
#[derive(Debug, PartialEq)]
pub struct TsMap<V> {
    pub entries: Vec<(Timestamp, V)>,
}

impl<V: View> View for TsMap<V> {
    type V = Map<Timestamp, V::V>;

    open spec fn view(&self) -> Map<Timestamp, V::V> {
        ts_assoc_view(self.entries@)
    }
}

impl<V: View> TsMap<V> {
    /// Keys are pairwise distinct; every operation preserves this.
    pub open spec fn wf(&self) -> bool {
        ts_unique_keys(self.entries@)
    }

    pub fn new() -> (r: Self)
        ensures
            r.wf(),
            r@ == Map::<Timestamp, V::V>::empty(),
            r.entries@.len() == 0,
    {
        TsMap { entries: Vec::new() }
    }

    /// The position of the entry holding `key`, if any.
    fn index_of(&self, key: Timestamp) -> (r: Option<usize>)
        ensures
            match r {
                Some(i) => i < self.entries@.len() && self.entries@[i as int].0 == key,
                None => forall|j: int| 0 <= j < self.entries@.len() ==> self.entries@[j].0 != key,
            },
    {
        let n = self.entries.len();
        let mut i: usize = 0;
        while i < n
            invariant
                n == self.entries@.len(),
                i <= n,
                forall|j: int| 0 <= j < i ==> self.entries@[j].0 != key,
            decreases n - i,
        {
            if self.entries[i].0 == key {
                return Some(i);
            }
            i += 1;
        }
        None
    }

    pub fn contains_key(&self, key: Timestamp) -> (r: bool)
        requires
            self.wf(),
        ensures
            r == self@.dom().contains(key),
    {
        proof {
            lemma_ts_assoc_view_dom(self.entries@);
        }
        self.index_of(key).is_some()
    }

    pub fn get<'a>(&'a self, key: Timestamp) -> (r: Option<&'a V>)
        requires
            self.wf(),
        ensures
            match r {
                Some(v) => self@.dom().contains(key) && v@ == self@[key],
                None => !self@.dom().contains(key),
            },
            r matches Some(v) ==> exists|i: int|
                0 <= i < self.entries@.len() && (#[trigger] self.entries@[i]).0 == key && *v
                    == self.entries@[i].1,
    {
        proof {
            lemma_ts_assoc_view_dom(self.entries@);
        }
        match self.index_of(key) {
            Some(i) => {
                proof {
                    lemma_ts_assoc_view_at(self.entries@, i as int);
                }
                Some(&self.entries[i].1)
            },
            None => None,
        }
    }

    /// Take the entry under `key` out of the map, returning its value.
    pub fn take(&mut self, key: Timestamp) -> (r: Option<V>)
        requires
            old(self).wf(),
        ensures
            final(self).wf(),
            final(self)@ == old(self)@.remove(key),
            match r {
                Some(v) => old(self)@.dom().contains(key) && v@ == old(self)@[key],
                None => !old(self)@.dom().contains(key),
            },
            forall|i: int|
                0 <= i < final(self).entries@.len() ==> exists|j: int|
                    0 <= j < old(self).entries@.len() && old(self).entries@[j].1 == (
                    #[trigger] final(self).entries@[i]).1,
            r matches Some(v) ==> exists|j: int|
                0 <= j < old(self).entries@.len() && (#[trigger] old(self).entries@[j]).0 == key
                    && v == old(self).entries@[j].1,
    {
        proof {
            lemma_ts_assoc_view_dom(self.entries@);
        }
        let ghost pre = self.entries@;
        match self.index_of(key) {
            Some(i) => {
                proof {
                    lemma_ts_assoc_view_at(self.entries@, i as int);
                }
                let entry = self.entries.remove(i);
                proof {
                    lemma_ts_remove_preserves_unique(pre, i as int);
                    lemma_ts_assoc_removed(pre, i as int);
                    assert(self@ =~= old(self)@.remove(key));
                    assert forall|k: int| 0 <= k < self.entries@.len() implies exists|j: int|
                        0 <= j < pre.len() && pre[j].1 == (#[trigger] self.entries@[k]).1 by {
                        let sj = if k < i {
                            k
                        } else {
                            k + 1
                        };
                        assert(self.entries@[k] == pre[sj]);
                        assert(pre[sj].1 == self.entries@[k].1);
                    }
                }
                Some(entry.1)
            },
            None => {
                proof {
                    assert(self@ =~= old(self)@.remove(key));
                }
                None
            },
        }
    }

    /// Insert `value` under `key`, returning the value previously there.
    pub fn insert(&mut self, key: Timestamp, value: V) -> (r: Option<V>)
        requires
            old(self).wf(),
        ensures
            final(self).wf(),
            final(self)@ == old(self)@.insert(key, value@),
            match r {
                Some(v) => old(self)@.dom().contains(key) && v@ == old(self)@[key],
                None => !old(self)@.dom().contains(key),
            },
            forall|i: int|
                0 <= i < final(self).entries@.len() ==> (#[trigger] final(self).entries@[i]).1
                    == value || exists|j: int|
                    0 <= j < old(self).entries@.len() && old(self).entries@[j].1
                        == final(self).entries@[i].1,
    {
        proof {
            lemma_ts_assoc_view_dom(self.entries@);
        }
        let ghost pre = self.entries@;
        let ghost pushed = (key, value);
        match self.index_of(key) {
            Some(i) => {
                proof {
                    lemma_ts_assoc_view_at(self.entries@, i as int);
                }
                let old_entry = self.entries.remove(i);
                self.entries.push((key, value));
                proof {
                    let mid = pre.remove(i as int);
                    assert(self.entries@ == mid.push(pushed));
                    lemma_ts_remove_preserves_unique(pre, i as int);
                    assert forall|j: int| 0 <= j < mid.len() implies mid[j].0 != pushed.0 by {
                        let sj = if j < i {
                            j
                        } else {
                            j + 1
                        };
                        assert(mid[j] == pre[sj]);
                        assert(pre[i as int].0 == pushed.0);
                    }
                    lemma_ts_push_unique(mid, pushed);
                    assert(self.wf());
                    lemma_ts_assoc_removed(pre, i as int);
                    assert(ts_assoc_view(self.entries@) == ts_assoc_view(mid).insert(
                        pushed.0,
                        value@,
                    )) by {
                        assert(self.entries@.drop_last() == mid);
                    }
                    assert(self@ =~= old(self)@.insert(pushed.0, value@));
                    assert forall|k: int| 0 <= k < self.entries@.len() implies (#[trigger] self
                        .entries@[k]).1 == value || exists|j: int|
                        0 <= j < pre.len() && pre[j].1 == self.entries@[k].1 by {
                        if k < mid.len() {
                            let sj = if k < i {
                                k
                            } else {
                                k + 1
                            };
                            assert(mid[k] == pre[sj]);
                            assert(pre[sj].1 == self.entries@[k].1);
                        }
                    }
                }
                Some(old_entry.1)
            },
            None => {
                self.entries.push((key, value));
                proof {
                    assert(self.entries@ == pre.push(pushed));
                    assert(forall|j: int| 0 <= j < pre.len() ==> pre[j].0 != pushed.0);
                    lemma_ts_push_unique(pre, pushed);
                    assert(self.wf());
                    assert(self.entries@.drop_last() == pre);
                    assert forall|k: int| 0 <= k < self.entries@.len() implies (#[trigger] self
                        .entries@[k]).1 == value || exists|j: int|
                        0 <= j < pre.len() && pre[j].1 == self.entries@[k].1 by {
                        if k < pre.len() {
                            assert(pre[k].1 == self.entries@[k].1);
                        }
                    }
                }
                None
            },
        }
    }

    /// How many entries the map holds.
    pub fn len(&self) -> (r: usize)
        ensures
            r == self.entries@.len(),
    {
        self.entries.len()
    }

    /// The key at position `i`, in insertion order.
    pub fn key_at(&self, i: usize) -> (r: Timestamp)
        requires
            i < self.entries@.len(),
        ensures
            r == self.entries@[i as int].0,
    {
        self.entries[i].0
    }

    /// The value at position `i`, in insertion order.
    pub fn value_at<'a>(&'a self, i: usize) -> (r: &'a V)
        requires
            i < self.entries@.len(),
        ensures
            *r == self.entries@[i as int].1,
    {
        &self.entries[i].1
    }

    /// Each entry's key is in the map and leads to that entry's value.
    pub proof fn lemma_entries_in_view(&self)
        requires
            self.wf(),
        ensures
            forall|i: int|
                0 <= i < self.entries@.len() ==> #[trigger] self@.dom().contains(
                    self.entries@[i].0,
                ) && self@[self.entries@[i].0] == self.entries@[i].1@,
            forall|k: Timestamp|
                #[trigger] self@.dom().contains(k) ==> exists|i: int|
                    0 <= i < self.entries@.len() && self.entries@[i].0 == k,
    {
        lemma_ts_assoc_view_dom(self.entries@);
        assert forall|i: int| 0 <= i < self.entries@.len() implies #[trigger]
            self@.dom().contains(self.entries@[i].0) && self@[self.entries@[i].0]
            == self.entries@[i].1@ by {
            lemma_ts_assoc_view_at(self.entries@, i);
        }
    }
}

/// Removing an entry keeps the remaining keys distinct.
proof fn lemma_ts_remove_preserves_unique<V: View>(s: Seq<(Timestamp, V)>, i: int)
    requires
        ts_unique_keys(s),
        0 <= i < s.len(),
    ensures
        ts_unique_keys(s.remove(i)),
{
    let t = s.remove(i);
    assert forall|x: int, y: int| 0 <= x < y < t.len() implies t[x].0 != t[y].0 by {
        let sx = if x < i {
            x
        } else {
            x + 1
        };
        let sy = if y < i {
            y
        } else {
            y + 1
        };
        assert(t[x] == s[sx] && t[y] == s[sy]);
    }
}

/// Appending an entry with a fresh key keeps the keys distinct.
proof fn lemma_ts_push_unique<V: View>(s: Seq<(Timestamp, V)>, e: (Timestamp, V))
    requires
        ts_unique_keys(s),
        forall|j: int| 0 <= j < s.len() ==> s[j].0 != e.0,
    ensures
        ts_unique_keys(s.push(e)),
{
    let t = s.push(e);
    assert forall|x: int, y: int| 0 <= x < y < t.len() implies t[x].0 != t[y].0 by {
        if y < s.len() {
            assert(t[x] == s[x] && t[y] == s[y]);
        } else {
            assert(t[x] == s[x] && t[y] == e);
        }
    }
}

/// Removing the entry at `i` removes exactly its key from the map view.
proof fn lemma_ts_assoc_removed<V: View>(s: Seq<(Timestamp, V)>, i: int)
    requires
        ts_unique_keys(s),
        0 <= i < s.len(),
    ensures
        ts_assoc_view(s.remove(i)) == ts_assoc_view(s).remove(s[i].0),
    decreases s.len(),
{
    lemma_ts_assoc_view_dom(s);
    lemma_ts_assoc_view_dom(s.remove(i));
    if i == s.len() - 1 {
        assert(s.remove(i) == s.drop_last());
        assert(!ts_assoc_view(s.drop_last()).dom().contains(s[i].0)) by {
            lemma_ts_assoc_view_dom(s.drop_last());
        }
        assert(ts_assoc_view(s.remove(i)) =~= ts_assoc_view(s).remove(s[i].0));
    } else {
        let t = s.remove(i);
        assert(t.drop_last() == s.drop_last().remove(i));
        assert(t.last() == s.last());
        assert(forall|x: int, y: int|
            0 <= x < y < s.drop_last().len() ==> s.drop_last()[x].0 != s.drop_last()[y].0);
        lemma_ts_assoc_removed(s.drop_last(), i);
        assert(s.drop_last()[i] == s[i]);
        assert(s[i].0 != s.last().0);
        assert(ts_assoc_view(t) == ts_assoc_view(t.drop_last()).insert(t.last().0, t.last().1@));
        assert(ts_assoc_view(t) =~= ts_assoc_view(s).remove(s[i].0));
    }
}

} // verus!
