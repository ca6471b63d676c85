//! An insertion-ordered association map with string keys, used for record
//! schemas, default maps, and per-key registers.  Its mathematical view is a
//! `Map<Seq<char>, _>`; a well-formedness invariant keeps the keys unique.

use vstd::prelude::*;
use vstd::string::StrSliceExecFns;

verus! {

/// The map described by an association list: later entries win, although
/// under [`unique_keys`] every key appears at most once.
pub open spec fn assoc_view<V: View>(s: Seq<(String, V)>) -> Map<Seq<char>, V::V>
    decreases s.len(),
{
    if s.len() == 0 {
        Map::empty()
    } else {
        assoc_view(s.drop_last()).insert(s.last().0@, s.last().1@)
    }
}

/// No two entries share a key.
pub open spec fn unique_keys<V: View>(s: Seq<(String, V)>) -> bool {
    forall|i: int, j: int| 0 <= i < j < s.len() ==> s[i].0@ != s[j].0@
}

/// A key is in the map described by `s` exactly when some entry holds it.
pub proof fn lemma_assoc_view_dom<V: View>(s: Seq<(String, V)>)
    ensures
        forall|k: Seq<char>|
            #[trigger] assoc_view(s).dom().contains(k) <==> exists|i: int|
                0 <= i < s.len() && s[i].0@ == k,
    decreases s.len(),
{
    if s.len() > 0 {
        lemma_assoc_view_dom(s.drop_last());
        assert forall|k: Seq<char>| #[trigger]
            assoc_view(s).dom().contains(k) implies exists|i: int|
            0 <= i < s.len() && s[i].0@ == k by {
            if k == s.last().0@ {
                assert(s[s.len() - 1].0@ == k);
            } else {
                assert(assoc_view(s.drop_last()).dom().contains(k));
                let i = choose|i: int| 0 <= i < s.drop_last().len() && s.drop_last()[i].0@ == k;
                assert(s.drop_last()[i] == s[i]);
                assert(s[i].0@ == k);
            }
        }
        assert forall|k: Seq<char>|
            (exists|i: int| 0 <= i < s.len() && s[i].0@ == k) implies #[trigger]
            assoc_view(s).dom().contains(k) by {
            let i = choose|i: int| 0 <= i < s.len() && s[i].0@ == k;
            if i < s.len() - 1 {
                assert(s.drop_last()[i].0@ == k);
                assert(assoc_view(s.drop_last()).dom().contains(k));
            } else {
                assert(k == s.last().0@);
            }
        }
    }
}

/// Under unique keys, the map sends each entry's key to that entry's value.
pub proof fn lemma_assoc_view_at<V: View>(s: Seq<(String, V)>, i: int)
    requires
        unique_keys(s),
        0 <= i < s.len(),
    ensures
        assoc_view(s).dom().contains(s[i].0@),
        assoc_view(s)[s[i].0@] == s[i].1@,
    decreases s.len(),
{
    if i == s.len() - 1 {
    } else {
        assert(forall|x: int, y: int|
            0 <= x < y < s.drop_last().len() ==> s.drop_last()[x].0@ != s.drop_last()[y].0@);
        lemma_assoc_view_at(s.drop_last(), i);
        assert(s[i].0@ != s.last().0@);
    }
}

/// An insertion-ordered map from string names to values of type `V`.
#[derive(Debug, PartialEq)]
pub struct StrMap<V> {
    pub entries: Vec<(String, V)>,
}

impl<V: View> View for StrMap<V> {
    type V = Map<Seq<char>, V::V>;

    open spec fn view(&self) -> Map<Seq<char>, V::V> {
        assoc_view(self.entries@)
    }
}

impl<V: View> StrMap<V> {
    /// Keys are pairwise distinct; every operation preserves this.
    pub open spec fn wf(&self) -> bool {
        unique_keys(self.entries@)
    }

    pub fn new() -> (r: Self)
        ensures
            r.wf(),
            r@ == Map::<Seq<char>, V::V>::empty(),
            r.entries@.len() == 0,
    {
        StrMap { entries: Vec::new() }
    }

    /// The position of the entry holding `name`, if any.
    fn index_of(&self, name: &String) -> (r: Option<usize>)
        ensures
            match r {
                Some(i) => i < self.entries@.len() && self.entries@[i as int].0@ == name@,
                None => forall|j: int| 0 <= j < self.entries@.len() ==> self.entries@[j].0@ != name@,
            },
    {
        let n = self.entries.len();
        let mut i: usize = 0;
        while i < n
            invariant
                n == self.entries@.len(),
                i <= n,
                forall|j: int| 0 <= j < i ==> self.entries@[j].0@ != name@,
            decreases n - i,
        {
            if self.entries[i].0.eq(name) {
                return Some(i);
            }
            i += 1;
        }
        None
    }

    pub fn contains_key(&self, name: &String) -> (r: bool)
        requires
            self.wf(),
        ensures
            r == self@.dom().contains(name@),
    {
        proof {
            lemma_assoc_view_dom(self.entries@);
        }
        self.index_of(name).is_some()
    }

    pub fn get<'a>(&'a self, name: &String) -> (r: Option<&'a V>)
        requires
            self.wf(),
        ensures
            match r {
                Some(v) => self@.dom().contains(name@) && v@ == self@[name@],
                None => !self@.dom().contains(name@),
            },
            r matches Some(v) ==> exists|i: int|
                0 <= i < self.entries@.len() && (#[trigger] self.entries@[i]).0@ == name@ && *v
                    == self.entries@[i].1,
    {
        proof {
            lemma_assoc_view_dom(self.entries@);
        }
        match self.index_of(name) {
            Some(i) => {
                proof {
                    lemma_assoc_view_at(self.entries@, i as int);
                }
                Some(&self.entries[i].1)
            },
            None => None,
        }
    }

    /// Insert `value` under `name`, returning the value previously there.
    pub fn insert(&mut self, name: String, value: V) -> (r: Option<V>)
        requires
            old(self).wf(),
        ensures
            final(self).wf(),
            final(self)@ == old(self)@.insert(name@, value@),
            match r {
                Some(v) => old(self)@.dom().contains(name@) && v@ == old(self)@[name@],
                None => !old(self)@.dom().contains(name@),
            },
            final(self).entries@.len() <= old(self).entries@.len() + 1,
            forall|i: int|
                0 <= i < final(self).entries@.len() ==> (#[trigger] final(self).entries@[i]).1
                    == value || exists|j: int|
                    0 <= j < old(self).entries@.len() && old(self).entries@[j].1
                        == final(self).entries@[i].1,
    {
        proof {
            lemma_assoc_view_dom(self.entries@);
        }
        let ghost pre = self.entries@;
        let ghost pushed = (name, value);
        match self.index_of(&name) {
            Some(i) => {
                proof {
                    lemma_assoc_view_at(self.entries@, i as int);
                }
                let old_entry = self.entries.remove(i);
                self.entries.push((name, value));
                proof {
                    let mid = pre.remove(i as int);
                    assert(self.entries@ == mid.push(pushed));
                    lemma_remove_preserves_unique(pre, i as int);
                    assert forall|j: int| 0 <= j < mid.len() implies mid[j].0@ != pushed.0@ by {
                        let sj = if j < i {
                            j
                        } else {
                            j + 1
                        };
                        assert(mid[j] == pre[sj]);
                        assert(pre[i as int].0@ == pushed.0@);
                    }
                    lemma_push_unique(mid, pushed);
                    assert(self.wf());
                    lemma_assoc_removed(pre, i as int);
                    assert(assoc_view(mid) == assoc_view(pre).remove(pre[i as int].0@));
                    assert(assoc_view(self.entries@) == assoc_view(mid).insert(
                        pushed.0@,
                        value@,
                    )) by {
                        assert(self.entries@.drop_last() == mid);
                    }
                    assert(self@ =~= old(self)@.insert(pushed.0@, value@));
                    assert forall|k: int| 0 <= k < self.entries@.len() implies (#[trigger] self
                        .entries@[k]).1 == value || exists|j: int|
                        0 <= j < pre.len() && pre[j].1 == self.entries@[k].1 by {
                        if k < mid.len() {
                            let sj = if k < i {
                                k
                            } else {
                                k + 1
                            };
                            assert(mid[k] == pre[sj]);
                            assert(pre[sj].1 == self.entries@[k].1);
                        }
                    }
                }
                Some(old_entry.1)
            },
            None => {
                self.entries.push((name, value));
                proof {
                    assert(self.entries@ == pre.push(pushed));
                    assert(forall|j: int| 0 <= j < pre.len() ==> pre[j].0@ != pushed.0@);
                    lemma_push_unique(pre, pushed);
                    assert(self.wf());
                    assert(self.entries@.drop_last() == pre);
                    assert forall|k: int| 0 <= k < self.entries@.len() implies (#[trigger] self
                        .entries@[k]).1 == value || exists|j: int|
                        0 <= j < pre.len() && pre[j].1 == self.entries@[k].1 by {
                        if k < pre.len() {
                            assert(pre[k].1 == self.entries@[k].1);
                        }
                    }
                }
                None
            },
        }
    }

    /// Remove the entry under `name`, returning its value if it was present.
    pub fn remove(&mut self, name: &String) -> (r: Option<V>)
        requires
            old(self).wf(),
        ensures
            final(self).wf(),
            final(self)@ == old(self)@.remove(name@),
            match r {
                Some(v) => old(self)@.dom().contains(name@) && v@ == old(self)@[name@],
                None => !old(self)@.dom().contains(name@),
            },
            forall|i: int|
                0 <= i < final(self).entries@.len() ==> exists|j: int|
                    0 <= j < old(self).entries@.len() && old(self).entries@[j].1 == (
                    #[trigger] final(self).entries@[i]).1,
            r matches Some(v) ==> exists|j: int|
                0 <= j < old(self).entries@.len() && (#[trigger] old(self).entries@[j]).0@ == name@
                    && v == old(self).entries@[j].1,
    {
        proof {
            lemma_assoc_view_dom(self.entries@);
        }
        let ghost pre = self.entries@;
        match self.index_of(name) {
            Some(i) => {
                proof {
                    lemma_assoc_view_at(self.entries@, i as int);
                }
                let entry = self.entries.remove(i);
                proof {
                    lemma_remove_preserves_unique(pre, i as int);
                    lemma_assoc_removed(pre, i as int);
                    assert(self@ =~= old(self)@.remove(name@));
                    assert forall|k: int| 0 <= k < self.entries@.len() implies exists|j: int|
                        0 <= j < pre.len() && pre[j].1 == (#[trigger] self.entries@[k]).1 by {
                        let sj = if k < i {
                            k
                        } else {
                            k + 1
                        };
                        assert(self.entries@[k] == pre[sj]);
                        assert(pre[sj].1 == self.entries@[k].1);
                    }
                }
                Some(entry.1)
            },
            None => {
                proof {
                    assert(self@ =~= old(self)@.remove(name@));
                }
                None
            },
        }
    }

    /// How many entries the map holds.
    pub fn len(&self) -> (r: usize)
        ensures
            r == self.entries@.len(),
    {
        self.entries.len()
    }

    /// The name at position `i`, in insertion order.
    pub fn key_at<'a>(&'a self, i: usize) -> (r: &'a String)
        requires
            i < self.entries@.len(),
        ensures
            r@ == self.entries@[i as int].0@,
    {
        &self.entries[i].0
    }

    /// The value at position `i`, in insertion order.
    pub fn value_at<'a>(&'a self, i: usize) -> (r: &'a V)
        requires
            i < self.entries@.len(),
        ensures
            *r == self.entries@[i as int].1,
    {
        &self.entries[i].1
    }

    /// Each entry's key is in the map and leads to that entry's value.
    pub proof fn lemma_entries_in_view(&self)
        requires
            self.wf(),
        ensures
            forall|i: int|
                0 <= i < self.entries@.len() ==> #[trigger] self@.dom().contains(
                    self.entries@[i].0@,
                ) && self@[self.entries@[i].0@] == self.entries@[i].1@,
            forall|k: Seq<char>|
                #[trigger] self@.dom().contains(k) ==> exists|i: int|
                    0 <= i < self.entries@.len() && self.entries@[i].0@ == k,
    {
        lemma_assoc_view_dom(self.entries@);
        assert forall|i: int| 0 <= i < self.entries@.len() implies #[trigger]
            self@.dom().contains(self.entries@[i].0@) && self@[self.entries@[i].0@]
            == self.entries@[i].1@ by {
            lemma_assoc_view_at(self.entries@, i);
        }
    }
}

/// Removing an entry keeps the remaining keys distinct.
proof fn lemma_remove_preserves_unique<V: View>(s: Seq<(String, V)>, i: int)
    requires
        unique_keys(s),
        0 <= i < s.len(),
    ensures
        unique_keys(s.remove(i)),
{
    let t = s.remove(i);
    assert forall|x: int, y: int| 0 <= x < y < t.len() implies t[x].0@ != t[y].0@ by {
        let sx = if x < i {
            x
        } else {
            x + 1
        };
        let sy = if y < i {
            y
        } else {
            y + 1
        };
        assert(t[x] == s[sx] && t[y] == s[sy]);
    }
}

/// Appending an entry with a fresh key keeps the keys distinct.
proof fn lemma_push_unique<V: View>(s: Seq<(String, V)>, e: (String, V))
    requires
        unique_keys(s),
        forall|j: int| 0 <= j < s.len() ==> s[j].0@ != e.0@,
    ensures
        unique_keys(s.push(e)),
{
    let t = s.push(e);
    assert forall|x: int, y: int| 0 <= x < y < t.len() implies t[x].0@ != t[y].0@ by {
        if y < s.len() {
            assert(t[x] == s[x] && t[y] == s[y]);
        } else {
            assert(t[x] == s[x] && t[y] == e);
        }
    }
}

/// Removing the entry at `i` removes exactly its key from the map view.
proof fn lemma_assoc_removed<V: View>(s: Seq<(String, V)>, i: int)
    requires
        unique_keys(s),
        0 <= i < s.len(),
    ensures
        assoc_view(s.remove(i)) == assoc_view(s).remove(s[i].0@),
    decreases s.len(),
{
    lemma_assoc_view_dom(s);
    lemma_assoc_view_dom(s.remove(i));
    if i == s.len() - 1 {
        assert(s.remove(i) == s.drop_last());
        assert(!assoc_view(s.drop_last()).dom().contains(s[i].0@)) by {
            lemma_assoc_view_dom(s.drop_last());
        }
        assert(assoc_view(s.remove(i)) =~= assoc_view(s).remove(s[i].0@));
    } else {
        let t = s.remove(i);
        assert(t.drop_last() == s.drop_last().remove(i));
        assert(t.last() == s.last());
        assert(forall|x: int, y: int|
            0 <= x < y < s.drop_last().len() ==> s.drop_last()[x].0@ != s.drop_last()[y].0@);
        lemma_assoc_removed(s.drop_last(), i);
        assert(s.drop_last()[i] == s[i]);
        assert(s[i].0@ != s.last().0@);
        assert(assoc_view(t) == assoc_view(t.drop_last()).insert(t.last().0@, t.last().1@));
        assert(assoc_view(t) =~= assoc_view(s).remove(s[i].0@));
    }
}

impl<V: View> Default for StrMap<V> {
    /// The empty map.
    fn default() -> (r: Self)
        ensures
            r.wf(),
            r@ == Map::<Seq<char>, V::V>::empty(),
            r.entries@.len() == 0,
    {
        StrMap::new()
    }
}

impl<V: View> StrMap<V> {
    /// Build a map from a list of pairs; later pairs win on repeated names.
    pub fn from_pairs(pairs: Vec<(String, V)>) -> (r: Self)
        ensures
            r.wf(),
            r@ == assoc_view(pairs@),
    {
        let mut out = StrMap::new();
        let n = pairs.len();
        let mut pairs = pairs;
        let ghost all = pairs@;
        let mut i: usize = 0;
        while i < n
            invariant
                n == all.len(),
                i <= n,
                pairs@ == all.skip(i as int),
                out.wf(),
                out@ == assoc_view(all.take(i as int)),
            decreases n - i,
        {
            let (name, value) = pairs.remove(0);
            proof {
                assert(all.skip(i as int)[0] == all[i as int]);
                assert(all.skip(i as int).remove(0) =~= all.skip(i as int + 1));
                assert(all.take(i as int + 1).drop_last() =~= all.take(i as int));
                assert(all.take(i as int + 1).last() == all[i as int]);
            }
            out.insert(name, value);
            i += 1;
        }
        proof {
            assert(all.take(n as int) =~= all);
        }
        out
    }
}

/// Strict lexicographic order on character sequences: a proper prefix comes
/// first, otherwise the first differing character decides.
pub open spec fn char_seq_lt(a: Seq<char>, b: Seq<char>) -> bool
    decreases a.len(),
{
    if b.len() == 0 {
        false
    } else if a.len() == 0 {
        true
    } else if a[0] != b[0] {
        a[0] < b[0]
    } else {
        char_seq_lt(a.drop_first(), b.drop_first())
    }
}

/// Distinct character sequences are strictly ordered one way or the other.
pub proof fn lemma_char_seq_lt_total(a: Seq<char>, b: Seq<char>)
    requires
        a != b,
    ensures
        char_seq_lt(a, b) != char_seq_lt(b, a),
    decreases a.len(),
{
    if b.len() == 0 || a.len() == 0 {
        if a.len() == 0 && b.len() == 0 {
            assert(a =~= b);
        }
    } else if a[0] != b[0] {
    } else {
        assert(a.drop_first() != b.drop_first()) by {
            if a.drop_first() == b.drop_first() {
                assert(a.drop_first().len() == b.drop_first().len());
                assert(a.len() == b.len());
                assert forall|i: int| 0 <= i < a.len() implies a[i] == b[i] by {
                    if i > 0 {
                        assert(a.drop_first()[i - 1] == a[i]);
                        assert(b.drop_first()[i - 1] == b[i]);
                    }
                }
                assert(a =~= b);
            }
        }
        lemma_char_seq_lt_total(a.drop_first(), b.drop_first());
    }
}

/// Whether the text of `a` orders strictly before the text of `b`.
pub fn str_lt(a: &str, b: &str) -> (r: bool)
    ensures
        r == char_seq_lt(a@, b@),
{
    let na = a.unicode_len();
    let nb = b.unicode_len();
    let mut i: usize = 0;
    proof {
        assert(a@.skip(0) =~= a@);
        assert(b@.skip(0) =~= b@);
    }
    loop
        invariant
            na == a@.len(),
            nb == b@.len(),
            i <= na,
            i <= nb,
            char_seq_lt(a@, b@) == char_seq_lt(a@.skip(i as int), b@.skip(i as int)),
        decreases na - i,
    {
        if i == nb {
            proof {
                assert(b@.skip(i as int) =~= Seq::<char>::empty());
            }
            return false;
        }
        if i == na {
            proof {
                assert(a@.skip(i as int) =~= Seq::<char>::empty());
                assert(b@.skip(i as int).len() > 0);
            }
            return true;
        }
        let ca = a.get_char(i);
        let cb = b.get_char(i);
        proof {
            assert(a@.skip(i as int)[0] == a@[i as int]);
            assert(b@.skip(i as int)[0] == b@[i as int]);
            assert(a@.skip(i as int).drop_first() =~= a@.skip(i as int + 1));
            assert(b@.skip(i as int).drop_first() =~= b@.skip(i as int + 1));
        }
        if ca != cb {
            return ca < cb;
        }
        i += 1;
    }
}

/// The entry names are in strictly increasing character order.
pub open spec fn name_sorted<V: View>(s: Seq<(String, V)>) -> bool {
    forall|i: int, j: int| 0 <= i < j < s.len() ==> char_seq_lt(s[i].0@, s[j].0@)
}

/// Inserting an entry with a fresh name at a position keeps the described
/// map one insertion bigger and the remaining keys distinct.
proof fn lemma_assoc_insert_at<V: View>(s: Seq<(String, V)>, p: int, e: (String, V))
    requires
        unique_keys(s),
        forall|j: int| 0 <= j < s.len() ==> s[j].0@ != e.0@,
        0 <= p <= s.len(),
    ensures
        unique_keys(s.insert(p, e)),
        assoc_view(s.insert(p, e)) == assoc_view(s).insert(e.0@, e.1@),
    decreases s.len(),
{
    let t = s.insert(p, e);
    assert forall|x: int, y: int| 0 <= x < y < t.len() implies t[x].0@ != t[y].0@ by {
        let sx = if x < p {
            x
        } else {
            x - 1
        };
        let sy = if y < p {
            y
        } else {
            y - 1
        };
        if x == p {
            assert(t[x] == e && t[y] == s[sy]);
        } else if y == p {
            assert(t[x] == s[sx] && t[y] == e);
        } else {
            assert(t[x] == s[sx] && t[y] == s[sy]);
        }
    }
    if p == s.len() {
        assert(t.drop_last() =~= s);
    } else {
        assert(t.drop_last() =~= s.drop_last().insert(p, e));
        assert(t.last() == s.last());
        assert(forall|x: int, y: int|
            0 <= x < y < s.drop_last().len() ==> s.drop_last()[x].0@ != s.drop_last()[y].0@);
        assert(forall|j: int| 0 <= j < s.drop_last().len() ==> s.drop_last()[j].0@ != e.0@);
        lemma_assoc_insert_at(s.drop_last(), p, e);
        assert(s[s.len() - 1].0@ != e.0@);
        assert(assoc_view(t) =~= assoc_view(s).insert(e.0@, e.1@));
    }
}

/// The first position whose entry name does not order strictly before
/// `name`; everything before it does.
fn insert_pos<V: View>(out: &Vec<(String, V)>, name: &String) -> (p: usize)
    requires
        forall|k: int| 0 <= k < out@.len() ==> (#[trigger] out@[k]).0@ != name@,
    ensures
        p <= out@.len(),
        forall|k: int| 0 <= k < p ==> char_seq_lt((#[trigger] out@[k]).0@, name@),
        p < out@.len() ==> !char_seq_lt(out@[p as int].0@, name@),
{
    let m = out.len();
    let mut p: usize = 0;
    while p < m
        invariant
            m == out@.len(),
            p <= m,
            forall|k: int| 0 <= k < p ==> char_seq_lt((#[trigger] out@[k]).0@, name@),
        decreases m - p,
    {
        if !str_lt(out[p].0.as_str(), name.as_str()) {
            return p;
        }
        p += 1;
    }
    p
}

impl<V: View> StrMap<V> {
    /// The entries stand in strictly increasing name order.
    pub open spec fn sorted(&self) -> bool {
        name_sorted(self.entries@)
    }

    /// The same map with its entries rearranged into name order.
    pub fn into_sorted(self) -> (r: Self)
        requires
            self.wf(),
        ensures
            r.wf(),
            r.sorted(),
            r@ == self@,
            forall|i: int|
                0 <= i < r.entries@.len() ==> exists|j: int|
                    0 <= j < self.entries@.len() && self.entries@[j] == (
                    #[trigger] r.entries@[i]),
    {
        let ghost src = self.entries@;
        let mut remaining = self.entries;
        let mut out: Vec<(String, V)> = Vec::new();
        let n = remaining.len();
        let mut i: usize = 0;
        proof {
            assert(src.take(0) =~= Seq::<(String, V)>::empty());
        }
        while i < n
            invariant
                n == src.len(),
                i <= n,
                remaining@ == src.skip(i as int),
                unique_keys(src),
                name_sorted(out@),
                unique_keys(out@),
                assoc_view(out@) == assoc_view(src.take(i as int)),
                forall|k: int|
                    0 <= k < out@.len() ==> exists|j: int|
                        0 <= j < i && src[j] == (#[trigger] out@[k]),
            decreases n - i,
        {
            let entry = remaining.remove(0);
            let ghost entryg = entry;
            proof {
                assert(src.skip(i as int)[0] == src[i as int]);
                assert(src.skip(i as int).remove(0) =~= src.skip(i as int + 1));
                assert forall|k: int| 0 <= k < out@.len() implies out@[k].0@ != entryg.0@ by {
                    let j = choose|j: int| 0 <= j < i && src[j] == out@[k];
                    assert(src[j].0@ != src[i as int].0@);
                }
            }
            let p = insert_pos(&out, &entry.0);
            proof {
                if p < out@.len() {
                    lemma_char_seq_lt_total(out@[p as int].0@, entryg.0@);
                    assert(char_seq_lt(entryg.0@, out@[p as int].0@));
                }
            }
            let ghost pre_out = out@;
            out.insert(p, entry);
            proof {
                assert(out@ == pre_out.insert(p as int, entryg));
                lemma_assoc_insert_at(pre_out, p as int, entryg);
                assert forall|x: int, y: int|
                    0 <= x < y < out@.len() implies char_seq_lt(out@[x].0@, out@[y].0@) by {
                    let sx = if x < p {
                        x
                    } else {
                        x - 1
                    };
                    let sy = if y < p {
                        y
                    } else {
                        y - 1
                    };
                    if x == p {
                        assert(out@[x] == entryg && out@[y] == pre_out[sy]);
                        if p < pre_out.len() {
                            assert(char_seq_lt(entryg.0@, pre_out[p as int].0@));
                            if sy > p {
                                assert(char_seq_lt(pre_out[p as int].0@, pre_out[sy].0@));
                                lemma_char_seq_lt_trans(
                                    entryg.0@,
                                    pre_out[p as int].0@,
                                    pre_out[sy].0@,
                                );
                            }
                        }
                    } else if y == p {
                        assert(out@[x] == pre_out[sx] && out@[y] == entryg);
                    } else {
                        assert(out@[x] == pre_out[sx] && out@[y] == pre_out[sy]);
                    }
                }
                assert(src.take(i as int + 1).drop_last() =~= src.take(i as int));
                assert(src.take(i as int + 1).last() == src[i as int]);
                assert(assoc_view(out@) =~= assoc_view(src.take(i as int + 1)));
                assert forall|k: int|
                    0 <= k < out@.len() implies exists|j: int|
                    0 <= j < i + 1 && src[j] == (#[trigger] out@[k]) by {
                    let sk = if k < p {
                        k
                    } else {
                        k - 1
                    };
                    if k == p {
                        assert(src[i as int] == out@[k]);
                    } else {
                        assert(out@[k] == pre_out[sk]);
                        let j = choose|j: int| 0 <= j < i && src[j] == pre_out[sk];
                        assert(src[j] == out@[k]);
                    }
                }
            }
            i += 1;
        }
        proof {
            assert(src.take(n as int) =~= src);
        }
        StrMap { entries: out }
    }
}

/// No character sequence orders before itself.
pub proof fn lemma_char_seq_lt_irrefl(a: Seq<char>)
    ensures
        !char_seq_lt(a, a),
    decreases a.len(),
{
    if a.len() > 0 {
        lemma_char_seq_lt_irrefl(a.drop_first());
    }
}

/// Strict character order is transitive.
pub proof fn lemma_char_seq_lt_trans(a: Seq<char>, b: Seq<char>, c: Seq<char>)
    requires
        char_seq_lt(a, b),
        char_seq_lt(b, c),
    ensures
        char_seq_lt(a, c),
    decreases a.len() + b.len() + c.len(),
{
    if c.len() == 0 || b.len() == 0 || a.len() == 0 {
    } else if a[0] == b[0] && b[0] == c[0] {
        lemma_char_seq_lt_trans(a.drop_first(), b.drop_first(), c.drop_first());
    }
}

} // verus!
