//! The migration graph: per schema name, an ordered mapping from a
//! `(from-version, to-version)` pair to the lens sequence that carries a
//! schema between those versions.  Adding a migration at version `v`
//! registers both the forward edge `(v-1, v)` and the reverse edge
//! `(v, v-1)` holding the reversed lens sequence, so the graph can be
//! walked in either direction.

use vstd::prelude::*;
use vstd::seq_lib::*;

use crate::lens::{
    lemma_seq_reversible, spec_reverse_seq, spec_reversed, spec_seq_reversible,
    spec_transform_seq, ErrorV, Lens, LensV,
};
use crate::lens;
use crate::schema::{FieldV, Schema};
use crate::strmap::StrMap;

verus! {

/// A versioned container of lenses: applying `ops` takes the schema named
/// `schema` from version `version - 1` to `version`.  Version 0 is reserved
/// for the empty schema and cannot be authored.
#[derive(Debug, PartialEq)]
pub struct Migration {
    pub schema: String,
    pub version: usize,
    pub ops: Vec<Lens>,
}

/// The abstract shapes of a sequence of lenses.
pub open spec fn views_of(ops: Seq<Lens>) -> Seq<LensV> {
    Seq::new(ops.len(), |i: int| ops[i]@)
}

/// The edges registered for one schema name, keyed by the version pair.
#[derive(Debug, PartialEq)]
pub struct EdgeTable {
    pub entries: Vec<((usize, usize), Vec<Lens>)>,
}

/// The map described by an edge list: later entries win, although under
/// [`EdgeTable::wf`] every version pair appears at most once.
pub open spec fn edge_assoc_view(s: Seq<((usize, usize), Vec<Lens>)>) -> Map<
    (usize, usize),
    Seq<LensV>,
>
    decreases s.len(),
{
    if s.len() == 0 {
        Map::empty()
    } else {
        edge_assoc_view(s.drop_last()).insert(s.last().0, views_of(s.last().1@))
    }
}

impl View for EdgeTable {
    type V = Map<(usize, usize), Seq<LensV>>;

    open spec fn view(&self) -> Map<(usize, usize), Seq<LensV>> {
        edge_assoc_view(self.entries@)
    }
}

/// A version pair is in the edge map exactly when some entry holds it.
proof fn lemma_edge_view_dom(s: Seq<((usize, usize), Vec<Lens>)>)
    ensures
        forall|k: (usize, usize)|
            #[trigger] edge_assoc_view(s).dom().contains(k) <==> exists|i: int|
                0 <= i < s.len() && s[i].0 == k,
    decreases s.len(),
{
    if s.len() > 0 {
        lemma_edge_view_dom(s.drop_last());
        assert forall|k: (usize, usize)| #[trigger]
            edge_assoc_view(s).dom().contains(k) implies exists|i: int|
            0 <= i < s.len() && s[i].0 == k by {
            if k == s.last().0 {
                assert(s[s.len() - 1].0 == k);
            } else {
                assert(edge_assoc_view(s.drop_last()).dom().contains(k));
                let i = choose|i: int| 0 <= i < s.drop_last().len() && s.drop_last()[i].0 == k;
                assert(s.drop_last()[i] == s[i]);
                assert(s[i].0 == k);
            }
        }
        assert forall|k: (usize, usize)|
            (exists|i: int| 0 <= i < s.len() && s[i].0 == k) implies #[trigger]
            edge_assoc_view(s).dom().contains(k) by {
            let i = choose|i: int| 0 <= i < s.len() && s[i].0 == k;
            if i < s.len() - 1 {
                assert(s.drop_last()[i].0 == k);
                assert(edge_assoc_view(s.drop_last()).dom().contains(k));
            } else {
                assert(k == s.last().0);
            }
        }
    }
}

/// Under unique version pairs, the edge map sends each entry's pair to the
/// shapes of that entry's lenses.
proof fn lemma_edge_view_at(s: Seq<((usize, usize), Vec<Lens>)>, i: int)
    requires
        forall|x: int, y: int| 0 <= x < y < s.len() ==> s[x].0 != s[y].0,
        0 <= i < s.len(),
    ensures
        edge_assoc_view(s).dom().contains(s[i].0),
        edge_assoc_view(s)[s[i].0] == views_of(s[i].1@),
    decreases s.len(),
{
    if i == s.len() - 1 {
    } else {
        assert(forall|x: int, y: int|
            0 <= x < y < s.drop_last().len() ==> s.drop_last()[x].0 != s.drop_last()[y].0);
        lemma_edge_view_at(s.drop_last(), i);
        assert(s[i].0 != s.last().0);
    }
}

impl EdgeTable {
    /// Version pairs are pairwise distinct.
    pub open spec fn wf(&self) -> bool {
        forall|i: int, j: int|
            0 <= i < j < self.entries@.len() ==> self.entries@[i].0 != self.entries@[j].0
    }

    pub fn new() -> (r: Self)
        ensures
            r.wf(),
            r@ == Map::<(usize, usize), Seq<LensV>>::empty(),
    {
        EdgeTable { entries: Vec::new() }
    }

    fn index_of(&self, key: (usize, usize)) -> (r: Option<usize>)
        ensures
            match r {
                Some(i) => i < self.entries@.len() && self.entries@[i as int].0 == key,
                None => forall|j: int| 0 <= j < self.entries@.len() ==> self.entries@[j].0 != key,
            },
    {
        let n = self.entries.len();
        let mut i: usize = 0;
        while i < n
            invariant
                n == self.entries@.len(),
                i <= n,
                forall|j: int| 0 <= j < i ==> self.entries@[j].0 != key,
            decreases n - i,
        {
            if self.entries[i].0.0 == key.0 && self.entries[i].0.1 == key.1 {
                return Some(i);
            }
            i += 1;
        }
        None
    }

    /// The lens sequence registered under `key`, if any.
    pub fn get<'a>(&'a self, key: (usize, usize)) -> (r: Option<&'a Vec<Lens>>)
        requires
            self.wf(),
        ensures
            match r {
                Some(v) => self@.dom().contains(key) && views_of(v@) == self@[key],
                None => !self@.dom().contains(key),
            },
    {
        proof {
            lemma_edge_view_dom(self.entries@);
        }
        match self.index_of(key) {
            Some(i) => {
                proof {
                    lemma_edge_view_at(self.entries@, i as int);
                }
                Some(&self.entries[i].1)
            },
            None => None,
        }
    }

    /// Register `ops` under `key`; a later registration overwrites.
    pub fn insert(&mut self, key: (usize, usize), ops: Vec<Lens>)
        requires
            old(self).wf(),
        ensures
            final(self).wf(),
            final(self)@ == old(self)@.insert(key, views_of(ops@)),
    {
        proof {
            lemma_edge_view_dom(self.entries@);
        }
        let ghost pre = self.entries@;
        let ghost pushed = (key, ops);
        match self.index_of(key) {
            Some(i) => {
                proof {
                    lemma_edge_view_at(self.entries@, i as int);
                }
                self.entries.remove(i);
                self.entries.push((key, ops));
                proof {
                    let mid = pre.remove(i as int);
                    assert(self.entries@ == mid.push(pushed));
                    assert forall|x: int, y: int|
                        0 <= x < y < mid.len() implies mid[x].0 != mid[y].0 by {
                        let sx = if x < i {
                            x
                        } else {
                            x + 1
                        };
                        let sy = if y < i {
                            y
                        } else {
                            y + 1
                        };
                        assert(mid[x] == pre[sx] && mid[y] == pre[sy]);
                    }
                    assert forall|j: int| 0 <= j < mid.len() implies mid[j].0 != key by {
                        let sj = if j < i {
                            j
                        } else {
                            j + 1
                        };
                        assert(mid[j] == pre[sj]);
                        assert(pre[i as int].0 == key);
                    }
                    assert(self.wf()) by {
                        assert forall|x: int, y: int|
                            0 <= x < y < self.entries@.len() implies self.entries@[x].0
                            != self.entries@[y].0 by {
                            if y < mid.len() {
                                assert(self.entries@[x] == mid[x] && self.entries@[y] == mid[y]);
                            } else {
                                assert(self.entries@[x] == mid[x]);
                                assert(self.entries@[y] == pushed);
                            }
                        }
                    }
                    lemma_edge_removed(pre, i as int);
                    assert(edge_assoc_view(self.entries@) == edge_assoc_view(mid).insert(
                        key,
                        views_of(pushed.1@),
                    )) by {
                        assert(self.entries@.drop_last() == mid);
                    }
                    assert(self@ =~= old(self)@.insert(key, views_of(pushed.1@)));
                }
            },
            None => {
                self.entries.push((key, ops));
                proof {
                    assert(self.entries@ == pre.push(pushed));
                    assert(self.wf()) by {
                        assert forall|x: int, y: int|
                            0 <= x < y < self.entries@.len() implies self.entries@[x].0
                            != self.entries@[y].0 by {
                            if y < pre.len() {
                                assert(self.entries@[x] == pre[x] && self.entries@[y] == pre[y]);
                            } else {
                                assert(self.entries@[x] == pre[x]);
                                assert(self.entries@[y] == pushed);
                            }
                        }
                    }
                    assert(self.entries@.drop_last() == pre);
                }
            },
        }
    }
}

/// Removing the entry at `i` removes exactly its pair from the edge map.
proof fn lemma_edge_removed(s: Seq<((usize, usize), Vec<Lens>)>, i: int)
    requires
        forall|x: int, y: int| 0 <= x < y < s.len() ==> s[x].0 != s[y].0,
        0 <= i < s.len(),
    ensures
        edge_assoc_view(s.remove(i)) == edge_assoc_view(s).remove(s[i].0),
    decreases s.len(),
{
    lemma_edge_view_dom(s);
    lemma_edge_view_dom(s.remove(i));
    if i == s.len() - 1 {
        assert(s.remove(i) == s.drop_last());
        assert(!edge_assoc_view(s.drop_last()).dom().contains(s[i].0)) by {
            lemma_edge_view_dom(s.drop_last());
        }
        assert(edge_assoc_view(s.remove(i)) =~= edge_assoc_view(s).remove(s[i].0));
    } else {
        let t = s.remove(i);
        assert(t.drop_last() == s.drop_last().remove(i));
        assert(t.last() == s.last());
        assert(forall|x: int, y: int|
            0 <= x < y < s.drop_last().len() ==> s.drop_last()[x].0 != s.drop_last()[y].0);
        lemma_edge_removed(s.drop_last(), i);
        assert(s.drop_last()[i] == s[i]);
        assert(s[i].0 != s.last().0);
        assert(edge_assoc_view(t) == edge_assoc_view(t.drop_last()).insert(
            t.last().0,
            views_of(t.last().1@),
        ));
        assert(edge_assoc_view(t) =~= edge_assoc_view(s).remove(s[i].0));
    }
}

/// Which way a walk through the version line is headed.
#[derive(Debug, Clone, Copy, PartialEq, Eq, Structural)]
pub enum Direction {
    Up,
    Down,
}

impl Direction {
    /// The next version in this direction, saturating at the ends.
    pub fn tick(&self, n: usize) -> (r: usize)
        ensures
            *self is Up ==> r == if n < usize::MAX {
                n + 1
            } else {
                n as int
            },
            *self is Down ==> r == if n > 0 {
                n - 1
            } else {
                n as int
            },
    {
        match self {
            Direction::Up => n.saturating_add(1),
            Direction::Down => n.saturating_sub(1),
        }
    }
}

/// The collection of all migrations for all schemas, navigable in both
/// directions.
#[derive(Debug, PartialEq)]
pub struct Migrator {
    pub paths: StrMap<EdgeTable>,
}

impl Default for Migrator {
    /// A migrator with no migrations.
    fn default() -> (r: Self)
        ensures
            r.wf(),
            r.paths@ == Map::<Seq<char>, Map<(usize, usize), Seq<LensV>>>::empty(),
            r.paths.entries@.len() == 0,
    {
        Migrator { paths: StrMap::new() }
    }
}

impl Migrator {
    /// The name table and every edge table in it are well formed.
    pub open spec fn wf(&self) -> bool {
        self.paths.wf() && forall|i: int|
            0 <= i < self.paths.entries@.len() ==> (#[trigger] self.paths.entries@[i]).1.wf()
    }

    /// The lens shapes registered for `schema` from version `from` to `to`.
    pub open spec fn spec_edge(&self, schema: Seq<char>, from: usize, to: usize) -> Option<
        Seq<LensV>,
    > {
        if self.paths@.dom().contains(schema) && self.paths@[schema].dom().contains((from, to)) {
            Some(self.paths@[schema][(from, to)])
        } else {
            None
        }
    }

    /// The per-step lens sequences along the version line from `from` to
    /// `to`, or `None` if a step is missing.
    pub open spec fn spec_steps(&self, schema: Seq<char>, from: usize, to: usize) -> Option<
        Seq<Seq<LensV>>,
    >
        decreases
                if from <= to {
                    to - from
                } else {
                    from - to
                },
    {
        if from == to {
            Some(Seq::empty())
        } else {
            let nxt = if from < to {
                (from + 1) as usize
            } else {
                (from - 1) as usize
            };
            match self.spec_edge(schema, from, nxt) {
                None => None,
                Some(ops) => match self.spec_steps(schema, nxt, to) {
                    None => None,
                    Some(rest) => Some(seq![ops] + rest),
                },
            }
        }
    }

    /// Register a migration: both the forward edge `(v-1, v)` with its lens
    /// sequence and the reverse edge `(v, v-1)` with the reversed sequence.
    /// Version 0 is reserved for the empty schema.
    pub fn add_migration(&mut self, migration: Migration)
        requires
            old(self).wf(),
            migration.version >= 1,
        ensures
            final(self).wf(),
            final(self).spec_edge(
                migration.schema@,
                (migration.version - 1) as usize,
                migration.version,
            ) == Some(views_of(migration.ops@)),
            final(self).spec_edge(
                migration.schema@,
                migration.version,
                (migration.version - 1) as usize,
            ) == Some(spec_reverse_seq(views_of(migration.ops@))),
            forall|s: Seq<char>, a: usize, b: usize|
                (s != migration.schema@ || !((a == migration.version - 1 && b == migration.version)
                    || (a == migration.version && b == migration.version - 1)))
                    ==> #[trigger] final(self).spec_edge(s, a, b) == old(self).spec_edge(s, a, b),
    {
        let Migration { schema, version, ops } = migration;

        let mut table = match self.paths.remove(&schema) {
            Some(t) => t,
            None => EdgeTable::new(),
        };
        proof {
            if old(self).paths@.dom().contains(schema@) {
                assert(table.wf()) by {
                    old(self).paths.lemma_entries_in_view();
                }
            }
        }

        let reversed = reverse_lenses(&ops);
        table.insert((version, version - 1), reversed);
        table.insert((version - 1, version), ops);
        self.paths.insert(schema, table);

        proof {
            let ghost tv = table;
            assert forall|i: int| 0 <= i < self.paths.entries@.len() implies (
            #[trigger] self.paths.entries@[i]).1.wf() by {
                if self.paths.entries@[i].1 != tv {
                    let j = choose|j: int|
                        0 <= j < old(self).paths.entries@.len() && old(self).paths.entries@[j].1
                            == self.paths.entries@[i].1;
                    assert(old(self).paths.entries@[j].1.wf());
                }
            }
            assert(self.paths@ == old(self).paths@.insert(schema@, table@));
            assert(self.paths@[schema@][((version - 1) as usize, version)] == views_of(
                migration.ops@,
            ));
            assert(self.paths@[schema@][(version, (version - 1) as usize)] == spec_reverse_seq(
                views_of(migration.ops@),
            ));
        }
    }

    /// The concatenated lens path from `from` to `to` for `schema`, stepping
    /// one version at a time; `None` when a step is missing.  As a documented
    /// convention, a path from a version to itself is reported as `None`.
    pub fn migration_path(&self, schema: &String, from: usize, to: usize) -> (r: Option<Vec<Lens>>)
        requires
            self.wf(),
        ensures
            from == to ==> r is None,
            from != to ==> match r {
                Some(v) => self.spec_steps(schema@, from, to) matches Some(steps) && views_of(v@)
                    == steps.flatten(),
                None => self.spec_steps(schema@, from, to) is None,
            },
    {
        if from == to {
            return None;
        }
        self.path_from(schema, from, to)
    }

    /// The concatenated lens path, with the empty path for `from == to`.
    fn path_from(&self, schema: &String, from: usize, to: usize) -> (r: Option<Vec<Lens>>)
        requires
            self.wf(),
        ensures
            match r {
                Some(v) => self.spec_steps(schema@, from, to) matches Some(steps) && views_of(v@)
                    == steps.flatten(),
                None => self.spec_steps(schema@, from, to) is None,
            },
        decreases
                if from <= to {
                    to - from
                } else {
                    from - to
                },
    {
        if from == to {
            let r = Vec::new();
            proof {
                assert(views_of(r@) =~= Seq::<Seq<LensV>>::empty().flatten());
            }
            return Some(r);
        }
        let direction = if from < to {
            Direction::Up
        } else {
            Direction::Down
        };
        let nxt = direction.tick(from);
        let step = match self.paths.get(schema) {
            None => {
                proof {
                    assert(self.spec_edge(schema@, from, nxt) is None);
                }
                return None;
            },
            Some(table) => {
                proof {
                    assert(table.wf()) by {
                        self.paths.lemma_entries_in_view();
                        let i = choose|i: int|
                            0 <= i < self.paths.entries@.len() && (
                            #[trigger] self.paths.entries@[i]).0@ == schema@ && *table
                                == self.paths.entries@[i].1;
                    }
                }
                match table.get((from, nxt)) {
                    None => {
                        proof {
                            assert(self.spec_edge(schema@, from, nxt) is None);
                        }
                        return None;
                    },
                    Some(ops) => duplicate_lenses(ops),
                }
            },
        };
        let ghost step_views = views_of(step@);
        proof {
            assert(self.spec_edge(schema@, from, nxt) == Some(step_views));
        }
        match self.path_from(schema, nxt, to) {
            None => None,
            Some(rest) => {
                let ghost rest_views = views_of(rest@);
                let ghost steps_rest = self.spec_steps(schema@, nxt, to)->Some_0;
                let mut out = step;
                let mut rest = rest;
                out.append(&mut rest);
                proof {
                    let steps = seq![step_views] + steps_rest;
                    assert(self.spec_steps(schema@, from, to) == Some(steps));
                    assert(steps.drop_first() =~= steps_rest);
                    assert(steps.flatten() == step_views + steps_rest.flatten());
                    assert(views_of(out@) =~= step_views + rest_views);
                }
                Some(out)
            },
        }
    }

    /// The schema of `schema` at `version`: the empty schema carried through
    /// the lens path from version 0, its fields in name order.
    #[verifier::loop_isolation(false)]
    pub fn schema(&self, schema: &String, version: usize) -> (r: Result<Schema, Error>)
        requires
            self.wf(),
        ensures
            match r {
                Ok(s) => {
                    &&& version != 0
                    &&& s.wf()
                    &&& s.sorted()
                    &&& self.spec_steps(schema@, 0, version) matches Some(steps)
                        && spec_transform_seq(steps.flatten(), Map::empty()) == Ok::<_, ErrorV>(s@)
                },
                Err(Error::MigrationPathNotFound(s, v)) => {
                    &&& s@ == schema@
                    &&& v == version
                    &&& version == 0 || self.spec_steps(schema@, 0, version) is None
                },
                Err(Error::CouldNotApply(e)) => {
                    &&& self.spec_steps(schema@, 0, version) matches Some(steps)
                        && spec_transform_seq(steps.flatten(), Map::empty()) == Err::<
                        Map<Seq<char>, FieldV>,
                        _,
                    >(e@)
                },
            },
    {
        let mut out = Schema::new();
        let path = match self.migration_path(schema, 0, version) {
            Some(path) => path,
            None => {
                return Err(Error::MigrationPathNotFound(schema.clone(), version));
            },
        };
        let ghost lenses = views_of(path@);
        let n = path.len();
        let mut i: usize = 0;
        while i < n
            invariant
                n == path@.len(),
                i <= n,
                lenses == views_of(path@),
                out.wf(),
                spec_transform_seq(lenses.take(i as int), Map::empty()) == Ok::<_, ErrorV>(out@),
            decreases n - i,
        {
            let lens = &path[i];
            let ghost pre = out@;
            match lens.transform_schema(&mut out) {
                Ok(()) => {},
                Err(e) => {
                    proof {
                        lemma_transform_seq_take_step(lenses, i as int, Map::empty(), pre);
                        assert(spec_transform_seq(lenses, Map::empty()) == Err::<
                            Map<Seq<char>, FieldV>,
                            _,
                        >(e@)) by {
                            lemma_transform_seq_stops_at_error(lenses, i as int, Map::empty(), pre, e@);
                        }
                    }
                    return Err(Error::CouldNotApply(e));
                },
            }
            proof {
                lemma_transform_seq_take_step(lenses, i as int, Map::empty(), pre);
            }
            i += 1;
        }
        proof {
            assert(lenses.take(n as int) =~= lenses);
        }
        Ok(out.into_sorted())
    }
}

/// Extending a successful prefix by one lens folds that lens into the result.
proof fn lemma_transform_seq_take_step(
    lenses: Seq<LensV>,
    i: int,
    s0: Map<Seq<char>, FieldV>,
    pre: Map<Seq<char>, FieldV>,
)
    requires
        0 <= i < lenses.len(),
        spec_transform_seq(lenses.take(i), s0) == Ok::<_, ErrorV>(pre),
    ensures
        spec_transform_seq(lenses.take(i + 1), s0) == match lens::spec_transform_schema(
            lenses[i],
            pre,
        ) {
            Ok(s1) => Ok::<_, ErrorV>(s1),
            Err(e) => Err(e),
        },
    decreases i,
{
    lemma_transform_seq_snoc(lenses.take(i), lenses[i], s0);
    assert(lenses.take(i).push(lenses[i]) =~= lenses.take(i + 1));
}

/// Appending one lens to a successfully applied sequence applies it last.
proof fn lemma_transform_seq_snoc(ls: Seq<LensV>, l: LensV, s: Map<Seq<char>, FieldV>)
    requires
        spec_transform_seq(ls, s) is Ok,
    ensures
        spec_transform_seq(ls.push(l), s) == match lens::spec_transform_schema(
            l,
            spec_transform_seq(ls, s)->Ok_0,
        ) {
            Ok(s1) => Ok::<_, ErrorV>(s1),
            Err(e) => Err(e),
        },
    decreases ls.len(),
{
    if ls.len() == 0 {
        assert(ls.push(l)[0] == l);
        assert(ls.push(l).drop_first() =~= Seq::<LensV>::empty());
        match lens::spec_transform_schema(l, s) {
            Ok(s1) => {
                assert(spec_transform_seq(ls.push(l), s) == spec_transform_seq(
                    ls.push(l).drop_first(),
                    s1,
                ));
            },
            Err(e) => {},
        }
    } else {
        let s1 = lens::spec_transform_schema(ls[0], s)->Ok_0;
        lemma_transform_seq_snoc(ls.drop_first(), l, s1);
        assert(ls.push(l)[0] == ls[0]);
        assert(ls.push(l).drop_first() =~= ls.drop_first().push(l));
    }
}

/// If a prefix succeeds and the next lens fails, the whole sequence fails
/// with that very error.
proof fn lemma_transform_seq_stops_at_error(
    lenses: Seq<LensV>,
    i: int,
    s0: Map<Seq<char>, FieldV>,
    pre: Map<Seq<char>, FieldV>,
    e: ErrorV,
)
    requires
        0 <= i < lenses.len(),
        spec_transform_seq(lenses.take(i), s0) == Ok::<_, ErrorV>(pre),
        lens::spec_transform_schema(lenses[i], pre) == Err::<Map<Seq<char>, FieldV>, _>(e),
    ensures
        spec_transform_seq(lenses, s0) == Err::<Map<Seq<char>, FieldV>, _>(e),
    decreases i,
{
    if i == 0 {
        assert(lenses[0] == lenses.take(1int)[0]);
    } else {
        let l0 = lenses[0];
        assert(lenses.take(i)[0] == l0);
        let s1 = lens::spec_transform_schema(l0, s0)->Ok_0;
        assert(spec_transform_seq(lenses.take(i).drop_first(), s1) == Ok::<_, ErrorV>(pre));
        assert(lenses.take(i).drop_first() =~= lenses.drop_first().take(i - 1));
        assert(lenses.drop_first()[i - 1] == lenses[i]);
        lemma_transform_seq_stops_at_error(lenses.drop_first(), i - 1, s1, pre, e);
    }
}

/// The number of steps on any found path equals the version distance: the
/// graph is a line per schema, so the path is uniquely determined.
pub proof fn lemma_path_step_count(m: &Migrator, schema: Seq<char>, from: usize, to: usize)
    ensures
        m.spec_steps(schema, from, to) matches Some(steps) ==> steps.len() == if from <= to {
            to - from
        } else {
            from - to
        },
    decreases
            if from <= to {
                to - from
            } else {
                from - to
            },
{
    if from != to {
        let nxt = if from < to {
            (from + 1) as usize
        } else {
            (from - 1) as usize
        };
        lemma_path_step_count(m, schema, nxt, to);
    }
}

/// Graph symmetry: the two edges stored for a migration undo one another.
/// On any base schema that the forward edge transforms successfully without
/// losing information, following the forward edge and then the stored
/// reverse edge is the identity.
pub proof fn lemma_graph_symmetry(
    m: &Migrator,
    schema: Seq<char>,
    version: usize,
    s: Map<Seq<char>, FieldV>,
)
    requires
        1 <= version,
        m.spec_edge(schema, (version - 1) as usize, version) is Some,
        m.spec_edge(schema, version, (version - 1) as usize) == Some(
            spec_reverse_seq(m.spec_edge(schema, (version - 1) as usize, version)->Some_0),
        ),
        spec_transform_seq(m.spec_edge(schema, (version - 1) as usize, version)->Some_0, s) is Ok,
        spec_seq_reversible(m.spec_edge(schema, (version - 1) as usize, version)->Some_0, s),
    ensures
        spec_transform_seq(
            m.spec_edge(schema, version, (version - 1) as usize)->Some_0,
            spec_transform_seq(m.spec_edge(schema, (version - 1) as usize, version)->Some_0, s)->Ok_0,
        ) == Ok::<_, ErrorV>(s),
{
    lemma_seq_reversible(m.spec_edge(schema, (version - 1) as usize, version)->Some_0, s);
}

/// Reverse a lens sequence: each lens reversed, in reverse order.
fn reverse_lenses(ops: &Vec<Lens>) -> (r: Vec<Lens>)
    ensures
        views_of(r@) == spec_reverse_seq(views_of(ops@)),
{
    let n = ops.len();
    let mut out: Vec<Lens> = Vec::new();
    let mut i: usize = 0;
    while i < n
        invariant
            n == ops@.len(),
            i <= n,
            out@.len() == i,
            forall|j: int| 0 <= j < i ==> out@[j]@ == spec_reversed(ops@[n - 1 - j]@),
        decreases n - i,
    {
        out.push(ops[n - 1 - i].reversed());
        i += 1;
    }
    proof {
        assert(views_of(out@) =~= spec_reverse_seq(views_of(ops@)));
    }
    out
}

/// Copy a lens sequence, preserving its abstract shapes.
fn duplicate_lenses(ops: &Vec<Lens>) -> (r: Vec<Lens>)
    ensures
        views_of(r@) == views_of(ops@),
{
    let n = ops.len();
    let mut out: Vec<Lens> = Vec::new();
    let mut i: usize = 0;
    while i < n
        invariant
            n == ops@.len(),
            i <= n,
            out@.len() == i,
            forall|j: int| 0 <= j < i ==> out@[j]@ == ops@[j]@,
        decreases n - i,
    {
        out.push(ops[i].duplicate());
        i += 1;
    }
    proof {
        assert(views_of(out@) =~= views_of(ops@));
    }
    out
}

/// A failure while navigating the migration graph.
#[derive(Debug, PartialEq)]
pub enum Error {
    MigrationPathNotFound(String, usize),
    CouldNotApply(lens::Error),
}

} // verus!
