//! The store facade: it maps a schema name to its pinned version, derives
//! the record schema for that version through the migration graph, validates
//! incoming values, and records rows and fields through a storage
//! transaction.  Every insert is committed in full or not at all.

use vstd::prelude::*;
use vstd::seq_lib::*;

use crate::clock::Clock;
use crate::hlc::Hlc;
use crate::lens::spec_transform_seq;
use crate::migrator;
use crate::migrator::Migrator;
use crate::op::{Field, FieldV, Row, RowV};
use crate::schema::FieldV as SchemaFieldV;
use crate::storage::{ROTransaction, RWTransaction, Storage};
use crate::strmap::{char_seq_lt, StrMap};
use crate::type_::{spec_validates, ValidationError};
use crate::value::{Value, ValueV};

verus! {

/// The record schema a migrator derives for a name at a version, when the
/// whole path from the empty schema applies.
pub open spec fn spec_derived(m: Migrator, schema: Seq<char>, version: usize) -> Option<
    Map<Seq<char>, SchemaFieldV>,
> {
    if version != 0 && m.spec_steps(schema, 0, version) is Some && spec_transform_seq(
        m.spec_steps(schema, 0, version)->Some_0.flatten(),
        Map::empty(),
    ) is Ok {
        Some(spec_transform_seq(m.spec_steps(schema, 0, version)->Some_0.flatten(), Map::empty())->Ok_0)
    } else {
        None
    }
}

/// The rows of `schema` that are still live: a row removed after it was
/// added no longer shows.
pub open spec fn spec_live(rows: Seq<RowV>, schema: Seq<char>) -> Seq<RowV> {
    rows.filter(|row: RowV| row.schema == schema).filter(
        |row: RowV| !(row.removed matches Some(rem) && rem@ > row.added@),
    )
}

/// Fold a field sequence by field name; the later clock wins, and among
/// equal clocks the later record wins.
pub open spec fn spec_fold_fields(fields: Seq<FieldV>) -> Map<Seq<char>, (u64, ValueV)>
    decreases fields.len(),
{
    if fields.len() == 0 {
        Map::empty()
    } else {
        let m = spec_fold_fields(fields.drop_last());
        let f = fields.last();
        if m.dom().contains(f.field_name) && m[f.field_name].0 > f.timestamp@ {
            m
        } else {
            m.insert(f.field_name, (f.timestamp@, f.value))
        }
    }
}

/// The object a row folds into: its fields by name, later clocks winning.
pub open spec fn spec_row_obj(fields: Seq<FieldV>, row_id: u128) -> Map<Seq<char>, ValueV> {
    let folded = spec_fold_fields(fields.filter(|f: FieldV| f.row_id == row_id));
    Map::new(|k: Seq<char>| folded.dom().contains(k), |k: Seq<char>| folded[k].1)
}

/// Every value supplied for a field of the schema passes that field's type.
pub open spec fn spec_all_supplied_valid(
    sm: Map<Seq<char>, SchemaFieldV>,
    data: Map<Seq<char>, ValueV>,
) -> bool {
    forall|n: Seq<char>|
        #[trigger] sm.dom().contains(n) && data.dom().contains(n) ==> spec_validates(
            sm[n].type_,
            data[n],
        )
}

/// A failure surfaced by the store.
#[derive(Debug)]
pub enum Error<E> {
    Storage(E),
    SchemaNotFound(String),
    Schema(migrator::Error),
    Validation(String, ValidationError),
}

/// Relies on uuid::Uuid::now_v7, converted through Uuid::as_u128: a fresh
/// time-ordered row identifier.  Nothing is promised of its value.  The call
/// panics only on an environment fault no argument could exclude: a system
/// clock reading before the Unix epoch, or unavailable OS randomness.
#[verifier::external_body]
fn new_row_id() -> u128 {
    uuid::Uuid::now_v7().as_u128()
}

/// The store: a migration graph, the pinned version per schema name, a
/// storage backend, and a clock feeding the hybrid logical clock.
pub struct Store<S, C> {
    pub migrator: Migrator,
    pub schema_to_version: StrMap<usize>,
    pub storage: S,
    pub clock: C,
    pub hlc: Hlc,
}

impl<S: Storage, C: Clock> Store<S, C> {
    /// The migration graph and the version table are well formed.
    pub open spec fn wf(&self) -> bool {
        self.migrator.wf() && self.schema_to_version.wf()
    }

    pub fn new(
        migrator: Migrator,
        schema_to_version: StrMap<usize>,
        storage: S,
        clock: C,
    ) -> (r: Self)
        requires
            migrator.wf(),
            schema_to_version.wf(),
        ensures
            r.wf(),
            r.migrator == migrator,
            r.schema_to_version == schema_to_version,
            r.storage == storage,
            r.clock == clock,
            r.hlc@ == 0,
    {
        Self { migrator, schema_to_version, storage, clock, hlc: Hlc::zero() }
    }

    /// Advance the store's hybrid logical clock by one event, feeding it a
    /// fresh wall-clock reading.  Near the clock's very end the value is
    /// kept rather than wrapped.
    fn tick(&mut self) -> (r: Hlc)
        ensures
            r == final(self).hlc,
            final(self).hlc@ >= old(self).hlc@,
            final(self).migrator == old(self).migrator,
            final(self).schema_to_version == old(self).schema_to_version,
            final(self).storage == old(self).storage,
            final(self).clock == old(self).clock,
    {
        let now = self.clock.unix_timestamp();
        if self.hlc.as_u64() <= u64::MAX - 0x1_0000 {
            self.hlc = self.hlc.next(now);
        }
        self.hlc
    }

    /// Insert a record: derive the schema pinned for `schema_name`,
    /// validate each supplied value against its field type, and write one
    /// field record per supplied field plus one row record, all within one
    /// transaction.  On any failure nothing reaches the storage.
    pub fn insert(&mut self, schema_name: String, data: StrMap<Value>) -> (r: Result<
        u128,
        Error<S::Error>,
    >)
        requires
            old(self).wf(),
            data.wf(),
        ensures
            final(self).wf(),
            final(self).migrator == old(self).migrator,
            final(self).schema_to_version == old(self).schema_to_version,
            (r is Err ==> final(self).storage.rows() == old(self).storage.rows()
                && final(self).storage.fields() == old(self).storage.fields()),
            (!old(self).schema_to_version@.dom().contains(schema_name@) ==> (r matches Err(
                Error::SchemaNotFound(_),
            ))),
            ((old(self).schema_to_version@.dom().contains(schema_name@) && spec_derived(
                old(self).migrator,
                schema_name@,
                old(self).schema_to_version@[schema_name@],
            ) is None) ==> (r matches Err(Error::Schema(_)))),
            ((S::spec_infallible() && <S::RWTx as RWTransaction>::spec_infallible() && old(
                self,
            ).schema_to_version@.dom().contains(schema_name@) && spec_derived(
                old(self).migrator,
                schema_name@,
                old(self).schema_to_version@[schema_name@],
            ) is Some && spec_all_supplied_valid(
                spec_derived(
                    old(self).migrator,
                    schema_name@,
                    old(self).schema_to_version@[schema_name@],
                )->Some_0,
                data@,
            )) ==> r is Ok),
            ((S::spec_infallible() && <S::RWTx as RWTransaction>::spec_infallible() && old(
                self,
            ).schema_to_version@.dom().contains(schema_name@) && spec_derived(
                old(self).migrator,
                schema_name@,
                old(self).schema_to_version@[schema_name@],
            ) is Some && !spec_all_supplied_valid(
                spec_derived(
                    old(self).migrator,
                    schema_name@,
                    old(self).schema_to_version@[schema_name@],
                )->Some_0,
                data@,
            )) ==> (r matches Err(Error::Validation(_, _)))),
            (r matches Err(Error::SchemaNotFound(s)) ==> s@ == schema_name@
                && !old(self).schema_to_version@.dom().contains(schema_name@)),
            (r matches Err(Error::Schema(e)) ==> ({
                let version = old(self).schema_to_version@[schema_name@];
                &&& old(self).schema_to_version@.dom().contains(schema_name@)
                &&& spec_derived(old(self).migrator, schema_name@, version) is None
                &&& ((e is MigrationPathNotFound) <==> (version == 0 || old(
                    self,
                ).migrator.spec_steps(schema_name@, 0, version) is None))
                &&& (e matches migrator::Error::MigrationPathNotFound(s2, v2) ==> s2@
                    == schema_name@ && v2 == version)
                &&& (e matches migrator::Error::CouldNotApply(le) ==> old(
                    self,
                ).migrator.spec_steps(schema_name@, 0, version) matches Some(steps)
                    && spec_transform_seq(steps.flatten(), Map::empty()) == Err::<
                    Map<Seq<char>, SchemaFieldV>,
                    _,
                >(le@))
            })),
            (r matches Err(Error::Validation(name, err)) ==> {
                let version = old(self).schema_to_version@[schema_name@];
                let sm = spec_derived(old(self).migrator, schema_name@, version)->Some_0;
                &&& old(self).schema_to_version@.dom().contains(schema_name@)
                &&& spec_derived(old(self).migrator, schema_name@, version) is Some
                &&& sm.dom().contains(name@)
                &&& data@.dom().contains(name@)
                &&& !spec_validates(sm[name@].type_, data@[name@])
                &&& ({
                    let ty = sm[name@].type_;
                    err matches ValidationError::InvalidValue { expected, got } && expected == ty
                        && got@ == data@[name@]
                })
                &&& (forall|n2: Seq<char>|
                    (#[trigger] sm.dom().contains(n2)) && data@.dom().contains(n2)
                        && !spec_validates(sm[n2].type_, data@[n2]) ==> (n2 == name@
                        || char_seq_lt(name@, n2)))
            }),
            (r matches Ok(id) ==> {
                let version = old(self).schema_to_version@[schema_name@];
                let sm = spec_derived(old(self).migrator, schema_name@, version)->Some_0;
                &&& old(self).schema_to_version@.dom().contains(schema_name@)
                &&& spec_derived(old(self).migrator, schema_name@, version) is Some
                &&& final(self).storage.rows().len() == old(self).storage.rows().len() + 1
                &&& final(self).storage.rows().take(old(self).storage.rows().len() as int)
                    == old(self).storage.rows()
                &&& final(self).storage.rows().last().schema == schema_name@
                &&& final(self).storage.rows().last().id == id
                &&& final(self).storage.rows().last().removed is None
                &&& final(self).storage.rows().last().added == final(self).hlc
                &&& final(self).hlc@ >= old(self).hlc@
                &&& (exists|names: Seq<Seq<char>>|
                    {
                        &&& names.no_duplicates()
                        &&& (forall|j1: int, j2: int|
                            0 <= j1 < j2 < names.len() ==> char_seq_lt(
                                #[trigger] names[j1],
                                #[trigger] names[j2],
                            ))
                        &&& (forall|n: Seq<char>|
                            #[trigger] names.contains(n) <==> (sm.dom().contains(n)
                                && data@.dom().contains(n)))
                        &&& (forall|j: int|
                            0 <= j < names.len() ==> spec_validates(
                                sm[#[trigger] names[j]].type_,
                                data@[names[j]],
                            ))
                        &&& final(self).storage.fields().len()
                            == old(self).storage.fields().len() + names.len()
                        &&& final(self).storage.fields().take(
                            old(self).storage.fields().len() as int,
                        ) == old(self).storage.fields()
                        &&& (forall|j: int|
                            0 <= j < names.len() ==> {
                                let f =
                                    final(self).storage.fields()[old(self).storage.fields().len()
                                    + j];
                                &&& f.schema == schema_name@
                                &&& f.row_id == id
                                &&& f.field_name == #[trigger] names[j]
                                &&& f.schema_version == version
                                &&& f.value == data@[names[j]]
                                &&& old(self).hlc@ <= f.timestamp@
                                &&& f.timestamp@ <= final(self).hlc@
                            })
                        &&& (forall|j1: int, j2: int|
                            0 <= j1 <= j2 < names.len() ==> (#[trigger] final(self).storage.fields().skip(old(self).storage.fields().len() as int)[j1]).timestamp@
                                <= (#[trigger] final(self).storage.fields().skip(old(self).storage.fields().len() as int)[j2]).timestamp@)
                    })
            }),
    {
        let ghost data0 = data@;
        let ghost storage_rows0 = self.storage.rows();
        let ghost storage_fields0 = self.storage.fields();

        let version = match self.schema_to_version.get(&schema_name) {
            Some(v) => *v,
            None => {
                return Err(Error::SchemaNotFound(schema_name));
            },
        };

        let schema = match self.migrator.schema(&schema_name, version) {
            Ok(s) => s,
            Err(e) => {
                return Err(Error::Schema(e));
            },
        };
        let ghost sm = schema@;
        proof {
            assert(spec_derived(self.migrator, schema_name@, version) == Some(sm));
        }

        let mut tx = match self.storage.rw_transaction() {
            Ok(t) => t,
            Err(e) => {
                return Err(Error::Storage(e));
            },
        };

        let id = new_row_id();
        let mut remaining = data;

        let ghost mut names: Seq<Seq<char>> = Seq::empty();
        let n = schema.len();
        let mut i: usize = 0;
        while i < n
            invariant
                self.wf(),
                self.migrator == old(self).migrator,
                self.schema_to_version == old(self).schema_to_version,
                self.storage.rows() == storage_rows0,
                self.storage.fields() == storage_fields0,
                n == schema.entries@.len(),
                i <= n,
                schema.wf(),
                schema.sorted(),
                remaining.wf(),
                sm == schema@,
                data0 == data@,
                remaining@ == data0.remove_keys(names.to_set()),
                storage_rows0 == old(self).storage.rows(),
                storage_fields0 == old(self).storage.fields(),
                old(self).schema_to_version@.dom().contains(schema_name@),
                version == old(self).schema_to_version@[schema_name@],
                spec_derived(old(self).migrator, schema_name@, version) == Some(sm),
                names.no_duplicates(),
                forall|j1: int, j2: int|
                    0 <= j1 < j2 < names.len() ==> char_seq_lt(
                        #[trigger] names[j1],
                        #[trigger] names[j2],
                    ),
                forall|j: int|
                    0 <= j < names.len() ==> sm.dom().contains(#[trigger] names[j])
                        && data0.dom().contains(names[j]) && spec_validates(
                        sm[names[j]].type_,
                        data0[names[j]],
                    ),
                forall|j: int|
                    0 <= j < names.len() ==> exists|k: int|
                        0 <= k < i && schema.entries@[k].0@ == #[trigger] names[j],
                forall|k: int|
                    0 <= k < i ==> (data0.dom().contains(#[trigger] schema.entries@[k].0@)
                        <==> names.contains(schema.entries@[k].0@)),
                tx.rows() == Seq::<RowV>::empty(),
                tx.fields().len() == names.len(),
                old(self).hlc@ <= self.hlc@,
                forall|j: int|
                    0 <= j < names.len() ==> {
                        let f = tx.fields()[j];
                        &&& f.schema == schema_name@
                        &&& f.row_id == id
                        &&& f.field_name == #[trigger] names[j]
                        &&& f.schema_version == version
                        &&& f.value == data0[names[j]]
                        &&& old(self).hlc@ <= f.timestamp@
                        &&& f.timestamp@ <= self.hlc@
                    },
                forall|j1: int, j2: int|
                    0 <= j1 <= j2 < names.len() ==> (#[trigger] tx.fields()[j1]).timestamp@ <= (
                    #[trigger] tx.fields()[j2]).timestamp@,
            decreases n - i,
        {
            let ghost hlc_pre = self.hlc;
            let ghost tx_pre = tx.fields();
            let name = schema.key_at(i);
            proof {
                schema.lemma_entries_in_view();
                assert forall|j: int| 0 <= j < names.len() implies #[trigger] names[j]
                    != name@ by {
                    let k = choose|k: int|
                        0 <= k < i && schema.entries@[k].0@ == #[trigger] names[j];
                    assert(schema.entries@[k].0@ != schema.entries@[i as int].0@);
                }
                assert(!names.contains(name@));
            }
            let name = name.clone();
            match remaining.remove(&name) {
                Some(value) => {
                    proof {
                        assert(data0.remove_keys(names.to_set()).dom().contains(name@));
                        assert(data0.dom().contains(name@));
                        assert(data0.remove_keys(names.to_set())[name@] == data0[name@]);
                    }
                    let field_def = schema.value_at(i);
                    match field_def.type_.validate(&value) {
                        Err(err) => {
                            proof {
                                assert(schema@.dom().contains(schema.entries@[i as int].0@));
                                assert(sm[name@] == schema.entries@[i as int].1@);
                                assert(sm[name@].type_ == schema.entries@[i as int].1.type_);
                                schema.lemma_entries_in_view();
                                assert(sm.dom().contains(name@) && data0.dom().contains(name@)
                                    && !spec_validates(sm[name@].type_, data0[name@]));
                                assert(!spec_all_supplied_valid(sm, data0));
                                assert forall|n2: Seq<char>|
                                    (#[trigger] sm.dom().contains(n2)) && data0.dom().contains(n2)
                                        && !spec_validates(sm[n2].type_, data0[n2]) implies (n2
                                    == name@ || char_seq_lt(name@, n2)) by {
                                    let k = choose|k: int|
                                        0 <= k < schema.entries@.len() && (
                                        #[trigger] schema.entries@[k]).0@ == n2;
                                    assert(sm[n2] == schema.entries@[k].1@);
                                    if k < i {
                                        assert(names.contains(n2));
                                        let j = choose|j: int|
                                            0 <= j < names.len() && #[trigger] names[j] == n2;
                                        assert(spec_validates(sm[n2].type_, data0[n2]));
                                    } else if k > i {
                                        assert(char_seq_lt(
                                            schema.entries@[i as int].0@,
                                            schema.entries@[k].0@,
                                        ));
                                    } else {
                                        assert(n2 == name@);
                                    }
                                }
                            }
                            match self.storage.abort(tx) {
                                Ok(()) => {
                                    return Err(Error::Validation(name, err));
                                },
                                Err(e) => {
                                    return Err(Error::Storage(e));
                                },
                            }
                        },
                        Ok(()) => {
                            let ts = self.tick();
                            let field = Field {
                                schema: schema_name.clone(),
                                row_id: id,
                                field_name: name.clone(),
                                timestamp: ts,
                                schema_version: version,
                                value,
                            };
                            match tx.store_field(field) {
                                Ok(()) => {
                                    proof {
                                        assert(schema@.dom().contains(
                                            schema.entries@[i as int].0@,
                                        ));
                                        assert(sm[name@] == schema.entries@[i as int].1@);
                                        assert(spec_validates(sm[name@].type_, data0[name@]));
                                        let prev_names = names;
                                        names = names.push(name@);
                                        assert(names.to_set() =~= prev_names.to_set().insert(
                                            name@,
                                        )) by {
                                            assert forall|t: Seq<char>|
                                                names.to_set().contains(t) implies prev_names.to_set().contains(t) || t == name@ by {
                                                let j = choose|j: int|
                                                    0 <= j < names.len() && #[trigger] names[j] == t;
                                                if j < prev_names.len() {
                                                    assert(prev_names[j] == t);
                                                }
                                            }
                                            assert forall|t: Seq<char>|
                                                prev_names.to_set().contains(t) || t == name@ implies names.to_set().contains(t) by {
                                                if prev_names.to_set().contains(t) {
                                                    let j = choose|j: int|
                                                        0 <= j < prev_names.len() && #[trigger] prev_names[j] == t;
                                                    assert(names[j] == t);
                                                } else {
                                                    assert(names[names.len() - 1] == t);
                                                }
                                            }
                                        }
                                        assert(remaining@ =~= data0.remove_keys(names.to_set()));
                                        assert forall|j: int|
                                            0 <= j < names.len() implies exists|k: int|
                                                0 <= k < i + 1 && schema.entries@[k].0@
                                                    == #[trigger] names[j] by {
                                            if j < prev_names.len() {
                                                let k = choose|k: int|
                                                    0 <= k < i && schema.entries@[k].0@
                                                        == #[trigger] prev_names[j];
                                                assert(schema.entries@[k].0@ == names[j]);
                                            } else {
                                                assert(schema.entries@[i as int].0@ == names[j]);
                                            }
                                        }
                                        assert forall|j1: int, j2: int|
                                            0 <= j1 < j2 < names.len() implies char_seq_lt(
                                            #[trigger] names[j1],
                                            #[trigger] names[j2],
                                        ) by {
                                            if j2 == names.len() - 1 {
                                                assert(names[j1] == prev_names[j1]);
                                                let k = choose|k: int|
                                                    0 <= k < i && schema.entries@[k].0@
                                                        == #[trigger] prev_names[j1];
                                                assert(char_seq_lt(
                                                    schema.entries@[k].0@,
                                                    schema.entries@[i as int].0@,
                                                ));
                                            } else {
                                                assert(names[j1] == prev_names[j1]);
                                                assert(names[j2] == prev_names[j2]);
                                            }
                                        }
                                        assert forall|j1: int, j2: int|
                                            0 <= j1 <= j2 < names.len() implies (
                                        #[trigger] tx.fields()[j1]).timestamp@ <= (
                                        #[trigger] tx.fields()[j2]).timestamp@ by {
                                            if j2 < names.len() - 1 {
                                                assert(tx.fields()[j1] == tx_pre[j1]);
                                                assert(tx.fields()[j2] == tx_pre[j2]);
                                            } else if j1 < j2 {
                                                assert(prev_names[j1] == names[j1]);
                                                assert(tx.fields()[j1] == tx_pre[j1]);
                                                assert(tx_pre[j1].timestamp@ <= hlc_pre@);
                                            }
                                        }
                                        assert forall|k: int|
                                            0 <= k < i + 1 implies (data0.dom().contains(
                                            #[trigger] schema.entries@[k].0@)
                                            <==> names.contains(schema.entries@[k].0@)) by {
                                            let kk = schema.entries@[k].0@;
                                            if k < i {
                                                assert(kk != schema.entries@[i as int].0@);
                                                if prev_names.contains(kk) {
                                                    let j = choose|j: int|
                                                        0 <= j < prev_names.len() && #[trigger] prev_names[j] == kk;
                                                    assert(names[j] == kk);
                                                    assert(names.contains(kk));
                                                }
                                                if names.contains(kk) {
                                                    let j = choose|j: int|
                                                        0 <= j < names.len() && #[trigger] names[j] == kk;
                                                    assert(j < prev_names.len());
                                                    assert(prev_names[j] == kk);
                                                    assert(prev_names.contains(kk));
                                                }
                                            } else {
                                                assert(names[names.len() - 1] == kk);
                                                assert(names.contains(kk));
                                            }
                                        }
                                    }
                                },
                                Err(e) => {
                                    return Err(Error::Storage(e));
                                },
                            }
                        },
                    }
                },
                None => {
                    proof {
                        assert(!data0.remove_keys(names.to_set()).dom().contains(name@));
                        assert(!names.contains(name@));
                        assert(!data0.dom().contains(name@));
                        assert(schema.entries@[i as int].0@ == name@);
                        assert forall|k: int|
                            0 <= k < i + 1 implies (data0.dom().contains(
                            #[trigger] schema.entries@[k].0@) <==> names.contains(
                            schema.entries@[k].0@,
                        )) by {}
                    }
                },
            }
            i += 1;
        }

        let ts = self.tick();
        let row = Row { schema: schema_name.clone(), id, added: ts, removed: None };
        let ghost rowv = row@;
        match tx.store_row(row) {
            Ok(()) => {},
            Err(e) => {
                return Err(Error::Storage(e));
            },
        }
        match self.storage.commit(tx) {
            Ok(()) => {
                proof {
                    schema.lemma_entries_in_view();
                    assert forall|nm: Seq<char>|
                        #[trigger] names.contains(nm) <==> (sm.dom().contains(nm)
                            && data0.dom().contains(nm)) by {
                        if names.contains(nm) {
                            let j = choose|j: int|
                                0 <= j < names.len() && #[trigger] names[j] == nm;
                        }
                        if sm.dom().contains(nm) && data0.dom().contains(nm) {
                            let k = choose|k: int|
                                0 <= k < schema.entries@.len() && schema.entries@[k].0@ == nm;
                        }
                    }
                    assert(spec_all_supplied_valid(sm, data0)) by {
                        assert forall|n: Seq<char>|
                            #[trigger] sm.dom().contains(n) && data0.dom().contains(
                                n,
                            ) implies spec_validates(sm[n].type_, data0[n]) by {
                            assert(names.contains(n));
                            let j = choose|j: int|
                                0 <= j < names.len() && #[trigger] names[j] == n;
                        }
                    }
                    assert(self.storage.rows() =~= storage_rows0 + seq![rowv]);
                    assert(self.storage.rows().take(storage_rows0.len() as int)
                        =~= storage_rows0);
                    assert(self.storage.fields().take(storage_fields0.len() as int)
                        =~= storage_fields0);
                    assert(self.storage.fields().skip(storage_fields0.len() as int)
                        =~= tx.fields());
                }
                Ok(id)
            },
            Err(e) => Err(Error::Storage(e)),
        }
    }

    /// List the live rows of `schema` as field maps, each folded from the
    /// row's field records with the later clock winning per field name.
    pub fn list(&self, schema: String) -> (r: Result<Vec<StrMap<Value>>, Error<S::Error>>)
        requires
            self.wf(),
        ensures
            ((S::spec_infallible() && <S::ROTx as ROTransaction>::spec_infallible()) ==> r is Ok),
            (r matches Ok(v) ==> {
                let live = spec_live(self.storage.rows(), schema@);
                &&& v@.len() == live.len()
                &&& (forall|i: int|
                    0 <= i < live.len() ==> (#[trigger] v@[i]).wf() && v@[i]@ == spec_row_obj(
                        self.storage.fields(),
                        live[i].id,
                    ))
            }),
    {
        let tx = match self.storage.ro_transaction() {
            Ok(t) => t,
            Err(e) => {
                return Err(Error::Storage(e));
            },
        };
        let rows = match tx.list_rows(&schema) {
            Ok(rs) => rs,
            Err(e) => {
                return Err(Error::Storage(e));
            },
        };
        let ghost by_schema = self.storage.rows().filter(|row: RowV| row.schema == schema@);
        let ghost survives = |row: RowV| !(row.removed matches Some(rem) && rem@ > row.added@);
        proof {
            assert(crate::op::row_views(rows@) == by_schema);
        }

        let mut out: Vec<StrMap<Value>> = Vec::new();
        let n = rows.len();
        let mut i: usize = 0;
        proof {
            reveal(Seq::filter);
            assert(crate::op::row_views(rows@.take(0)).filter(survives) =~= Seq::<RowV>::empty());
        }
        while i < n
            invariant
                self.wf(),
                n == rows@.len(),
                i <= n,
                crate::op::row_views(rows@) == by_schema,
                survives == (|row: RowV| !(row.removed matches Some(rem) && rem@ > row.added@)),
                out@.len() == crate::op::row_views(rows@.take(i as int)).filter(survives).len(),
                forall|j: int|
                    0 <= j < out@.len() ==> (#[trigger] out@[j]).wf() && out@[j]@ == spec_row_obj(
                        tx.fields(),
                        crate::op::row_views(rows@.take(i as int)).filter(survives)[j].id,
                    ),
                tx.rows() == self.storage.rows(),
                tx.fields() == self.storage.fields(),
            decreases n - i,
        {
            let ghost prefix = crate::op::row_views(rows@.take(i as int)).filter(survives);
            proof {
                reveal(Seq::filter);
                let next_views = crate::op::row_views(rows@.take(i as int + 1));
                assert(next_views.drop_last() =~= crate::op::row_views(rows@.take(i as int)));
                assert(next_views.last() == rows@[i as int]@);
            }
            let skip = match &rows[i].removed {
                Some(rem) => rem.is_after(&rows[i].added),
                None => false,
            };
            if !skip {
                let obj = self.fold_row_fields(&tx, rows[i].id)?;
                out.push(obj);
            }
            i += 1;
        }
        proof {
            assert(rows@.take(n as int) =~= rows@);
            let live = spec_live(self.storage.rows(), schema@);
            assert(live == crate::op::row_views(rows@).filter(survives));
        }
        Ok(out)
    }

    /// Fold one row's field records into an object, the later clock winning
    /// per field name.
    fn fold_row_fields<T: ROTransaction<Error = S::Error>>(&self, tx: &T, row_id: u128) -> (r:
        Result<StrMap<Value>, Error<S::Error>>)
        ensures
            (T::spec_infallible() ==> r is Ok),
            (r matches Ok(obj) ==> obj.wf() && obj@ == spec_row_obj(tx.fields(), row_id)),
    {
        let fields = match tx.list_fields(row_id) {
            Ok(fs) => fs,
            Err(e) => {
                return Err(Error::Storage(e));
            },
        };
        let ghost fseq = crate::op::field_views(fields@);
        proof {
            assert(fseq == tx.fields().filter(|f: FieldV| f.row_id == row_id));
        }

        let mut slots: StrMap<(Hlc, Value)> = StrMap::new();
        let n = fields.len();
        let mut i: usize = 0;
        proof {
            assert(crate::op::field_views(fields@.take(0)) =~= Seq::<FieldV>::empty());
        }
        while i < n
            invariant
                n == fields@.len(),
                i <= n,
                fseq == crate::op::field_views(fields@),
                slots.wf(),
                slots@ == spec_fold_fields(crate::op::field_views(fields@.take(i as int))),
            decreases n - i,
        {
            proof {
                let next_views = crate::op::field_views(fields@.take(i as int + 1));
                assert(next_views.drop_last() =~= crate::op::field_views(fields@.take(i as int)));
                assert(next_views.last() == fields@[i as int]@);
            }
            let field = &fields[i];
            let keep_existing = match slots.get(&field.field_name) {
                Some(slot) => slot.0.is_after(&field.timestamp),
                None => false,
            };
            if !keep_existing {
                slots.insert(field.field_name.clone(), (field.timestamp, field.value.duplicate()));
            }
            i += 1;
        }
        proof {
            assert(fields@.take(n as int) =~= fields@);
        }

        let mut obj: StrMap<Value> = StrMap::new();
        let m = slots.len();
        let mut k: usize = 0;
        proof {
            slots.lemma_entries_in_view();
            assert(obj@ =~= Map::<Seq<char>, ValueV>::new(
                |key: Seq<char>| crate::strmap::assoc_view(slots.entries@.take(0)).dom().contains(
                    key,
                ),
                |key: Seq<char>| crate::strmap::assoc_view(slots.entries@.take(0))[key].1,
            ));
        }
        while k < m
            invariant
                m == slots.entries@.len(),
                k <= m,
                slots.wf(),
                obj.wf(),
                obj@ == Map::<Seq<char>, ValueV>::new(
                    |key: Seq<char>| crate::strmap::assoc_view(
                        slots.entries@.take(k as int),
                    ).dom().contains(key),
                    |key: Seq<char>| crate::strmap::assoc_view(slots.entries@.take(k as int))[key].1,
                ),
            decreases m - k,
        {
            let name = slots.key_at(k).clone();
            let slot = slots.value_at(k);
            obj.insert(name, slot.1.duplicate());
            proof {
                let taken = slots.entries@.take(k as int);
                let taken1 = slots.entries@.take(k as int + 1);
                assert(taken1.drop_last() =~= taken);
                assert(taken1.last() == slots.entries@[k as int]);
                assert(crate::strmap::assoc_view(taken1) == crate::strmap::assoc_view(
                    taken,
                ).insert(slots.entries@[k as int].0@, slots.entries@[k as int].1@));
                assert(obj@ =~= Map::<Seq<char>, ValueV>::new(
                    |key: Seq<char>| crate::strmap::assoc_view(taken1).dom().contains(key),
                    |key: Seq<char>| crate::strmap::assoc_view(taken1)[key].1,
                ));
            }
            k += 1;
        }
        proof {
            assert(slots.entries@.take(m as int) =~= slots.entries@);
            assert(obj@ =~= spec_row_obj(tx.fields(), row_id));
        }
        Ok(obj)
    }
}

} // verus!
