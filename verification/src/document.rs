//! The CRDT document model: a causal operation log that reconstructs a
//! JSON-shaped document composed of maps, lists, and scalar leaves, with
//! multi-value conflict representation, an insert-after list ordering
//! structure, and counter-based operation timestamps.

pub mod assign;
pub mod operation;
pub mod order;
pub mod value;

use vstd::prelude::*;

use crate::pointer::{spec_dec, spec_pointer_append, pointer_append, u64_to_dec};
use crate::timestamp::Timestamp;
use crate::tsmap::TsMap;
use assign::{spec_assigned, spec_register, Assign};
use operation::{AssignKey, AssignKeyV, Operation};
use order::{no_duplicate_targets, spec_fresh_for, Order};
use value::Value;

verus! {

broadcast use vstd::std_specs::vec::group_vec_axioms;

/// A register table as a document table holds it: object id to registers.
pub type TableV = Map<Timestamp, Map<AssignKeyV, Map<Timestamp, Timestamp>>>;

/// The registers of `obj` in `table`, or none if the object is unknown.
pub open spec fn spec_table_register(table: TableV, obj: Timestamp) -> Map<
    AssignKeyV,
    Map<Timestamp, Timestamp>,
> {
    if table.dom().contains(obj) {
        table[obj]
    } else {
        Map::empty()
    }
}

/// What an assignment does to a table: within `obj`'s registers, the entries
/// named in `prev` lose at `key` and the new entry wins.
pub open spec fn spec_table_assigned(
    table: TableV,
    obj: Timestamp,
    key: AssignKeyV,
    id: Timestamp,
    val: Timestamp,
    prev: Seq<Timestamp>,
) -> TableV {
    let a = spec_table_register(table, obj);
    table.insert(obj, a.insert(key, spec_assigned(spec_register(a, key), id, val, prev)))
}

/// What a removal does to a table: within `obj`'s registers, the entries
/// named in `prev` are dropped at `key`; a register left empty disappears.
pub open spec fn spec_table_removed(
    table: TableV,
    obj: Timestamp,
    key: AssignKeyV,
    prev: Seq<Timestamp>,
) -> TableV {
    if !table.dom().contains(obj) {
        table
    } else {
        let a = table[obj];
        if !a.dom().contains(key) {
            table
        } else {
            let cleaned = a[key].remove_keys(prev.to_set());
            if cleaned.dom() == Set::<Timestamp>::empty() {
                table.insert(obj, a.remove(key))
            } else {
                table.insert(obj, a.insert(key, cleaned))
            }
        }
    }
}

/// The first `MakeMap` or `MakeList` in the log, which is the document root.
pub open spec fn spec_root(ops: Seq<(Timestamp, Operation)>) -> Option<Timestamp>
    decreases ops.len(),
{
    if ops.len() == 0 {
        None
    } else if ops[0].1 is MakeMap || ops[0].1 is MakeList {
        Some(ops[0].0)
    } else {
        spec_root(ops.drop_first())
    }
}

/// A document: the operation log and the tables it folds into.
#[derive(Debug, PartialEq)]
pub struct Document {
    pub operations: Vec<(Timestamp, Operation)>,
    pub maps: TsMap<Assign>,
    pub list_items: TsMap<Assign>,
    pub list_ordering: Order,
    pub values: TsMap<Value>,
    pub highest_counter: u64,
}

impl Default for Document {
    /// An empty document.
    fn default() -> (r: Self)
        ensures
            r.wf(),
            r.operations@.len() == 0,
            r.maps@ == Map::<Timestamp, Map<AssignKeyV, Map<Timestamp, Timestamp>>>::empty(),
            r.list_items@ == Map::<
                Timestamp,
                Map<AssignKeyV, Map<Timestamp, Timestamp>>,
            >::empty(),
            r.list_ordering.ordering@ == Map::<Timestamp, Timestamp>::empty(),
            r.values@ == Map::<Timestamp, value::ValueV>::empty(),
            r.highest_counter == 0,
    {
        Document {
            operations: Vec::new(),
            maps: TsMap::new(),
            list_items: TsMap::new(),
            list_ordering: Order::new(),
            values: TsMap::new(),
            highest_counter: 0,
        }
    }
}

impl Document {
    /// Every table is well formed, the ordering chains neither branch nor
    /// join, and every id the ordering knows was issued by this document.
    pub open spec fn wf(&self) -> bool {
        &&& self.maps.wf()
        &&& (forall|i: int|
            0 <= i < self.maps.entries@.len() ==> (#[trigger] self.maps.entries@[i]).1.wf())
        &&& self.list_items.wf()
        &&& (forall|i: int|
            0 <= i < self.list_items.entries@.len() ==> (
            #[trigger] self.list_items.entries@[i]).1.wf())
        &&& self.values.wf()
        &&& self.list_ordering.wf()
        &&& no_duplicate_targets(self.list_ordering.ordering@)
        &&& (forall|k: Timestamp|
            #[trigger] self.list_ordering.ordering@.dom().contains(k) ==> k.counter
                <= self.highest_counter && self.list_ordering.ordering@[k].counter
                <= self.highest_counter)
    }

    /// The next operation timestamp counter; each issued operation gets a
    /// counter one higher than every counter issued before.
    fn next_timestamp_counter(&mut self) -> (r: u64)
        requires
            old(self).highest_counter < u64::MAX,
        ensures
            r == old(self).highest_counter + 1,
            final(self).highest_counter == old(self).highest_counter + 1,
            final(self).operations == old(self).operations,
            final(self).maps == old(self).maps,
            final(self).list_items == old(self).list_items,
            final(self).list_ordering == old(self).list_ordering,
            final(self).values == old(self).values,
    {
        self.highest_counter = self.highest_counter + 1;
        self.highest_counter
    }

    /// The document root: the id of the first `MakeMap` or `MakeList`
    /// operation in log order, if any.
    pub fn root(&self) -> (r: Option<Timestamp>)
        ensures
            r == spec_root(self.operations@),
    {
        let n = self.operations.len();
        let mut i: usize = 0;
        proof {
            assert(self.operations@.skip(0) =~= self.operations@);
        }
        while i < n
            invariant
                n == self.operations@.len(),
                i <= n,
                spec_root(self.operations@) == spec_root(self.operations@.skip(i as int)),
            decreases n - i,
        {
            proof {
                assert(self.operations@.skip(i as int)[0] == self.operations@[i as int]);
                assert(self.operations@.skip(i as int).drop_first() =~= self.operations@.skip(
                    i as int + 1,
                ));
            }
            match &self.operations[i].1 {
                Operation::MakeMap | Operation::MakeList => {
                    return Some(self.operations[i].0);
                },
                _ => {},
            }
            i += 1;
        }
        proof {
            assert(self.operations@.skip(n as int) =~= Seq::<(Timestamp, Operation)>::empty());
        }
        None
    }

    /// Fold one operation into the tables.
    fn apply(&mut self, id: Timestamp, operation: &Operation)
        requires
            old(self).wf(),
            id.counter <= old(self).highest_counter,
            (operation matches Operation::InsertAfter { prev } ==> spec_fresh_for(
                old(self).list_ordering.ordering@,
                id,
                *prev,
            ) && prev.counter <= old(self).highest_counter),
        ensures
            final(self).wf(),
            final(self).highest_counter == old(self).highest_counter,
            final(self).operations == old(self).operations,
            match operation {
                Operation::MakeMap => {
                    &&& final(self).maps@ == old(self).maps@.insert(id, Map::empty())
                    &&& final(self).list_items == old(self).list_items
                    &&& final(self).list_ordering == old(self).list_ordering
                    &&& final(self).values == old(self).values
                },
                Operation::MakeList => {
                    &&& final(self).list_items@ == old(self).list_items@.insert(id, Map::empty())
                    &&& final(self).maps == old(self).maps
                    &&& final(self).list_ordering == old(self).list_ordering
                    &&& final(self).values == old(self).values
                },
                Operation::MakeVal { val } => {
                    &&& final(self).values@ == old(self).values@.insert(id, val@)
                    &&& final(self).maps == old(self).maps
                    &&& final(self).list_items == old(self).list_items
                    &&& final(self).list_ordering == old(self).list_ordering
                },
                Operation::InsertAfter { prev } => {
                    &&& (old(self).list_ordering.ordering@.dom().contains(*prev)
                        ==> final(self).list_ordering.ordering@ == old(
                        self,
                    ).list_ordering.ordering@.insert(*prev, id).insert(
                        id,
                        old(self).list_ordering.ordering@[*prev],
                    ))
                    &&& (!old(self).list_ordering.ordering@.dom().contains(*prev)
                        ==> final(self).list_ordering.ordering@ == old(
                        self,
                    ).list_ordering.ordering@.insert(*prev, id))
                    &&& final(self).maps == old(self).maps
                    &&& final(self).list_items == old(self).list_items
                    &&& final(self).values == old(self).values
                },
                Operation::Assign { obj, key, val, prev } => {
                    &&& (key is MapKey ==> final(self).maps@ == spec_table_assigned(
                        old(self).maps@,
                        *obj,
                        key@,
                        id,
                        *val,
                        prev@,
                    ) && final(self).list_items == old(self).list_items)
                    &&& (key is InsertAfter ==> final(self).list_items@ == spec_table_assigned(
                        old(self).list_items@,
                        *obj,
                        key@,
                        id,
                        *val,
                        prev@,
                    ) && final(self).maps == old(self).maps)
                    &&& final(self).list_ordering == old(self).list_ordering
                    &&& final(self).values == old(self).values
                },
                Operation::Remove { obj, key, prev } => {
                    &&& (key is MapKey ==> final(self).maps@ == spec_table_removed(
                        old(self).maps@,
                        *obj,
                        key@,
                        prev@,
                    ) && final(self).list_items == old(self).list_items)
                    &&& (key is InsertAfter ==> final(self).list_items@ == spec_table_removed(
                        old(self).list_items@,
                        *obj,
                        key@,
                        prev@,
                    ) && final(self).maps == old(self).maps)
                    &&& final(self).list_ordering == old(self).list_ordering
                    &&& final(self).values == old(self).values
                },
            },
    {
        match operation {
            Operation::MakeMap => {
                let ghost pre = self.maps.entries@;
                let fresh = Assign::new();
                let ghost freshg = fresh;
                self.maps.insert(id, fresh);
                proof {
                    lemma_table_values_wf(pre, self.maps.entries@, freshg);
                }
            },
            Operation::MakeList => {
                let ghost pre = self.list_items.entries@;
                let fresh = Assign::new();
                let ghost freshg = fresh;
                self.list_items.insert(id, fresh);
                proof {
                    lemma_table_values_wf(pre, self.list_items.entries@, freshg);
                }
            },
            Operation::MakeVal { val } => {
                self.values.insert(id, val.duplicate());
            },
            Operation::Assign { obj, key, val, prev } => {
                match key {
                    AssignKey::MapKey(_) => {
                        let ghost pre_view = self.maps@;
                        let ghost pre = self.maps.entries@;
                        let mut a = match self.maps.take(*obj) {
                            Some(a) => a,
                            None => Assign::new(),
                        };
                        proof {
                            if pre_view.dom().contains(*obj) {
                                lemma_taken_value_wf(pre, a);
                            }
                        }
                        a.assign(id, key.duplicate(), *val, prev);
                        let ghost mid = self.maps.entries@;
                        let ghost av = a;
                        self.maps.insert(*obj, a);
                        proof {
                            lemma_table_values_wf(mid, self.maps.entries@, av);
                            assert(self.maps@ =~= spec_table_assigned(
                                pre_view,
                                *obj,
                                key@,
                                id,
                                *val,
                                prev@,
                            ));
                        }
                    },
                    AssignKey::InsertAfter(_) => {
                        let ghost pre_view = self.list_items@;
                        let ghost pre = self.list_items.entries@;
                        let mut a = match self.list_items.take(*obj) {
                            Some(a) => a,
                            None => Assign::new(),
                        };
                        proof {
                            if pre_view.dom().contains(*obj) {
                                lemma_taken_value_wf(pre, a);
                            }
                        }
                        a.assign(id, key.duplicate(), *val, prev);
                        let ghost mid = self.list_items.entries@;
                        let ghost av = a;
                        self.list_items.insert(*obj, a);
                        proof {
                            lemma_table_values_wf(mid, self.list_items.entries@, av);
                            assert(self.list_items@ =~= spec_table_assigned(
                                pre_view,
                                *obj,
                                key@,
                                id,
                                *val,
                                prev@,
                            ));
                        }
                    },
                };
            },
            Operation::InsertAfter { prev } => {
                self.list_ordering.insert_after(id, *prev);
                proof {
                    assert forall|k: Timestamp| #[trigger]
                        self.list_ordering.ordering@.dom().contains(k) implies k.counter
                        <= self.highest_counter && self.list_ordering.ordering@[k].counter
                        <= self.highest_counter by {
                        let pre = old(self).list_ordering.ordering@;
                        if k != *prev && k != id {
                            assert(pre.dom().contains(k));
                        }
                    }
                }
            },
            Operation::Remove { obj, key, prev } => {
                match key {
                    AssignKey::MapKey(_) => {
                        let ghost pre_view = self.maps@;
                        let ghost pre = self.maps.entries@;
                        match self.maps.take(*obj) {
                            None => {
                                proof {
                                    assert(self.maps@ =~= pre_view);
                                    assert(self.maps@ == spec_table_removed(
                                        pre_view,
                                        *obj,
                                        key@,
                                        prev@,
                                    ));
                                }
                            },
                            Some(mut a) => {
                                proof {
                                    lemma_taken_value_wf(pre, a);
                                }
                                let ghost a_pre = a@;
                                a.remove(key, prev);
                                let ghost mid = self.maps.entries@;
                                let ghost av = a;
                                self.maps.insert(*obj, a);
                                proof {
                                    lemma_table_values_wf(mid, self.maps.entries@, av);
                                    assert(self.maps@ =~= spec_table_removed(
                                        pre_view,
                                        *obj,
                                        key@,
                                        prev@,
                                    ));
                                }
                            },
                        }
                    },
                    AssignKey::InsertAfter(_) => {
                        let ghost pre_view = self.list_items@;
                        let ghost pre = self.list_items.entries@;
                        match self.list_items.take(*obj) {
                            None => {
                                proof {
                                    assert(self.list_items@ =~= pre_view);
                                    assert(self.list_items@ == spec_table_removed(
                                        pre_view,
                                        *obj,
                                        key@,
                                        prev@,
                                    ));
                                }
                            },
                            Some(mut a) => {
                                proof {
                                    lemma_taken_value_wf(pre, a);
                                }
                                a.remove(key, prev);
                                let ghost mid = self.list_items.entries@;
                                let ghost av = a;
                                self.list_items.insert(*obj, a);
                                proof {
                                    lemma_table_values_wf(mid, self.list_items.entries@, av);
                                    assert(self.list_items@ =~= spec_table_removed(
                                        pre_view,
                                        *obj,
                                        key@,
                                        prev@,
                                    ));
                                }
                            },
                        }
                    },
                };
            },
        };
    }

    /// Create an object, returning its id.
    pub fn make_map(&mut self, node: u128) -> (id: Timestamp)
        requires
            old(self).wf(),
            old(self).highest_counter < u64::MAX,
        ensures
            final(self).wf(),
            id == (Timestamp { counter: (old(self).highest_counter + 1) as u64, node }),
            final(self).highest_counter == old(self).highest_counter + 1,
            final(self).operations@.len() == old(self).operations@.len() + 1,
            final(self).operations@.take(old(self).operations@.len() as int) == old(
                self,
            ).operations@,
            final(self).operations@.last().0 == id,
            final(self).operations@.last().1@ == operation::OperationV::MakeMap,
            final(self).maps@ == old(self).maps@.insert(id, Map::empty()),
            final(self).list_items == old(self).list_items,
            final(self).list_ordering == old(self).list_ordering,
            final(self).values == old(self).values,
    {
        let counter = self.next_timestamp_counter();
        let id = Timestamp::new(counter, node);
        let op = Operation::MakeMap;
        self.apply(id, &op);
        self.operations.push((id, op));
        proof {
            assert(self.operations@.take(old(self).operations@.len() as int) =~= old(
                self,
            ).operations@);
        }
        id
    }

    /// Create a list, returning its id.
    pub fn make_list(&mut self, node: u128) -> (id: Timestamp)
        requires
            old(self).wf(),
            old(self).highest_counter < u64::MAX,
        ensures
            final(self).wf(),
            id == (Timestamp { counter: (old(self).highest_counter + 1) as u64, node }),
            final(self).highest_counter == old(self).highest_counter + 1,
            final(self).operations@.len() == old(self).operations@.len() + 1,
            final(self).operations@.take(old(self).operations@.len() as int) == old(
                self,
            ).operations@,
            final(self).operations@.last().0 == id,
            final(self).operations@.last().1@ == operation::OperationV::MakeList,
            final(self).list_items@ == old(self).list_items@.insert(id, Map::empty()),
            final(self).maps == old(self).maps,
            final(self).list_ordering == old(self).list_ordering,
            final(self).values == old(self).values,
    {
        let counter = self.next_timestamp_counter();
        let id = Timestamp::new(counter, node);
        let op = Operation::MakeList;
        self.apply(id, &op);
        self.operations.push((id, op));
        proof {
            assert(self.operations@.take(old(self).operations@.len() as int) =~= old(
                self,
            ).operations@);
        }
        id
    }

    /// Create a scalar leaf, returning its id.
    pub fn make_val(&mut self, val: Value, node: u128) -> (id: Timestamp)
        requires
            old(self).wf(),
            old(self).highest_counter < u64::MAX,
        ensures
            final(self).wf(),
            id == (Timestamp { counter: (old(self).highest_counter + 1) as u64, node }),
            final(self).highest_counter == old(self).highest_counter + 1,
            final(self).operations@.len() == old(self).operations@.len() + 1,
            final(self).operations@.take(old(self).operations@.len() as int) == old(
                self,
            ).operations@,
            final(self).operations@.last().0 == id,
            final(self).operations@.last().1@ == (operation::OperationV::MakeVal { val: val@ }),
            final(self).values@ == old(self).values@.insert(id, val@),
            final(self).maps == old(self).maps,
            final(self).list_items == old(self).list_items,
            final(self).list_ordering == old(self).list_ordering,
    {
        let counter = self.next_timestamp_counter();
        let id = Timestamp::new(counter, node);
        let op = Operation::MakeVal { val };
        self.apply(id, &op);
        self.operations.push((id, op));
        proof {
            assert(self.operations@.take(old(self).operations@.len() as int) =~= old(
                self,
            ).operations@);
        }
        id
    }

    /// Associate the value at `val` with `key` in the object `obj`,
    /// superseding the assignments whose ids appear in `prev`.
    pub fn assign(
        &mut self,
        obj: Timestamp,
        key: AssignKey,
        val: Timestamp,
        prev: Vec<Timestamp>,
        node: u128,
    ) -> (id: Timestamp)
        requires
            old(self).wf(),
            old(self).highest_counter < u64::MAX,
        ensures
            final(self).wf(),
            id == (Timestamp { counter: (old(self).highest_counter + 1) as u64, node }),
            final(self).highest_counter == old(self).highest_counter + 1,
            final(self).operations@.len() == old(self).operations@.len() + 1,
            final(self).operations@.take(old(self).operations@.len() as int) == old(
                self,
            ).operations@,
            final(self).operations@.last().0 == id,
            final(self).operations@.last().1@ == (operation::OperationV::Assign {
                obj,
                key: key@,
                val,
                prev: prev@,
            }),
            (key is MapKey ==> final(self).maps@ == spec_table_assigned(
                old(self).maps@,
                obj,
                key@,
                id,
                val,
                prev@,
            ) && final(self).list_items == old(self).list_items),
            (key is InsertAfter ==> final(self).list_items@ == spec_table_assigned(
                old(self).list_items@,
                obj,
                key@,
                id,
                val,
                prev@,
            ) && final(self).maps == old(self).maps),
            final(self).list_ordering == old(self).list_ordering,
            final(self).values == old(self).values,
    {
        let counter = self.next_timestamp_counter();
        let id = Timestamp::new(counter, node);
        let op = Operation::Assign { obj, key, val, prev };
        self.apply(id, &op);
        self.operations.push((id, op));
        proof {
            assert(self.operations@.take(old(self).operations@.len() as int) =~= old(
                self,
            ).operations@);
        }
        id
    }

    /// Create a list-position marker directly after `prev` (another marker,
    /// or the list's own id for the first position).  `prev` must be an id
    /// this document issued.
    pub fn insert_after(&mut self, prev: Timestamp, node: u128) -> (id: Timestamp)
        requires
            old(self).wf(),
            old(self).highest_counter < u64::MAX,
            prev.counter <= old(self).highest_counter,
        ensures
            final(self).wf(),
            id == (Timestamp { counter: (old(self).highest_counter + 1) as u64, node }),
            final(self).highest_counter == old(self).highest_counter + 1,
            final(self).operations@.len() == old(self).operations@.len() + 1,
            final(self).operations@.take(old(self).operations@.len() as int) == old(
                self,
            ).operations@,
            final(self).operations@.last().0 == id,
            final(self).operations@.last().1@ == (operation::OperationV::InsertAfter { prev }),
            (old(self).list_ordering.ordering@.dom().contains(prev)
                ==> final(self).list_ordering.ordering@ == old(
                self,
            ).list_ordering.ordering@.insert(prev, id).insert(
                id,
                old(self).list_ordering.ordering@[prev],
            )),
            (!old(self).list_ordering.ordering@.dom().contains(prev)
                ==> final(self).list_ordering.ordering@ == old(
                self,
            ).list_ordering.ordering@.insert(prev, id)),
            no_duplicate_targets(final(self).list_ordering.ordering@),
            final(self).maps == old(self).maps,
            final(self).list_items == old(self).list_items,
            final(self).values == old(self).values,
    {
        let counter = self.next_timestamp_counter();
        let id = Timestamp::new(counter, node);
        proof {
            let m = self.list_ordering.ordering@;
            assert(!m.dom().contains(id));
            assert forall|k: Timestamp| m.dom().contains(k) implies m[k] != id by {
                assert(m[k].counter <= old(self).highest_counter);
            }
        }
        let op = Operation::InsertAfter { prev };
        self.apply(id, &op);
        self.operations.push((id, op));
        proof {
            assert(self.operations@.take(old(self).operations@.len() as int) =~= old(
                self,
            ).operations@);
        }
        id
    }

    /// Remove the assignments named in `prev` from `key` in `obj`.
    pub fn remove(
        &mut self,
        obj: Timestamp,
        key: AssignKey,
        prev: Vec<Timestamp>,
        node: u128,
    ) -> (id: Timestamp)
        requires
            old(self).wf(),
            old(self).highest_counter < u64::MAX,
        ensures
            final(self).wf(),
            id == (Timestamp { counter: (old(self).highest_counter + 1) as u64, node }),
            final(self).highest_counter == old(self).highest_counter + 1,
            final(self).operations@.len() == old(self).operations@.len() + 1,
            final(self).operations@.take(old(self).operations@.len() as int) == old(
                self,
            ).operations@,
            final(self).operations@.last().0 == id,
            final(self).operations@.last().1@ == (operation::OperationV::Remove {
                obj,
                key: key@,
                prev: prev@,
            }),
            (key is MapKey ==> final(self).maps@ == spec_table_removed(
                old(self).maps@,
                obj,
                key@,
                prev@,
            ) && final(self).list_items == old(self).list_items),
            (key is InsertAfter ==> final(self).list_items@ == spec_table_removed(
                old(self).list_items@,
                obj,
                key@,
                prev@,
            ) && final(self).maps == old(self).maps),
            final(self).list_ordering == old(self).list_ordering,
            final(self).values == old(self).values,
    {
        let counter = self.next_timestamp_counter();
        let id = Timestamp::new(counter, node);
        let op = Operation::Remove { obj, key, prev };
        self.apply(id, &op);
        self.operations.push((id, op));
        proof {
            assert(self.operations@.take(old(self).operations@.len() as int) =~= old(
                self,
            ).operations@);
        }
        id
    }

    /// The ids of the currently-winning assignments at a map key of `id`:
    /// what a caller should pass as `prev` when writing that key.
    pub fn current_assigns(&self, id: Timestamp, assign_key: &AssignKey) -> (r: Vec<Timestamp>)
        requires
            self.wf(),
            assign_key is MapKey,
        ensures
            r@.to_set() == spec_register(
                spec_table_register(self.maps@, id),
                assign_key@,
            ).dom(),
            r@.no_duplicates(),
    {
        match self.maps.get(id) {
            None => {
                let r = Vec::new();
                proof {
                    assert(r@.to_set() =~= spec_register(
                        spec_table_register(self.maps@, id),
                        assign_key@,
                    ).dom());
                }
                r
            },
            Some(a) => {
                proof {
                    crate::tsmap::lemma_ts_assoc_view_dom(self.maps.entries@);
                    lemma_taken_value_wf(self.maps.entries@, *a);
                }
                match a.get(assign_key) {
                    None => {
                        let r = Vec::new();
                        proof {
                            assert(r@.to_set() =~= spec_register(
                                spec_table_register(self.maps@, id),
                                assign_key@,
                            ).dom());
                        }
                        r
                    },
                    Some(reg) => {
                        let n = reg.len();
                        let mut out: Vec<Timestamp> = Vec::new();
                        let mut i: usize = 0;
                        while i < n
                            invariant
                                n == reg.entries@.len(),
                                i <= n,
                                out@.len() == i,
                                forall|j: int| 0 <= j < i ==> out@[j] == reg.entries@[j].0,
                            decreases n - i,
                        {
                            out.push(reg.key_at(i));
                            i += 1;
                        }
                        proof {
                            crate::tsmap::lemma_ts_assoc_view_dom(reg.entries@);
                            assert forall|t: Timestamp|
                                out@.to_set().contains(t) <==> reg@.dom().contains(t) by {
                                if out@.to_set().contains(t) {
                                    let j = choose|j: int|
                                        0 <= j < out@.len() && #[trigger] out@[j] == t;
                                    assert(reg.entries@[j].0 == t);
                                }
                                if reg@.dom().contains(t) {
                                    let j = choose|j: int|
                                        0 <= j < reg.entries@.len() && #[trigger] reg.entries@[j].0
                                            == t;
                                    assert(out@[j] == t);
                                }
                            }
                            assert(out@.to_set() =~= reg@.dom());
                            assert(reg@ == spec_register(
                                spec_table_register(self.maps@, id),
                                assign_key@,
                            ));
                        }
                        out
                    },
                }
            },
        }
    }
}

/// A materialized document value: scalar leaves at the bottom, objects and
/// arrays assembled from the document tables.  `Null` also stands for an id
/// that resolves to nothing.
#[derive(Debug, PartialEq)]
pub enum DocValue {
    Null,
    Leaf(Value),
    Object(Vec<(String, DocValue)>),
    Array(Vec<DocValue>),
}

/// The mathematical shape of a [`DocValue`].
pub enum DocValueV {
    Null,
    Leaf(value::ValueV),
    Object(Seq<(Seq<char>, DocValueV)>),
    Array(Seq<DocValueV>),
}

/// The abstract shape of a materialized value.
pub open spec fn doc_value_view(v: DocValue) -> DocValueV
    decreases v,
{
    match v {
        DocValue::Null => DocValueV::Null,
        DocValue::Leaf(x) => DocValueV::Leaf(x@),
        DocValue::Object(entries) => DocValueV::Object(doc_obj_entries_view(entries@)),
        DocValue::Array(items) => DocValueV::Array(doc_arr_items_view(items@)),
    }
}

/// The abstract shapes of an object's materialized entries.
pub open spec fn doc_obj_entries_view(s: Seq<(String, DocValue)>) -> Seq<(Seq<char>, DocValueV)>
    decreases s,
{
    if s.len() == 0 {
        Seq::empty()
    } else {
        seq![(s[0].0@, doc_value_view(s[0].1))] + doc_obj_entries_view(s.drop_first())
    }
}

/// The abstract shapes of an array's materialized items.
pub open spec fn doc_arr_items_view(s: Seq<DocValue>) -> Seq<DocValueV>
    decreases s,
{
    if s.len() == 0 {
        Seq::empty()
    } else {
        seq![doc_value_view(s[0])] + doc_arr_items_view(s.drop_first())
    }
}

impl View for DocValue {
    type V = DocValueV;

    open spec fn view(&self) -> DocValueV {
        doc_value_view(*self)
    }
}

/// Whether some entry of a table holds `id`.
pub open spec fn spec_has(entries: Seq<(Timestamp, Assign)>, id: Timestamp) -> bool {
    exists|i: int| 0 <= i < entries.len() && entries[i].0 == id
}

/// The register table that a document table holds at `id`.
pub open spec fn spec_assign_entry(entries: Seq<(Timestamp, Assign)>, id: Timestamp) -> Assign {
    entries[choose|i: int| 0 <= i < entries.len() && entries[i].0 == id].1
}

/// Whether some entry of the value table holds `id`.
pub open spec fn spec_has_value(entries: Seq<(Timestamp, Value)>, id: Timestamp) -> bool {
    exists|i: int| 0 <= i < entries.len() && entries[i].0 == id
}

/// The scalar that the value table holds at `id`.
pub open spec fn spec_value_entry(entries: Seq<(Timestamp, Value)>, id: Timestamp) -> Value {
    entries[choose|i: int| 0 <= i < entries.len() && entries[i].0 == id].1
}

/// Under unique keys, the entry found at an index is the entry chosen.
proof fn lemma_assign_entry_unique(entries: Seq<(Timestamp, Assign)>, i: int)
    requires
        crate::tsmap::ts_unique_keys(entries),
        0 <= i < entries.len(),
    ensures
        spec_has(entries, entries[i].0),
        spec_assign_entry(entries, entries[i].0) == entries[i].1,
{
    let id = entries[i].0;
    let j = choose|j: int| 0 <= j < entries.len() && entries[j].0 == id;
    assert(j == i);
}

/// Under unique keys, the value found at an index is the value chosen.
proof fn lemma_value_entry_unique(entries: Seq<(Timestamp, Value)>, i: int)
    requires
        crate::tsmap::ts_unique_keys(entries),
        0 <= i < entries.len(),
    ensures
        spec_has_value(entries, entries[i].0),
        spec_value_entry(entries, entries[i].0) == entries[i].1,
{
    let id = entries[i].0;
    let j = choose|j: int| 0 <= j < entries.len() && entries[j].0 == id;
    assert(j == i);
}

/// Every register that materializing the value at `id` would read holds
/// exactly one winning entry, so that materialization has an unambiguous
/// value at each place it reaches.  Registers the descent never touches may
/// hold concurrent values.
pub open spec fn spec_single_from(doc: Document, id: Timestamp, fuel: nat) -> bool
    decreases fuel, 1int, 0int,
{
    if fuel == 0 {
        true
    } else if spec_has(doc.maps.entries@, id) {
        spec_map_single(doc, spec_assign_entry(doc.maps.entries@, id).entries@, fuel)
    } else if spec_has(doc.list_items.entries@, id) {
        spec_list_single(
            doc,
            spec_assign_entry(doc.list_items.entries@, id),
            order::spec_chain(
                doc.list_ordering.ordering@,
                id,
                doc.list_ordering.ordering.entries@.len() as nat,
            ),
            fuel,
        )
    } else {
        true
    }
}

/// Single-valuedness of an object's registers, and of everything below them.
pub open spec fn spec_map_single(
    doc: Document,
    entries: Seq<(AssignKey, assign::Register)>,
    fuel: nat,
) -> bool
    decreases fuel, 0int, entries.len(),
{
    if entries.len() == 0 || fuel == 0 {
        true
    } else {
        spec_map_single(doc, entries.drop_first(), fuel) && match entries[0].0@ {
            AssignKeyV::MapKey(_) => entries[0].1.entries@.len() == 1 && spec_single_from(
                doc,
                entries[0].1.entries@[0].1,
                (fuel - 1) as nat,
            ),
            AssignKeyV::InsertAfter(_) => true,
        }
    }
}

/// Single-valuedness of the registers a list's chain reads, and of
/// everything below them; markers whose register is gone are skipped.
pub open spec fn spec_list_single(
    doc: Document,
    a: Assign,
    chain: Seq<Timestamp>,
    fuel: nat,
) -> bool
    decreases fuel, 0int, chain.len(),
{
    if chain.len() == 0 || fuel == 0 {
        true
    } else {
        spec_list_single(doc, a, chain.drop_first(), fuel) && (a@.dom().contains(
            AssignKeyV::InsertAfter(chain[0]),
        ) ==> spec_list_register(a, chain[0]).entries@.len() == 1 && spec_single_from(
            doc,
            spec_list_register(a, chain[0]).entries@[0].1,
            (fuel - 1) as nat,
        ))
    }
}

/// The fuel that covers any acyclic descent through the document: one level
/// per object plus the leaf.
pub open spec fn spec_fuel(doc: Document) -> nat {
    (doc.maps.entries@.len() + doc.list_items.entries@.len() + 1) as nat
}

/// The value the document holds at `id`: an object's entries, a list's
/// items in chain order, a scalar leaf, or null when nothing is there (or
/// the descent exceeds `fuel`, which a cyclic reference would).
pub open spec fn spec_get(doc: Document, id: Timestamp, fuel: nat) -> DocValueV
    decreases fuel, 1int, 0int,
{
    if fuel == 0 {
        DocValueV::Null
    } else if spec_has(doc.maps.entries@, id) {
        DocValueV::Object(
            spec_map_items(doc, spec_assign_entry(doc.maps.entries@, id).entries@, fuel),
        )
    } else if spec_has(doc.list_items.entries@, id) {
        DocValueV::Array(
            spec_list_values(
                doc,
                spec_assign_entry(doc.list_items.entries@, id),
                order::spec_chain(
                    doc.list_ordering.ordering@,
                    id,
                    doc.list_ordering.ordering.entries@.len() as nat,
                ),
                fuel,
            ),
        )
    } else if spec_has_value(doc.values.entries@, id) {
        DocValueV::Leaf(spec_value_entry(doc.values.entries@, id)@)
    } else {
        DocValueV::Null
    }
}

/// An object's materialized entries, in register-table order; keys that are
/// not map keys are skipped.
pub open spec fn spec_map_items(
    doc: Document,
    entries: Seq<(AssignKey, assign::Register)>,
    fuel: nat,
) -> Seq<(Seq<char>, DocValueV)>
    decreases fuel, 0int, entries.len(),
{
    if entries.len() == 0 || fuel == 0 {
        Seq::empty()
    } else {
        let rest = spec_map_items(doc, entries.drop_first(), fuel);
        match entries[0].0@ {
            AssignKeyV::MapKey(name) => seq![
                (name, spec_get(doc, entries[0].1.entries@[0].1, (fuel - 1) as nat)),
            ] + rest,
            AssignKeyV::InsertAfter(_) => rest,
        }
    }
}

/// A list's materialized items: for each position marker of the chain, the
/// value its register holds; markers whose register is gone are skipped.
pub open spec fn spec_list_values(
    doc: Document,
    a: Assign,
    chain: Seq<Timestamp>,
    fuel: nat,
) -> Seq<DocValueV>
    decreases fuel, 0int, chain.len(),
{
    if chain.len() == 0 || fuel == 0 {
        Seq::empty()
    } else {
        let rest = spec_list_values(doc, a, chain.drop_first(), fuel);
        if a@.dom().contains(AssignKeyV::InsertAfter(chain[0])) {
            seq![
                spec_get(
                    doc,
                    spec_list_register(a, chain[0]).entries@[0].1,
                    (fuel - 1) as nat,
                ),
            ] + rest
        } else {
            rest
        }
    }
}

/// The register that `a` holds at the list position `marker`.
pub open spec fn spec_list_register(a: Assign, marker: Timestamp) -> assign::Register {
    a.entries@[choose|i: int|
        0 <= i < a.entries@.len() && a.entries@[i].0@ == AssignKeyV::InsertAfter(marker)].1
}

/// Under unique key shapes, the register found at an index is the one chosen.
proof fn lemma_list_register_unique(a: Assign, i: int, marker: Timestamp)
    requires
        a.wf(),
        0 <= i < a.entries@.len(),
        a.entries@[i].0@ == AssignKeyV::InsertAfter(marker),
    ensures
        spec_list_register(a, marker) == a.entries@[i].1,
{
    a.lemma_wf_unique();
    let j = choose|j: int|
        0 <= j < a.entries@.len() && a.entries@[j].0@ == AssignKeyV::InsertAfter(marker);
    assert(j == i);
}

impl Document {
    /// The document as one JSON-shaped value: the root materialized, or
    /// null for a document with no root.  Objects list their entries in name
    /// order, which the register tables keep by construction.
    pub fn as_value(&self) -> (r: DocValue)
        requires
            self.wf(),
            (spec_root(self.operations@) matches Some(root) ==> spec_single_from(
                *self,
                root,
                spec_fuel(*self),
            )),
            self.maps.entries@.len() + self.list_items.entries@.len() + 1 <= usize::MAX,
        ensures
            r@ == match spec_root(self.operations@) {
                None => DocValueV::Null,
                Some(root) => spec_get(*self, root, spec_fuel(*self)),
            },
    {
        match self.root() {
            None => DocValue::Null,
            Some(root) => {
                let fuel = self.maps.len() + self.list_items.len() + 1;
                self.get(root, fuel)
            },
        }
    }

    /// Materialize the value at `id`, descending at most `fuel` levels.
    fn get(&self, id: Timestamp, fuel: usize) -> (r: DocValue)
        requires
            self.wf(),
            spec_single_from(*self, id, fuel as nat),
        ensures
            r@ == spec_get(*self, id, fuel as nat),
        decreases fuel, 1int, 0int,
    {
        if fuel == 0 {
            return DocValue::Null;
        }
        proof {
            crate::tsmap::lemma_ts_assoc_view_dom(self.maps.entries@);
            crate::tsmap::lemma_ts_assoc_view_dom(self.list_items.entries@);
            crate::tsmap::lemma_ts_assoc_view_dom(self.values.entries@);
        }
        match self.maps.get(id) {
            Some(a) => {
                proof {
                    let i = choose|i: int|
                        0 <= i < self.maps.entries@.len() && (#[trigger] self.maps.entries@[i]).0
                            == id && *a == self.maps.entries@[i].1;
                    lemma_assign_entry_unique(self.maps.entries@, i);
                    lemma_taken_value_wf(self.maps.entries@, *a);
                }
                proof {
                    assert(a.entries@.skip(0) =~= a.entries@);
                    assert(spec_map_single(*self, a.entries@, fuel as nat));
                }
                let items = self.get_map_items_from(a, 0, fuel);
                DocValue::Object(items)
            },
            None => match self.list_items.get(id) {
                Some(a) => {
                    proof {
                        let i = choose|i: int|
                            0 <= i < self.list_items.entries@.len() && (
                            #[trigger] self.list_items.entries@[i]).0 == id && *a
                                == self.list_items.entries@[i].1;
                        lemma_assign_entry_unique(self.list_items.entries@, i);
                        lemma_taken_value_wf(self.list_items.entries@, *a);
                    }
                    let markers = self.list_ordering.iter(id);
                    proof {
                        assert(markers@.skip(0) =~= markers@);
                        assert(spec_list_single(*self, *a, markers@, fuel as nat));
                    }
                    let items = self.get_list_items_from(a, &markers, 0, fuel);
                    DocValue::Array(items)
                },
                None => match self.values.get(id) {
                    Some(v) => {
                        proof {
                            let i = choose|i: int|
                                0 <= i < self.values.entries@.len() && (
                                #[trigger] self.values.entries@[i]).0 == id && *v
                                    == self.values.entries@[i].1;
                            lemma_value_entry_unique(self.values.entries@, i);
                        }
                        DocValue::Leaf(v.duplicate())
                    },
                    None => DocValue::Null,
                },
            },
        }
    }

    /// Materialize an object's entries from position `idx` on.
    fn get_map_items_from(&self, a: &Assign, idx: usize, fuel: usize) -> (r: Vec<
        (String, DocValue),
    >)
        requires
            self.wf(),
            a.wf(),
            idx <= a.entries@.len(),
            fuel >= 1,
            spec_map_single(*self, a.entries@.skip(idx as int), fuel as nat),
        ensures
            doc_obj_entries_view(r@) == spec_map_items(*self, a.entries@.skip(idx as int), fuel as nat),
        decreases fuel, 0int, a.entries@.len() - idx,
    {
        let ghost tail = a.entries@.skip(idx as int);
        if idx == a.entries.len() {
            let r = Vec::new();
            proof {
                assert(doc_obj_entries_view(r@) =~= spec_map_items(*self, tail, fuel as nat));
            }
            return r;
        }
        proof {
            assert(tail[0] == a.entries@[idx as int]);
            assert(tail.drop_first() =~= a.entries@.skip(idx as int + 1));
        }
        match a.key_at(idx) {
            AssignKey::MapKey(name) => {
                let reg = a.register_at(idx);
                proof {
                    assert(tail[0].1.entries@.len() == 1);
                    assert(spec_single_from(*self, tail[0].1.entries@[0].1, (fuel - 1) as nat));
                }
                let val_id = reg.entries[0].1;
                let item = self.get(val_id, fuel - 1);
                let ghost head = (name@, item@);
                let mut out: Vec<(String, DocValue)> = Vec::new();
                out.push((name.clone(), item));
                let mut rest = self.get_map_items_from(a, idx + 1, fuel);
                let ghost restg = rest@;
                out.append(&mut rest);
                proof {
                    assert(out@.drop_first() =~= restg);
                    assert(doc_obj_entries_view(out@) == seq![head] + doc_obj_entries_view(restg));
                    assert(spec_map_items(*self, tail, fuel as nat) == seq![head]
                        + spec_map_items(*self, tail.drop_first(), fuel as nat));
                }
                out
            },
            AssignKey::InsertAfter(_) => {
                let r = self.get_map_items_from(a, idx + 1, fuel);
                r
            },
        }
    }

    /// Materialize a list's items for the chain markers from `idx` on.
    fn get_list_items_from(
        &self,
        a: &Assign,
        markers: &Vec<Timestamp>,
        idx: usize,
        fuel: usize,
    ) -> (r: Vec<DocValue>)
        requires
            self.wf(),
            a.wf(),
            idx <= markers@.len(),
            fuel >= 1,
            spec_list_single(*self, *a, markers@.skip(idx as int), fuel as nat),
        ensures
            doc_arr_items_view(r@) == spec_list_values(
                *self,
                *a,
                markers@.skip(idx as int),
                fuel as nat,
            ),
        decreases fuel, 0int, markers@.len() - idx,
    {
        let ghost tail = markers@.skip(idx as int);
        if idx == markers.len() {
            let r = Vec::new();
            proof {
                assert(doc_arr_items_view(r@) =~= spec_list_values(*self, *a, tail, fuel as nat));
            }
            return r;
        }
        proof {
            assert(tail[0] == markers@[idx as int]);
            assert(tail.drop_first() =~= markers@.skip(idx as int + 1));
        }
        let marker = markers[idx];
        let key = AssignKey::InsertAfter(marker);
        match a.get(&key) {
            Some(reg) => {
                proof {
                    let j = choose|j: int|
                        0 <= j < a.entries@.len() && (#[trigger] a.entries@[j]).0@ == key@ && *reg
                            == a.entries@[j].1;
                    lemma_list_register_unique(*a, j, marker);
                    assert(spec_list_register(*a, marker).entries@.len() == 1);
                    assert(spec_single_from(
                        *self,
                        spec_list_register(*a, marker).entries@[0].1,
                        (fuel - 1) as nat,
                    ));
                }
                let val_id = reg.entries[0].1;
                let item = self.get(val_id, fuel - 1);
                let ghost head = item@;
                let mut out: Vec<DocValue> = Vec::new();
                out.push(item);
                let mut rest = self.get_list_items_from(a, markers, idx + 1, fuel);
                let ghost restg = rest@;
                out.append(&mut rest);
                proof {
                    assert(out@.drop_first() =~= restg);
                    assert(doc_arr_items_view(out@) == seq![head] + doc_arr_items_view(restg));
                    assert(spec_list_values(*self, *a, tail, fuel as nat) == seq![head]
                        + spec_list_values(*self, *a, tail.drop_first(), fuel as nat));
                }
                out
            },
            None => {
                let r = self.get_list_items_from(a, markers, idx + 1, fuel);
                r
            },
        }
    }
}

/// One step of a JSON-Patch document: an `add` of `value` at `path`.
#[derive(Debug, PartialEq)]
pub struct PatchAdd {
    pub path: String,
    pub value: DocValue,
}

/// The mathematical shape of a [`PatchAdd`].
pub struct PatchV {
    pub path: Seq<char>,
    pub value: DocValueV,
}

impl View for PatchAdd {
    type V = PatchV;

    open spec fn view(&self) -> PatchV {
        PatchV { path: self.path@, value: self.value@ }
    }
}

/// The abstract shapes of a patch sequence.
pub open spec fn patch_views(s: Seq<PatchAdd>) -> Seq<PatchV> {
    Seq::new(s.len(), |i: int| s[i]@)
}

/// The patches that materialize the value at `id` under `path`, in document
/// order: containers first announce themselves (except at the root), then
/// their entries follow; leaves add their scalar.  An id that resolves to
/// nothing contributes no patch.
pub open spec fn spec_push_patch(doc: Document, id: Timestamp, path: Seq<char>, fuel: nat) -> Seq<
    PatchV,
>
    decreases fuel, 1int, 0int,
{
    if fuel == 0 {
        Seq::empty()
    } else if spec_has(doc.maps.entries@, id) {
        (if path.len() > 0 {
            seq![PatchV { path, value: DocValueV::Object(Seq::empty()) }]
        } else {
            Seq::empty()
        }) + spec_map_patches(
            doc,
            spec_assign_entry(doc.maps.entries@, id).entries@,
            path,
            fuel,
        )
    } else if spec_has(doc.list_items.entries@, id) {
        (if path.len() > 0 {
            seq![PatchV { path, value: DocValueV::Array(Seq::empty()) }]
        } else {
            Seq::empty()
        }) + spec_list_patches(
            doc,
            spec_assign_entry(doc.list_items.entries@, id),
            order::spec_chain(
                doc.list_ordering.ordering@,
                id,
                doc.list_ordering.ordering.entries@.len() as nat,
            ),
            0,
            path,
            fuel,
        )
    } else if spec_has_value(doc.values.entries@, id) {
        seq![PatchV { path, value: DocValueV::Leaf(spec_value_entry(doc.values.entries@, id)@) }]
    } else {
        Seq::empty()
    }
}

/// The patches for an object's entries, each under its own pointer token.
pub open spec fn spec_map_patches(
    doc: Document,
    entries: Seq<(AssignKey, assign::Register)>,
    path: Seq<char>,
    fuel: nat,
) -> Seq<PatchV>
    decreases fuel, 0int, entries.len(),
{
    if entries.len() == 0 || fuel == 0 {
        Seq::empty()
    } else {
        let rest = spec_map_patches(doc, entries.drop_first(), path, fuel);
        match entries[0].0@ {
            AssignKeyV::MapKey(name) => spec_push_patch(
                doc,
                entries[0].1.entries@[0].1,
                spec_pointer_append(path, name),
                (fuel - 1) as nat,
            ) + rest,
            AssignKeyV::InsertAfter(_) => rest,
        }
    }
}

/// The patches for a list's items: the pointer token is the marker's
/// position in the chain, so a marker whose register is gone leaves a gap
/// in the numbering, exactly as the chain leaves its marker in place.
pub open spec fn spec_list_patches(
    doc: Document,
    a: Assign,
    chain: Seq<Timestamp>,
    index: u64,
    path: Seq<char>,
    fuel: nat,
) -> Seq<PatchV>
    decreases fuel, 0int, chain.len(),
{
    if chain.len() == 0 || fuel == 0 {
        Seq::empty()
    } else {
        let rest = spec_list_patches(doc, a, chain.drop_first(), (index + 1) as u64, path, fuel);
        if a@.dom().contains(AssignKeyV::InsertAfter(chain[0])) {
            spec_push_patch(
                doc,
                spec_list_register(a, chain[0]).entries@[0].1,
                spec_pointer_append(path, spec_dec(index)),
                (fuel - 1) as nat,
            ) + rest
        } else {
            rest
        }
    }
}

impl Document {
    /// The document as a JSON-Patch sequence of `add` operations, in
    /// document order from the root; an object's entries come in name order.
    pub fn as_patch(&self) -> (r: Vec<PatchAdd>)
        requires
            self.wf(),
            (spec_root(self.operations@) matches Some(root) ==> spec_single_from(
                *self,
                root,
                spec_fuel(*self),
            )),
            self.maps.entries@.len() + self.list_items.entries@.len() + 1 <= usize::MAX,
        ensures
            patch_views(r@) == match spec_root(self.operations@) {
                None => Seq::<PatchV>::empty(),
                Some(root) => spec_push_patch(*self, root, Seq::empty(), spec_fuel(*self)),
            },
    {
        match self.root() {
            None => {
                let r = Vec::new();
                proof {
                    assert(patch_views(r@) =~= Seq::<PatchV>::empty());
                }
                r
            },
            Some(root) => {
                let fuel = self.maps.len() + self.list_items.len() + 1;
                let here = String::new();
                self.patches_for(root, &here, fuel)
            },
        }
    }

    /// The patches that materialize the value at `id` under `path`.
    fn patches_for(&self, id: Timestamp, path: &String, fuel: usize) -> (r: Vec<PatchAdd>)
        requires
            self.wf(),
            spec_single_from(*self, id, fuel as nat),
        ensures
            patch_views(r@) == spec_push_patch(*self, id, path@, fuel as nat),
        decreases fuel, 1int, 0int,
    {
        if fuel == 0 {
            let r = Vec::new();
            proof {
                assert(patch_views(r@) =~= spec_push_patch(*self, id, path@, fuel as nat));
            }
            return r;
        }
        proof {
            crate::tsmap::lemma_ts_assoc_view_dom(self.maps.entries@);
            crate::tsmap::lemma_ts_assoc_view_dom(self.list_items.entries@);
            crate::tsmap::lemma_ts_assoc_view_dom(self.values.entries@);
        }
        match self.maps.get(id) {
            Some(a) => {
                proof {
                    let i = choose|i: int|
                        0 <= i < self.maps.entries@.len() && (#[trigger] self.maps.entries@[i]).0
                            == id && *a == self.maps.entries@[i].1;
                    lemma_assign_entry_unique(self.maps.entries@, i);
                    lemma_taken_value_wf(self.maps.entries@, *a);
                }
                let mut out: Vec<PatchAdd> = Vec::new();
                if !path.as_str().is_empty() {
                    out.push(PatchAdd { path: path.clone(), value: DocValue::Object(Vec::new()) });
                }
                let ghost head = out@;
                proof {
                    assert(a.entries@.skip(0) =~= a.entries@);
                    assert(spec_map_single(*self, a.entries@, fuel as nat));
                }
                let mut rest = self.map_patches_from(a, 0, path, fuel);
                let ghost restg = rest@;
                out.append(&mut rest);
                proof {
                    assert(patch_views(out@) =~= patch_views(head) + patch_views(restg));
                    if path@.len() > 0 {
                        assert(patch_views(head) =~= seq![
                            PatchV { path: path@, value: DocValueV::Object(Seq::empty()) },
                        ]);
                    } else {
                        assert(patch_views(head) =~= Seq::<PatchV>::empty());
                    }
                }
                out
            },
            None => match self.list_items.get(id) {
                Some(a) => {
                    proof {
                        let i = choose|i: int|
                            0 <= i < self.list_items.entries@.len() && (
                            #[trigger] self.list_items.entries@[i]).0 == id && *a
                                == self.list_items.entries@[i].1;
                        lemma_assign_entry_unique(self.list_items.entries@, i);
                        lemma_taken_value_wf(self.list_items.entries@, *a);
                    }
                    let markers = self.list_ordering.iter(id);
                    let mut out: Vec<PatchAdd> = Vec::new();
                    if !path.as_str().is_empty() {
                        out.push(
                            PatchAdd { path: path.clone(), value: DocValue::Array(Vec::new()) },
                        );
                    }
                    let ghost head = out@;
                    proof {
                        assert(markers@.skip(0) =~= markers@);
                        assert(spec_list_single(*self, *a, markers@, fuel as nat));
                    }
                    let mut rest = self.list_patches_from(a, &markers, 0, path, fuel);
                    let ghost restg = rest@;
                    out.append(&mut rest);
                    proof {
                        assert(patch_views(out@) =~= patch_views(head) + patch_views(restg));
                        if path@.len() > 0 {
                            assert(patch_views(head) =~= seq![
                                PatchV { path: path@, value: DocValueV::Array(Seq::empty()) },
                            ]);
                        } else {
                            assert(patch_views(head) =~= Seq::<PatchV>::empty());
                        }
                    }
                    out
                },
                None => match self.values.get(id) {
                    Some(v) => {
                        proof {
                            let i = choose|i: int|
                                0 <= i < self.values.entries@.len() && (
                                #[trigger] self.values.entries@[i]).0 == id && *v
                                    == self.values.entries@[i].1;
                            lemma_value_entry_unique(self.values.entries@, i);
                        }
                        let mut out: Vec<PatchAdd> = Vec::new();
                        out.push(PatchAdd { path: path.clone(), value: DocValue::Leaf(v.duplicate()) });
                        proof {
                            assert(patch_views(out@) =~= spec_push_patch(
                                *self,
                                id,
                                path@,
                                fuel as nat,
                            ));
                        }
                        out
                    },
                    None => {
                        let r = Vec::new();
                        proof {
                            assert(patch_views(r@) =~= spec_push_patch(
                                *self,
                                id,
                                path@,
                                fuel as nat,
                            ));
                        }
                        r
                    },
                },
            },
        }
    }

    /// The patches for an object's entries from position `idx` on.
    fn map_patches_from(&self, a: &Assign, idx: usize, path: &String, fuel: usize) -> (r: Vec<
        PatchAdd,
    >)
        requires
            self.wf(),
            a.wf(),
            idx <= a.entries@.len(),
            fuel >= 1,
            spec_map_single(*self, a.entries@.skip(idx as int), fuel as nat),
        ensures
            patch_views(r@) == spec_map_patches(
                *self,
                a.entries@.skip(idx as int),
                path@,
                fuel as nat,
            ),
        decreases fuel, 0int, a.entries@.len() - idx,
    {
        let ghost tail = a.entries@.skip(idx as int);
        if idx == a.entries.len() {
            let r = Vec::new();
            proof {
                assert(patch_views(r@) =~= spec_map_patches(*self, tail, path@, fuel as nat));
            }
            return r;
        }
        proof {
            assert(tail[0] == a.entries@[idx as int]);
            assert(tail.drop_first() =~= a.entries@.skip(idx as int + 1));
        }
        match a.key_at(idx) {
            AssignKey::MapKey(name) => {
                let reg = a.register_at(idx);
                proof {
                    assert(tail[0].1.entries@.len() == 1);
                    assert(spec_single_from(*self, tail[0].1.entries@[0].1, (fuel - 1) as nat));
                }
                let val_id = reg.entries[0].1;
                let child_path = pointer_append(path, name.as_str());
                let mut out = self.patches_for(val_id, &child_path, fuel - 1);
                let ghost childg = out@;
                let mut rest = self.map_patches_from(a, idx + 1, path, fuel);
                let ghost restg = rest@;
                out.append(&mut rest);
                proof {
                    assert(patch_views(out@) =~= patch_views(childg) + patch_views(restg));
                }
                out
            },
            AssignKey::InsertAfter(_) => {
                let r = self.map_patches_from(a, idx + 1, path, fuel);
                r
            },
        }
    }

    /// The patches for a list's chain markers from position `idx` on; the
    /// marker's position is its pointer token.
    fn list_patches_from(
        &self,
        a: &Assign,
        markers: &Vec<Timestamp>,
        idx: usize,
        path: &String,
        fuel: usize,
    ) -> (r: Vec<PatchAdd>)
        requires
            self.wf(),
            a.wf(),
            idx <= markers@.len(),
            fuel >= 1,
            spec_list_single(*self, *a, markers@.skip(idx as int), fuel as nat),
        ensures
            patch_views(r@) == spec_list_patches(
                *self,
                *a,
                markers@.skip(idx as int),
                idx as u64,
                path@,
                fuel as nat,
            ),
        decreases fuel, 0int, markers@.len() - idx,
    {
        let ghost tail = markers@.skip(idx as int);
        if idx == markers.len() {
            let r = Vec::new();
            proof {
                assert(patch_views(r@) =~= spec_list_patches(
                    *self,
                    *a,
                    tail,
                    idx as u64,
                    path@,
                    fuel as nat,
                ));
            }
            return r;
        }
        proof {
            assert(tail[0] == markers@[idx as int]);
            assert(tail.drop_first() =~= markers@.skip(idx as int + 1));
        }
        let marker = markers[idx];
        let key = AssignKey::InsertAfter(marker);
        match a.get(&key) {
            Some(reg) => {
                proof {
                    let j = choose|j: int|
                        0 <= j < a.entries@.len() && (#[trigger] a.entries@[j]).0@ == key@ && *reg
                            == a.entries@[j].1;
                    lemma_list_register_unique(*a, j, marker);
                    assert(spec_list_register(*a, marker).entries@.len() == 1);
                    assert(spec_single_from(
                        *self,
                        spec_list_register(*a, marker).entries@[0].1,
                        (fuel - 1) as nat,
                    ));
                }
                let val_id = reg.entries[0].1;
                let token = u64_to_dec(idx as u64);
                let child_path = pointer_append(path, token.as_str());
                let mut out = self.patches_for(val_id, &child_path, fuel - 1);
                let ghost childg = out@;
                let mut rest = self.list_patches_from(a, markers, idx + 1, path, fuel);
                let ghost restg = rest@;
                out.append(&mut rest);
                proof {
                    assert(patch_views(out@) =~= patch_views(childg) + patch_views(restg));
                }
                out
            },
            None => {
                let r = self.list_patches_from(a, markers, idx + 1, path, fuel);
                r
            },
        }
    }
}

/// Every register table held in `post` is well formed if those of `pre`
/// were and the one inserted value is.
proof fn lemma_table_values_wf(
    pre: Seq<(Timestamp, Assign)>,
    post: Seq<(Timestamp, Assign)>,
    inserted: Assign,
)
    requires
        forall|i: int| 0 <= i < pre.len() ==> (#[trigger] pre[i]).1.wf(),
        inserted.wf(),
        forall|i: int|
            0 <= i < post.len() ==> (#[trigger] post[i]).1 == inserted || exists|j: int|
                0 <= j < pre.len() && pre[j].1 == post[i].1,
    ensures
        forall|i: int| 0 <= i < post.len() ==> (#[trigger] post[i]).1.wf(),
{
    assert forall|i: int| 0 <= i < post.len() implies (#[trigger] post[i]).1.wf() by {
        if post[i].1 != inserted {
            let j = choose|j: int| 0 <= j < pre.len() && pre[j].1 == post[i].1;
            assert(pre[j].1.wf());
        }
    }
}

/// A value taken out of a well-formed table is itself well formed.
proof fn lemma_taken_value_wf(pre: Seq<(Timestamp, Assign)>, taken: Assign)
    requires
        forall|i: int| 0 <= i < pre.len() ==> (#[trigger] pre[i]).1.wf(),
        exists|j: int| 0 <= j < pre.len() && pre[j].1 == taken,
    ensures
        taken.wf(),
{
    let j = choose|j: int| 0 <= j < pre.len() && pre[j].1 == taken;
    assert(pre[j].1.wf());
}

} // verus!
