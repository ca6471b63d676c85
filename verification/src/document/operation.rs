//! The operations recorded in a document's causal log.

use vstd::prelude::*;

use super::value::{Value, ValueV};
use crate::timestamp::Timestamp;

verus! {

/// Where an assignment lands: a named key of a map, or a list position
/// marker created by an `InsertAfter` operation.
#[derive(Debug, PartialEq, Clone)]
pub enum AssignKey {
    MapKey(String),
    InsertAfter(Timestamp),
}

/// The mathematical shape of an [`AssignKey`].
pub enum AssignKeyV {
    MapKey(Seq<char>),
    InsertAfter(Timestamp),
}

impl View for AssignKey {
    type V = AssignKeyV;

    open spec fn view(&self) -> AssignKeyV {
        match self {
            AssignKey::MapKey(s) => AssignKeyV::MapKey(s@),
            AssignKey::InsertAfter(t) => AssignKeyV::InsertAfter(*t),
        }
    }
}

impl AssignKey {
    /// Whether two keys denote the same place.
    pub fn key_eq(&self, other: &AssignKey) -> (r: bool)
        ensures
            r == (self@ == other@),
    {
        match (self, other) {
            (AssignKey::MapKey(a), AssignKey::MapKey(b)) => a.eq(b),
            (AssignKey::InsertAfter(a), AssignKey::InsertAfter(b)) => a == b,
            _ => false,
        }
    }

    /// A structural copy whose abstract value is the same.
    pub fn duplicate(&self) -> (r: AssignKey)
        ensures
            r@ == self@,
    {
        match self {
            AssignKey::MapKey(s) => AssignKey::MapKey(s.clone()),
            AssignKey::InsertAfter(t) => AssignKey::InsertAfter(*t),
        }
    }
}

/// A mutation recorded in the operation log.
#[derive(Debug, PartialEq)]
pub enum Operation {
    MakeMap,
    MakeList,
    MakeVal { val: Value },
    InsertAfter { prev: Timestamp },
    Assign { obj: Timestamp, key: AssignKey, val: Timestamp, prev: Vec<Timestamp> },
    Remove { obj: Timestamp, key: AssignKey, prev: Vec<Timestamp> },
}

/// The mathematical shape of an [`Operation`].
pub enum OperationV {
    MakeMap,
    MakeList,
    MakeVal { val: ValueV },
    InsertAfter { prev: Timestamp },
    Assign { obj: Timestamp, key: AssignKeyV, val: Timestamp, prev: Seq<Timestamp> },
    Remove { obj: Timestamp, key: AssignKeyV, prev: Seq<Timestamp> },
}

impl View for Operation {
    type V = OperationV;

    open spec fn view(&self) -> OperationV {
        match self {
            Operation::MakeMap => OperationV::MakeMap,
            Operation::MakeList => OperationV::MakeList,
            Operation::MakeVal { val } => OperationV::MakeVal { val: val@ },
            Operation::InsertAfter { prev } => OperationV::InsertAfter { prev: *prev },
            Operation::Assign { obj, key, val, prev } => OperationV::Assign {
                obj: *obj,
                key: key@,
                val: *val,
                prev: prev@,
            },
            Operation::Remove { obj, key, prev } => OperationV::Remove {
                obj: *obj,
                key: key@,
                prev: prev@,
            },
        }
    }
}

} // verus!
