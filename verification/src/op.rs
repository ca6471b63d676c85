//! The records the storage layer holds: one `Row` per inserted record and
//! one `Field` per written field value.

use vstd::prelude::*;

use crate::hlc::Hlc;
use crate::value::{Value, ValueV};

verus! {

/// A stored record: its schema, its 128-bit identifier, and the clocks at
/// which it was added and (possibly) removed.
#[derive(Debug, PartialEq)]
pub struct Row {
    pub schema: String,
    pub id: u128,
    pub added: Hlc,
    pub removed: Option<Hlc>,
}

/// The mathematical shape of a [`Row`].
pub struct RowV {
    pub schema: Seq<char>,
    pub id: u128,
    pub added: Hlc,
    pub removed: Option<Hlc>,
}

impl View for Row {
    type V = RowV;

    open spec fn view(&self) -> RowV {
        RowV { schema: self.schema@, id: self.id, added: self.added, removed: self.removed }
    }
}

impl Row {
    /// A structural copy whose abstract value is the same.
    pub fn duplicate(&self) -> (r: Row)
        ensures
            r@ == self@,
    {
        Row {
            schema: self.schema.clone(),
            id: self.id,
            added: self.added,
            removed: match &self.removed {
                Some(h) => Some(*h),
                None => None,
            },
        }
    }
}

/// A stored field value: which row and field it belongs to, when it was
/// written, under which schema version, and the value itself.
#[derive(Debug, PartialEq)]
pub struct Field {
    pub schema: String,
    pub row_id: u128,
    pub field_name: String,
    pub timestamp: Hlc,
    pub schema_version: usize,
    pub value: Value,
}

/// The mathematical shape of a [`Field`].
pub struct FieldV {
    pub schema: Seq<char>,
    pub row_id: u128,
    pub field_name: Seq<char>,
    pub timestamp: Hlc,
    pub schema_version: usize,
    pub value: ValueV,
}

impl View for Field {
    type V = FieldV;

    open spec fn view(&self) -> FieldV {
        FieldV {
            schema: self.schema@,
            row_id: self.row_id,
            field_name: self.field_name@,
            timestamp: self.timestamp,
            schema_version: self.schema_version,
            value: self.value@,
        }
    }
}

impl Field {
    /// A structural copy whose abstract value is the same.
    pub fn duplicate(&self) -> (r: Field)
        ensures
            r@ == self@,
    {
        Field {
            schema: self.schema.clone(),
            row_id: self.row_id,
            field_name: self.field_name.clone(),
            timestamp: self.timestamp,
            schema_version: self.schema_version,
            value: self.value.duplicate(),
        }
    }
}

/// The abstract shapes of a row sequence.
pub open spec fn row_views(s: Seq<Row>) -> Seq<RowV> {
    Seq::new(s.len(), |i: int| s[i]@)
}

/// The abstract shapes of a field sequence.
pub open spec fn field_views(s: Seq<Field>) -> Seq<FieldV> {
    Seq::new(s.len(), |i: int| s[i]@)
}

} // verus!
