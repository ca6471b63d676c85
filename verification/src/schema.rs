//! The schema view: an ordered mapping from field names to a type plus a
//! default value.  Lenses transform schemas; the store validates incoming
//! values against them.

use vstd::prelude::*;

use crate::strmap::StrMap;
use crate::type_::Type;
use crate::value::{Value, ValueV};

verus! {

/// A named field's type and default value.
#[derive(Debug, PartialEq)]
pub struct Field {
    pub type_: Type,
    pub default: Value,
}

/// The mathematical shape of a [`Field`].
pub struct FieldV {
    pub type_: Type,
    pub default: ValueV,
}

impl View for Field {
    type V = FieldV;

    open spec fn view(&self) -> FieldV {
        FieldV { type_: self.type_, default: self.default@ }
    }
}

impl Field {
    /// A structural copy whose abstract value is the same.
    pub fn duplicate(&self) -> (r: Field)
        ensures
            r@ == self@,
    {
        Field { type_: self.type_.duplicate(), default: self.default.duplicate() }
    }
}

/// An ordered mapping of field name to [`Field`].  Its mathematical view is a
/// `Map<Seq<char>, FieldV>`.
pub type Schema = StrMap<Field>;

} // verus!
