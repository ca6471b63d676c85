//! Scalar leaves stored by a document.  Collections are represented through
//! the document structure instead; values here are always scalar.  The
//! `Number` variant stores the IEEE-754 bit pattern of a 64-bit float.

use vstd::prelude::*;

verus! {

/// A scalar document value.
#[derive(Debug, Clone, PartialEq)]
pub enum Value {
    Number(u64),
    String(String),
    Bool(bool),
    Null,
}

/// The mathematical shape of a document [`Value`].
pub enum ValueV {
    Number(u64),
    String(Seq<char>),
    Bool(bool),
    Null,
}

impl View for Value {
    type V = ValueV;

    open spec fn view(&self) -> ValueV {
        match self {
            Value::Number(bits) => ValueV::Number(*bits),
            Value::String(s) => ValueV::String(s@),
            Value::Bool(b) => ValueV::Bool(*b),
            Value::Null => ValueV::Null,
        }
    }
}

impl Value {
    /// A structural copy whose abstract value is the same.
    pub fn duplicate(&self) -> (r: Value)
        ensures
            r@ == self@,
    {
        match self {
            Value::Number(bits) => Value::Number(*bits),
            Value::String(s) => Value::String(s.clone()),
            Value::Bool(b) => Value::Bool(*b),
            Value::Null => Value::Null,
        }
    }
}

/// The failure reported when a host value cannot be carried as a scalar.
#[derive(Debug, PartialEq)]
pub enum ValueError {
    Unsupported,
}

} // verus!
