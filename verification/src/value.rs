//! Scalar values carried by records: strings, 64-bit signed integers,
//! 64-bit floats (held by their IEEE-754 bit pattern), booleans, and null.

use vstd::prelude::*;

verus! {

/// A scalar record value.  The `Float` variant stores the IEEE-754 bit
/// pattern of a 64-bit float, so that the numeric payload can be carried
/// and compared without floating-point arithmetic.
#[derive(Debug, Clone, PartialEq)]
pub enum Value {
    String(String),
    Int(i64),
    Float(u64),
    Bool(bool),
    Null,
}

/// The mathematical shape of a [`Value`].
pub enum ValueV {
    String(Seq<char>),
    Int(i64),
    Float(u64),
    Bool(bool),
    Null,
}

impl View for Value {
    type V = ValueV;

    open spec fn view(&self) -> ValueV {
        match self {
            Value::String(s) => ValueV::String(s@),
            Value::Int(i) => ValueV::Int(*i),
            Value::Float(bits) => ValueV::Float(*bits),
            Value::Bool(b) => ValueV::Bool(*b),
            Value::Null => ValueV::Null,
        }
    }
}

impl Value {
    pub fn null() -> (r: Value)
        ensures
            r@ == ValueV::Null,
    {
        Value::Null
    }

    /// A structural copy whose abstract value is the same.
    pub fn duplicate(&self) -> (r: Value)
        ensures
            r@ == self@,
    {
        match self {
            Value::String(s) => Value::String(s.clone()),
            Value::Int(i) => Value::Int(*i),
            Value::Float(bits) => Value::Float(*bits),
            Value::Bool(b) => Value::Bool(*b),
            Value::Null => Value::Null,
        }
    }

    /// Decode an unsigned 64-bit input as an integer value.  Inputs that do
    /// not fit a signed 64-bit integer are rejected, mirroring the rule that
    /// JSON numbers at or above 2^63 fail decoding.
    pub fn int_from_u64(v: u64) -> (r: Option<Value>)
        ensures
            v <= i64::MAX ==> (r matches Some(out) && out@ == ValueV::Int(v as i64)),
            v > i64::MAX ==> r is None,
    {
        if v <= i64::MAX as u64 {
            Some(Value::Int(v as i64))
        } else {
            None
        }
    }
}

} // verus!
