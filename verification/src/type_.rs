//! Record field types and value-against-type validation.
//!
//! A type is one of the four primitives or a `Nullable` wrapper around a
//! primitive.  Validation accepts exactly the matching value constructor;
//! a nullable type additionally accepts `Null`.

use vstd::prelude::*;

use crate::value::{Value, ValueV};

verus! {

/// The wire-level spelling of a primitive type, as it appears in migration
/// files (`"string"`, `"int"`, `"float"`, `"bool"`).
#[derive(Debug, Clone, Copy, PartialEq, Eq, Structural)]
pub enum SerdeType {
    String,
    Int,
    Float,
    Bool,
}

/// A record field type.
#[derive(Debug, PartialEq)]
pub enum Type {
    String,
    Int,
    Float,
    Bool,
    Nullable(Box<Type>),
}

/// The primitive type denoted by a wire-level spelling.
pub open spec fn spec_base_type(base: SerdeType) -> Type {
    match base {
        SerdeType::String => Type::String,
        SerdeType::Int => Type::Int,
        SerdeType::Float => Type::Float,
        SerdeType::Bool => Type::Bool,
    }
}

/// Whether the value `v` is accepted by the type `t`.
pub open spec fn spec_validates(t: Type, v: ValueV) -> bool
    decreases t,
{
    match t {
        Type::String => v is String,
        Type::Int => v is Int,
        Type::Float => v is Float,
        Type::Bool => v is Bool,
        Type::Nullable(inner) => v is Null || spec_validates(*inner, v),
    }
}

impl Type {
    /// The wire-level spelling of this type, with nullability stripped.
    pub open spec fn spec_to_serde(&self) -> SerdeType
        decreases self,
    {
        match self {
            Type::String => SerdeType::String,
            Type::Int => SerdeType::Int,
            Type::Float => SerdeType::Float,
            Type::Bool => SerdeType::Bool,
            Type::Nullable(inner) => inner.spec_to_serde(),
        }
    }

    /// Build a type from its wire-level parts: a primitive spelling and a
    /// nullability flag.  Nested `Nullable` is impossible by construction.
    pub fn from_serde(base: SerdeType, nullable: bool) -> (r: Self)
        ensures
            nullable ==> r == Type::Nullable(Box::new(spec_base_type(base))),
            !nullable ==> r == spec_base_type(base),
    {
        let base_type = match base {
            SerdeType::String => Type::String,
            SerdeType::Int => Type::Int,
            SerdeType::Float => Type::Float,
            SerdeType::Bool => Type::Bool,
        };
        if nullable {
            Self::Nullable(Box::new(base_type))
        } else {
            base_type
        }
    }

    pub fn to_serde(&self) -> (r: SerdeType)
        ensures
            r == self.spec_to_serde(),
        decreases self,
    {
        match self {
            Type::String => SerdeType::String,
            Type::Int => SerdeType::Int,
            Type::Float => SerdeType::Float,
            Type::Bool => SerdeType::Bool,
            Type::Nullable(inner) => inner.to_serde(),
        }
    }

    pub fn is_nullable(&self) -> (r: bool)
        ensures
            r == (self matches Type::Nullable(_)),
    {
        matches!(self, Type::Nullable(_))
    }

    /// A structural copy.
    pub fn duplicate(&self) -> (r: Type)
        ensures
            r == *self,
        decreases self,
    {
        match self {
            Type::String => Type::String,
            Type::Int => Type::Int,
            Type::Float => Type::Float,
            Type::Bool => Type::Bool,
            Type::Nullable(inner) => Type::Nullable(Box::new(inner.duplicate())),
        }
    }

    /// Check `value` against this type.  On failure the error reports this
    /// type (the outermost one, even when a nullable's inner type rejected
    /// the value) and the offending value.
    pub fn validate(&self, value: &Value) -> (r: Result<(), ValidationError>)
        ensures
            r is Ok <==> spec_validates(*self, value@),
            r matches Err(e) ==> {
                &&& e matches ValidationError::InvalidValue { expected, got }
                &&& expected == *self
                &&& got@ == value@
            },
        decreases self,
    {
        match (self, value) {
            (Type::String, Value::String(_)) => Ok(()),
            (Type::Int, Value::Int(_)) => Ok(()),
            (Type::Float, Value::Float(_)) => Ok(()),
            (Type::Bool, Value::Bool(_)) => Ok(()),
            (Type::Nullable(_), Value::Null) => Ok(()),
            (Type::Nullable(inner), _) => match inner.validate(value) {
                Ok(()) => Ok(()),
                Err(_) => Err(
                    ValidationError::InvalidValue {
                        expected: self.duplicate(),
                        got: value.duplicate(),
                    },
                ),
            },
            _ => Err(
                ValidationError::InvalidValue { expected: self.duplicate(), got: value.duplicate() },
            ),
        }
    }
}

/// The failure reported when a value does not match its declared type.
#[derive(Debug)]
pub enum ValidationError {
    InvalidValue { expected: Type, got: Value },
}

} // verus!
