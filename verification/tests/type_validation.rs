use localstore::type_::{SerdeType, Type, ValidationError};
use localstore::value::Value;

#[test]
fn type__validate_string() {
    let string_type = Type::String;
    assert!(string_type
        .validate(&Value::String("hello".to_string()))
        .is_ok());
    assert!(string_type.validate(&Value::Int(42)).is_err());
    assert!(string_type
        .validate(&Value::Float((1.23f64).to_bits()))
        .is_err());
    assert!(string_type.validate(&Value::Bool(true)).is_err());
    assert!(string_type.validate(&Value::Null).is_err());
}

#[test]
fn type__validate_int() {
    let int_type = Type::Int;
    assert!(int_type.validate(&Value::Int(42)).is_ok());
    assert!(int_type
        .validate(&Value::String("hello".to_string()))
        .is_err());
    assert!(int_type.validate(&Value::Float((1.23f64).to_bits())).is_err());
    assert!(int_type.validate(&Value::Bool(true)).is_err());
    assert!(int_type.validate(&Value::Null).is_err());
}

#[test]
fn type__validate_float() {
    let float_type = Type::Float;
    assert!(float_type.validate(&Value::Float((1.23f64).to_bits())).is_ok());
    assert!(float_type
        .validate(&Value::String("hello".to_string()))
        .is_err());
    assert!(float_type.validate(&Value::Int(42)).is_err());
    assert!(float_type.validate(&Value::Bool(true)).is_err());
    assert!(float_type.validate(&Value::Null).is_err());
}

#[test]
fn type__validate_bool() {
    let bool_type = Type::Bool;
    assert!(bool_type.validate(&Value::Bool(true)).is_ok());
    assert!(bool_type.validate(&Value::Bool(false)).is_ok());
    assert!(bool_type
        .validate(&Value::String("hello".to_string()))
        .is_err());
    assert!(bool_type.validate(&Value::Int(42)).is_err());
    assert!(bool_type.validate(&Value::Float((1.23f64).to_bits())).is_err());
    assert!(bool_type.validate(&Value::Null).is_err());
}

#[test]
fn type__validate_nullable() {
    let nullable_string = Type::Nullable(Box::new(Type::String));
    assert!(nullable_string.validate(&Value::Null).is_ok());
    assert!(nullable_string
        .validate(&Value::String("hello".to_string()))
        .is_ok());
    assert!(nullable_string.validate(&Value::Int(42)).is_err());

    let nullable_int = Type::Nullable(Box::new(Type::Int));
    assert!(nullable_int.validate(&Value::Null).is_ok());
    assert!(nullable_int.validate(&Value::Int(42)).is_ok());
    assert!(nullable_int
        .validate(&Value::String("hello".to_string()))
        .is_err());

    let nullable_float = Type::Nullable(Box::new(Type::Float));
    assert!(nullable_float.validate(&Value::Null).is_ok());
    assert!(nullable_float.validate(&Value::Float((1.23f64).to_bits())).is_ok());
    assert!(nullable_float.validate(&Value::Bool(true)).is_err());

    let nullable_bool = Type::Nullable(Box::new(Type::Bool));
    assert!(nullable_bool.validate(&Value::Null).is_ok());
    assert!(nullable_bool.validate(&Value::Bool(true)).is_ok());
    assert!(nullable_bool.validate(&Value::Float((1.23f64).to_bits())).is_err());
}

#[test]
fn validation_error_reports_outer_type_and_value() {
    let nullable_string = Type::Nullable(Box::new(Type::String));
    let got = Value::Int(1);
    match nullable_string.validate(&got) {
        Err(ValidationError::InvalidValue { expected, got: g }) => {
            assert_eq!(expected, Type::Nullable(Box::new(Type::String)));
            assert_eq!(g, Value::Int(1));
        }
        other => panic!("expected an invalid-value error, got {other:?}"),
    }
}

#[test]
fn from_serde_and_back() {
    let t = Type::from_serde(SerdeType::String, true);
    assert_eq!(t, Type::Nullable(Box::new(Type::String)));
    assert_eq!(t.to_serde(), SerdeType::String);
    assert!(t.is_nullable());

    let t = Type::from_serde(SerdeType::Int, false);
    assert_eq!(t, Type::Int);
    assert_eq!(t.to_serde(), SerdeType::Int);
    assert!(!t.is_nullable());
}

#[test]
fn int_from_u64_rejects_values_beyond_signed_range() {
    assert_eq!(Value::int_from_u64(7), Some(Value::Int(7)));
    assert_eq!(Value::int_from_u64(i64::MAX as u64), Some(Value::Int(i64::MAX)));
    assert_eq!(Value::int_from_u64(i64::MAX as u64 + 1), None);
    assert_eq!(Value::int_from_u64(u64::MAX), None);
}
