use localstore::lens::{AddRemoveField, Error, Lens};
use localstore::schema::{Field, Schema};
use localstore::strmap::StrMap;
use localstore::type_::Type;
use localstore::value::Value;

fn s(text: &str) -> String {
    text.to_string()
}

#[test]
fn lens_add_field_success() {
    let mut base = Schema::default();

    let lens = Lens::Add(AddRemoveField {
        name: s("test"),
        type_: Type::String,
        default: Value::String(s("default")),
    });

    lens.transform_schema(&mut base).unwrap();

    assert_eq!(
        base,
        Schema::from_pairs(vec![(
            s("test"),
            Field {
                type_: Type::String,
                default: Value::String(s("default")),
            },
        )])
    );
}

#[test]
fn lens_add_field_conflict() {
    let mut base = Schema::from_pairs(vec![(
        s("test"),
        Field {
            type_: Type::String,
            default: Value::String(s("default")),
        },
    )]);

    let lens = Lens::Add(AddRemoveField {
        name: s("test"),
        type_: Type::String,
        default: Value::String(s("unused")),
    });

    assert_eq!(
        lens.transform_schema(&mut base).unwrap_err(),
        Error::ConflictingFieldOnAdd(s("test"))
    );
}

#[test]
fn lens_remove_field_success() {
    let mut base = Schema::from_pairs(vec![(
        s("test"),
        Field {
            type_: Type::String,
            default: Value::String(s("default")),
        },
    )]);

    let lens = Lens::Remove(AddRemoveField {
        name: s("test"),
        type_: Type::String,
        default: Value::String(s("unused")),
    });

    lens.transform_schema(&mut base).unwrap();

    assert_eq!(base, Schema::default());
}

#[test]
fn lens_remove_field_missing() {
    let mut base = Schema::default();

    let lens = Lens::Remove(AddRemoveField {
        name: s("test"),
        type_: Type::String,
        default: Value::String(s("unused")),
    });

    assert_eq!(
        lens.transform_schema(&mut base).unwrap_err(),
        Error::MissingFieldOnRemove(s("test"))
    );
}

#[test]
fn lens_rename_field_success() {
    let mut base = Schema::from_pairs(vec![(
        s("test"),
        Field {
            type_: Type::String,
            default: Value::String(s("default")),
        },
    )]);

    let lens = Lens::Rename {
        from: s("test"),
        to: s("new"),
    };

    lens.transform_schema(&mut base).unwrap();

    assert_eq!(
        base,
        Schema::from_pairs(vec![(
            s("new"),
            Field {
                type_: Type::String,
                default: Value::String(s("default")),
            },
        )])
    );
}

#[test]
fn lens_rename_field_missing() {
    let mut base = Schema::default();

    let lens = Lens::Rename {
        from: s("test"),
        to: s("new"),
    };

    assert_eq!(
        lens.transform_schema(&mut base).unwrap_err(),
        Error::MissingFieldOnRename(s("test"))
    );
}

#[test]
fn defaults_add_field_success() {
    let mut defaults: StrMap<Value> = StrMap::new();

    let lens = Lens::Add(AddRemoveField {
        name: s("test"),
        type_: Type::String,
        default: Value::String(s("default_value")),
    });

    lens.transform_defaults(&mut defaults).unwrap();

    let mut expected = StrMap::new();
    expected.insert(s("test"), Value::String(s("default_value")));
    assert_eq!(defaults, expected);
}

#[test]
fn defaults_add_field_conflict() {
    let mut defaults: StrMap<Value> = StrMap::new();
    defaults.insert(s("test"), Value::String(s("existing_value")));

    let lens = Lens::Add(AddRemoveField {
        name: s("test"),
        type_: Type::String,
        default: Value::String(s("default_value")),
    });

    assert_eq!(
        lens.transform_defaults(&mut defaults).unwrap_err(),
        Error::ConflictingFieldOnAdd(s("test"))
    );
}

#[test]
fn defaults_remove_field_success() {
    let mut defaults: StrMap<Value> = StrMap::new();
    defaults.insert(s("test"), Value::String(s("existing_value")));

    let lens = Lens::Remove(AddRemoveField {
        name: s("test"),
        type_: Type::String,
        default: Value::String(s("unused")),
    });

    lens.transform_defaults(&mut defaults).unwrap();

    assert_eq!(defaults, StrMap::new());
}

#[test]
fn defaults_remove_field_missing() {
    let mut defaults: StrMap<Value> = StrMap::new();

    let lens = Lens::Remove(AddRemoveField {
        name: s("test"),
        type_: Type::String,
        default: Value::String(s("unused")),
    });

    assert_eq!(
        lens.transform_defaults(&mut defaults).unwrap_err(),
        Error::MissingFieldOnRemove(s("test"))
    );
}

#[test]
fn defaults_rename_field_success() {
    let mut defaults: StrMap<Value> = StrMap::new();
    defaults.insert(s("test"), Value::String(s("value")));

    let lens = Lens::Rename {
        from: s("test"),
        to: s("new"),
    };

    lens.transform_defaults(&mut defaults).unwrap();

    let mut expected = StrMap::new();
    expected.insert(s("new"), Value::String(s("value")));
    assert_eq!(defaults, expected);
}

#[test]
fn defaults_rename_field_missing() {
    let mut defaults: StrMap<Value> = StrMap::new();

    let lens = Lens::Rename {
        from: s("test"),
        to: s("new"),
    };

    assert_eq!(
        lens.transform_defaults(&mut defaults).unwrap_err(),
        Error::MissingFieldOnRename(s("test"))
    );
}

#[test]
fn reversed_undoes_a_successful_lens() {
    let base = Schema::from_pairs(vec![(
        s("kept"),
        Field {
            type_: Type::Bool,
            default: Value::Bool(false),
        },
    )]);

    let lenses = vec![
        Lens::Add(AddRemoveField {
            name: s("a"),
            type_: Type::Int,
            default: Value::Int(0),
        }),
        Lens::Remove(AddRemoveField {
            name: s("kept"),
            type_: Type::Bool,
            default: Value::Bool(false),
        }),
        Lens::Rename {
            from: s("a"),
            to: s("b"),
        },
    ];

    let mut transformed = Schema::from_pairs(vec![(
        s("kept"),
        Field {
            type_: Type::Bool,
            default: Value::Bool(false),
        },
    )]);
    for lens in &lenses {
        lens.transform_schema(&mut transformed).unwrap();
    }
    for lens in lenses.iter().rev() {
        lens.reversed().transform_schema(&mut transformed).unwrap();
    }

    assert_eq!(transformed, base);
}
