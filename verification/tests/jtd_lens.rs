use localstore::jtd::{JtdError, JtdLens, JtdSchema};
use localstore::strmap::StrMap;
use localstore::type_::Type;
use localstore::value::Value;

fn s(text: &str) -> String {
    text.to_string()
}

fn props(pairs: Vec<(&str, JtdSchema)>) -> JtdSchema {
    JtdSchema::Properties(StrMap::from_pairs(
        pairs.into_iter().map(|(k, v)| (k.to_string(), v)).collect(),
    ))
}

/// The starting schema of the extract/embed round trip:
/// `{"properties":{"user":{"properties":{"id":{"type":"string"}}}}}`.
fn user_id_schema() -> JtdSchema {
    props(vec![(
        "user",
        props(vec![("id", JtdSchema::Primitive(Type::String))]),
    )])
}

#[test]
fn extract_hoists_the_inner_field() {
    let mut schema = user_id_schema();

    JtdLens::Extract {
        host: s("user"),
        name: s("id"),
    }
    .transform(&mut schema)
    .unwrap();

    assert_eq!(
        schema,
        props(vec![("user", JtdSchema::Primitive(Type::String))])
    );
}

#[test]
fn embed_undoes_extract() {
    let mut schema = user_id_schema();

    let extract = JtdLens::Extract {
        host: s("user"),
        name: s("id"),
    };
    extract.transform(&mut schema).unwrap();
    extract.reversed().transform(&mut schema).unwrap();

    assert_eq!(schema, user_id_schema());
}

#[test]
fn add_auto_promotes_the_empty_schema() {
    let mut schema = JtdSchema::Empty;

    JtdLens::Add {
        name: s("a"),
        schema: JtdSchema::Primitive(Type::Int),
    }
    .transform(&mut schema)
    .unwrap();

    assert_eq!(schema, props(vec![("a", JtdSchema::Primitive(Type::Int))]));
}

#[test]
fn add_conflict_is_reported_and_harmless() {
    let mut schema = props(vec![("a", JtdSchema::Primitive(Type::Int))]);

    let err = JtdLens::Add {
        name: s("a"),
        schema: JtdSchema::Primitive(Type::Bool),
    }
    .transform(&mut schema)
    .unwrap_err();

    assert_eq!(err, JtdError::KeyConflict(s("a")));
    assert_eq!(schema, props(vec![("a", JtdSchema::Primitive(Type::Int))]));
}

#[test]
fn remove_missing_is_reported() {
    let mut schema = props(vec![]);

    let err = JtdLens::Remove {
        name: s("a"),
        schema: JtdSchema::Primitive(Type::Int),
    }
    .transform(&mut schema)
    .unwrap_err();

    assert_eq!(err, JtdError::MissingName(s("remove"), s("a")));
}

#[test]
fn head_and_wrap_are_inverses() {
    let listy = props(vec![(
        "tags",
        JtdSchema::Elements(Box::new(JtdSchema::Primitive(Type::String))),
    )]);
    let mut schema = listy;

    let head = JtdLens::Head { name: s("tags") };
    head.transform(&mut schema).unwrap();
    assert_eq!(schema, props(vec![("tags", JtdSchema::Primitive(Type::String))]));

    head.reversed().transform(&mut schema).unwrap();
    assert_eq!(
        schema,
        props(vec![(
            "tags",
            JtdSchema::Elements(Box::new(JtdSchema::Primitive(Type::String))),
        )])
    );
}

#[test]
fn head_on_a_non_list_is_reported() {
    let mut schema = props(vec![("tags", JtdSchema::Primitive(Type::String))]);

    let err = JtdLens::Head { name: s("tags") }
        .transform(&mut schema)
        .unwrap_err();

    assert_eq!(err, JtdError::ExpectedXGotY(s("head"), s("elements"), s("type")));
    assert_eq!(schema, props(vec![("tags", JtdSchema::Primitive(Type::String))]));
}

#[test]
fn extract_of_a_missing_inner_field_restores_the_host() {
    let mut schema = user_id_schema();

    let err = JtdLens::Extract {
        host: s("user"),
        name: s("nope"),
    }
    .transform(&mut schema)
    .unwrap_err();

    assert_eq!(
        err,
        JtdError::Within(
            s("user"),
            Box::new(JtdError::MissingName(s("extract"), s("nope"))),
        )
    );
    assert_eq!(schema, user_id_schema());
}

#[test]
fn in_descends_and_wraps_its_errors() {
    let mut schema = user_id_schema();

    JtdLens::In {
        name: s("user"),
        ops: vec![JtdLens::Rename {
            from: s("id"),
            to: s("ident"),
        }],
    }
    .transform(&mut schema)
    .unwrap();
    assert_eq!(
        schema,
        props(vec![(
            "user",
            props(vec![("ident", JtdSchema::Primitive(Type::String))]),
        )])
    );

    let err = JtdLens::In {
        name: s("user"),
        ops: vec![
            JtdLens::Rename {
                from: s("ident"),
                to: s("id"),
            },
            JtdLens::Remove {
                name: s("nope"),
                schema: JtdSchema::Primitive(Type::Int),
            },
        ],
    }
    .transform(&mut schema)
    .unwrap_err();

    assert_eq!(
        err,
        JtdError::Within(
            s("user"),
            Box::new(JtdError::MissingName(s("remove"), s("nope"))),
        )
    );
    // The failed descent restored the whole sub-schema, including the step
    // that had already applied.
    assert_eq!(
        schema,
        props(vec![(
            "user",
            props(vec![("ident", JtdSchema::Primitive(Type::String))]),
        )])
    );
}

#[test]
fn map_elements_transforms_the_element_schema() {
    let mut schema = JtdSchema::Elements(Box::new(props(vec![(
        "a",
        JtdSchema::Primitive(Type::Int),
    )])));

    JtdLens::MapElements {
        ops: vec![JtdLens::Rename {
            from: s("a"),
            to: s("b"),
        }],
    }
    .transform(&mut schema)
    .unwrap();

    assert_eq!(
        schema,
        JtdSchema::Elements(Box::new(props(vec![("b", JtdSchema::Primitive(Type::Int))])))
    );
}

#[test]
fn map_elements_demands_a_list_schema() {
    let mut schema = props(vec![]);

    let err = JtdLens::MapElements { ops: Vec::new() }
        .transform(&mut schema)
        .unwrap_err();

    assert_eq!(err, JtdError::ExpectedXGotY(s("map"), s("elements"), s("properties")));
}

#[test]
fn convert_replaces_a_matching_type() {
    let mut schema = props(vec![("age", JtdSchema::Primitive(Type::String))]);

    let convert = JtdLens::Convert {
        name: s("age"),
        from_type: JtdSchema::Primitive(Type::String),
        to_type: JtdSchema::Primitive(Type::Int),
        forward: vec![(Value::String(s("1")), Value::Int(1))],
        reverse: vec![(Value::Int(1), Value::String(s("1")))],
    };
    convert.transform(&mut schema).unwrap();
    assert_eq!(schema, props(vec![("age", JtdSchema::Primitive(Type::Int))]));

    convert.reversed().transform(&mut schema).unwrap();
    assert_eq!(schema, props(vec![("age", JtdSchema::Primitive(Type::String))]));
}

#[test]
fn convert_of_a_mismatched_type_is_reported() {
    let mut schema = props(vec![("age", JtdSchema::Primitive(Type::Bool))]);

    let err = JtdLens::Convert {
        name: s("age"),
        from_type: JtdSchema::Primitive(Type::String),
        to_type: JtdSchema::Primitive(Type::Int),
        forward: Vec::new(),
        reverse: Vec::new(),
    }
    .transform(&mut schema)
    .unwrap_err();

    assert_eq!(
        err,
        JtdError::WrongTypeForTransform(
            JtdSchema::Primitive(Type::String),
            JtdSchema::Primitive(Type::Bool),
        )
    );
    assert_eq!(schema, props(vec![("age", JtdSchema::Primitive(Type::Bool))]));
}

#[test]
fn lenses_on_a_primitive_schema_are_unsupported() {
    let mut schema = JtdSchema::Primitive(Type::Int);

    let err = JtdLens::Add {
        name: s("a"),
        schema: JtdSchema::Primitive(Type::Bool),
    }
    .transform(&mut schema)
    .unwrap_err();

    assert_eq!(err, JtdError::UnsupportedSchemaType);
    assert_eq!(schema, JtdSchema::Primitive(Type::Int));
}

#[test]
fn a_lens_sequence_and_its_reverse_cancel() {
    let lenses = vec![
        JtdLens::Add {
            name: s("user"),
            schema: props(vec![("id", JtdSchema::Primitive(Type::String))]),
        },
        JtdLens::Extract {
            host: s("user"),
            name: s("id"),
        },
        JtdLens::Wrap { name: s("user") },
    ];

    let mut schema = props(vec![]);
    for lens in &lenses {
        lens.transform(&mut schema).unwrap();
    }
    assert_eq!(
        schema,
        props(vec![(
            "user",
            JtdSchema::Elements(Box::new(JtdSchema::Primitive(Type::String))),
        )])
    );
    for lens in lenses.iter().rev() {
        lens.reversed().transform(&mut schema).unwrap();
    }
    assert_eq!(schema, props(vec![]));
}
