use localstore::lens::{AddRemoveField, Lens};
use localstore::migrator::{Error, Migration, Migrator};
use localstore::schema::{Field, Schema};
use localstore::type_::{SerdeType, Type};
use localstore::value::Value;

fn s(text: &str) -> String {
    text.to_string()
}

fn add_lens(name: &str, nullable: bool) -> Lens {
    Lens::Add(AddRemoveField {
        name: s(name),
        type_: Type::from_serde(SerdeType::String, nullable),
        default: if nullable {
            Value::Null
        } else {
            Value::String(String::new())
        },
    })
}

#[test]
fn migrator_migration_path() {
    let mut migrator = Migrator::default();

    let lens_a = add_lens("a", true);
    let migration_a = Migration {
        schema: s("test"),
        version: 1,
        ops: vec![lens_a.duplicate()],
    };
    migrator.add_migration(migration_a);

    let lens_b = Lens::Rename {
        from: s("a"),
        to: s("b"),
    };
    let migration_b = Migration {
        schema: s("test"),
        version: 2,
        ops: vec![lens_b.duplicate()],
    };
    migrator.add_migration(migration_b);

    let lens_c = Lens::Rename {
        from: s("b"),
        to: s("c"),
    };
    let migration_c = Migration {
        schema: s("test"),
        version: 3,
        ops: vec![lens_c.duplicate()],
    };
    migrator.add_migration(migration_c);

    assert_eq!(
        Some(vec![lens_a.duplicate(), lens_b.duplicate(), lens_c.duplicate()]),
        migrator.migration_path(&s("test"), 0, 3)
    );

    assert_eq!(
        Some(vec![lens_c.reversed(), lens_b.reversed()]),
        migrator.migration_path(&s("test"), 3, 1)
    );
}

#[test]
fn schema_missing() {
    let migrator = Migrator::default();

    assert_eq!(
        migrator.schema(&s("nope"), 1),
        Err(Error::MigrationPathNotFound(s("nope"), 1))
    )
}

#[test]
fn schema_conflict() {
    let mut migrator = Migrator::default();

    migrator.add_migration(Migration {
        schema: s("test"),
        version: 1,
        ops: vec![add_lens("a", true)],
    });
    migrator.add_migration(Migration {
        schema: s("test"),
        version: 2,
        ops: vec![add_lens("a", true)],
    });

    let err = migrator.schema(&s("test"), 2).unwrap_err();

    assert!(
        matches!(err, Error::CouldNotApply(..)),
        "Expected CouldNotApply, got {err:?}"
    );
}

#[test]
fn schema_success() {
    let mut migrator = Migrator::default();
    migrator.add_migration(Migration {
        schema: s("test"),
        version: 1,
        ops: vec![add_lens("a", true)],
    });

    assert_eq!(
        migrator.schema(&s("test"), 1),
        Ok(Schema::from_pairs(vec![(
            s("a"),
            Field {
                type_: Type::Nullable(Box::new(Type::String)),
                default: Value::Null,
            },
        )]))
    )
}

#[test]
fn linear_build_reaches_the_renamed_field() {
    let mut migrator = Migrator::default();
    migrator.add_migration(Migration {
        schema: s("t"),
        version: 1,
        ops: vec![Lens::Add(AddRemoveField {
            name: s("a"),
            type_: Type::String,
            default: Value::String(String::new()),
        })],
    });
    migrator.add_migration(Migration {
        schema: s("t"),
        version: 2,
        ops: vec![Lens::Rename { from: s("a"), to: s("b") }],
    });
    migrator.add_migration(Migration {
        schema: s("t"),
        version: 3,
        ops: vec![Lens::Rename { from: s("b"), to: s("c") }],
    });

    assert_eq!(
        migrator.schema(&s("t"), 3),
        Ok(Schema::from_pairs(vec![(
            s("c"),
            Field {
                type_: Type::String,
                default: Value::String(String::new()),
            },
        )]))
    );

    assert_eq!(
        migrator.migration_path(&s("t"), 3, 1),
        Some(vec![
            Lens::Rename { from: s("c"), to: s("b") },
            Lens::Rename { from: s("b"), to: s("a") },
        ])
    );
}

#[test]
fn schema_at_version_zero_has_no_path() {
    let mut migrator = Migrator::default();
    migrator.add_migration(Migration {
        schema: s("t"),
        version: 1,
        ops: vec![add_lens("a", false)],
    });

    assert_eq!(
        migrator.schema(&s("t"), 0),
        Err(Error::MigrationPathNotFound(s("t"), 0))
    );
    assert_eq!(migrator.migration_path(&s("t"), 2, 2), None);
}

#[test]
fn path_length_matches_version_distance() {
    let mut migrator = Migrator::default();
    for version in 1..=4usize {
        migrator.add_migration(Migration {
            schema: s("t"),
            version,
            ops: vec![add_lens(&format!("f{version}"), false)],
        });
    }

    let up = migrator.migration_path(&s("t"), 0, 4).unwrap();
    assert_eq!(up.len(), 4);
    let down = migrator.migration_path(&s("t"), 4, 1).unwrap();
    assert_eq!(down.len(), 3);
    assert_eq!(migrator.migration_path(&s("t"), 0, 5), None);
}
