use localstore::clock::FixedClock;
use localstore::hlc::Hlc;
use localstore::op::{Field, Row};
use localstore::lens::{AddRemoveField, Lens};
use localstore::migrator::{Migration, Migrator};
use localstore::storage::memory::MemoryStorage;
use localstore::store::{Error, Store};
use localstore::strmap::StrMap;
use localstore::type_::Type;
use localstore::value::Value;

fn s(text: &str) -> String {
    text.to_string()
}

fn init() -> Store<MemoryStorage, FixedClock> {
    let mut migrator = Migrator::default();
    migrator.add_migration(Migration {
        schema: s("test"),
        version: 1,
        ops: vec![Lens::Add(AddRemoveField {
            name: s("test"),
            type_: Type::String,
            default: Value::String(s("default")),
        })],
    });

    let mut schema_to_version = StrMap::new();
    schema_to_version.insert(s("test"), 1);

    Store::new(
        migrator,
        schema_to_version,
        MemoryStorage::default(),
        FixedClock { now: 0 },
    )
}

#[test]
fn insert_stores_row() {
    let mut store = init();

    store.insert(s("test"), StrMap::new()).unwrap();

    let row = &store.storage.rows[0];

    assert_eq!(row.schema, "test");
    assert_eq!(row.removed, None);
}

#[test]
fn insert_stores_field() {
    let mut store = init();

    let mut data = StrMap::new();
    data.insert(s("test"), Value::String(s("hooray!")));
    store.insert(s("test"), data).unwrap();

    let row = &store.storage.rows[0];
    let field = &store.storage.fields[0];

    assert_eq!(field.schema, "test");
    assert_eq!(field.row_id, row.id);
    assert_eq!(field.field_name, "test");
    assert_eq!(field.schema_version, 1);
    assert_eq!(field.value, Value::String(s("hooray!")));
}

#[test]
fn test_validation_failure() {
    let mut store = init();

    let mut data = StrMap::new();
    data.insert(s("test"), Value::Int(1));
    let result = store.insert(s("test"), data);

    assert!(
        matches!(result, Err(Error::Validation(ref name, _)) if name == "test"),
        "Expected validation error for \"test\", got {result:?}"
    );

    // we should have aborted the transaction; no changes to rows or fields
    assert_eq!(store.storage.rows.len(), 0);
    assert_eq!(store.storage.fields.len(), 0);
}

#[test]
fn insert_writes_fields_in_name_order() {
    let mut migrator = Migrator::default();
    migrator.add_migration(Migration {
        schema: s("test"),
        version: 1,
        ops: vec![
            Lens::Add(AddRemoveField {
                name: s("zeta"),
                type_: Type::String,
                default: Value::String(String::new()),
            }),
            Lens::Add(AddRemoveField {
                name: s("alpha"),
                type_: Type::String,
                default: Value::String(String::new()),
            }),
        ],
    });
    let mut schema_to_version = StrMap::new();
    schema_to_version.insert(s("test"), 1);
    let mut store = Store::new(
        migrator,
        schema_to_version,
        MemoryStorage::default(),
        FixedClock { now: 0 },
    );

    let mut data = StrMap::new();
    data.insert(s("zeta"), Value::String(s("z")));
    data.insert(s("alpha"), Value::String(s("a")));
    store.insert(s("test"), data).unwrap();

    assert_eq!(store.storage.fields.len(), 2);
    assert_eq!(store.storage.fields[0].field_name, "alpha");
    assert_eq!(store.storage.fields[1].field_name, "zeta");
}

#[test]
fn insert_reports_the_missing_migration_path() {
    let mut migrator = Migrator::default();
    migrator.add_migration(Migration {
        schema: s("test"),
        version: 1,
        ops: vec![Lens::Add(AddRemoveField {
            name: s("test"),
            type_: Type::String,
            default: Value::String(String::new()),
        })],
    });
    // The store pins a version the graph has no path to.
    let mut schema_to_version = StrMap::new();
    schema_to_version.insert(s("test"), 3);
    let mut store = Store::new(
        migrator,
        schema_to_version,
        MemoryStorage::default(),
        FixedClock { now: 0 },
    );

    let result = store.insert(s("test"), StrMap::new());
    assert!(
        matches!(
            result,
            Err(Error::Schema(localstore::migrator::Error::MigrationPathNotFound(
                ref name,
                3,
            ))) if name == "test"
        ),
        "Expected the missing path to surface, got {result:?}"
    );
    assert_eq!(store.storage.rows.len(), 0);
}

#[test]
fn insert_into_unknown_schema_reports_it() {
    let mut store = init();

    let result = store.insert(s("nope"), StrMap::new());
    assert!(
        matches!(result, Err(Error::SchemaNotFound(ref name)) if name == "nope"),
        "Expected a schema-not-found error, got {result:?}"
    );
    assert_eq!(store.storage.rows.len(), 0);
}

#[test]
fn list_returns_inserted_rows() {
    let mut store = init();

    let mut data = StrMap::new();
    data.insert(s("test"), Value::String(s("ok")));
    store.insert(s("test"), data).unwrap();

    let listed = store.list(s("test")).unwrap();
    assert_eq!(listed.len(), 1);
    assert_eq!(
        listed[0].get(&s("test")),
        Some(&Value::String(s("ok")))
    );

    assert_eq!(store.list(s("other")).unwrap().len(), 0);
}

#[test]
fn list_folds_fields_by_latest_clock() {
    let mut store = init();
    store.storage.rows.push(Row {
        schema: s("test"),
        id: 7,
        added: Hlc::zero(),
        removed: None,
    });
    store.storage.fields.push(Field {
        schema: s("test"),
        row_id: 7,
        field_name: s("test"),
        timestamp: Hlc::new_at(10, 0, 0),
        schema_version: 1,
        value: Value::String(s("late")),
    });
    store.storage.fields.push(Field {
        schema: s("test"),
        row_id: 7,
        field_name: s("test"),
        timestamp: Hlc::new_at(5, 0, 0),
        schema_version: 1,
        value: Value::String(s("early")),
    });

    let listed = store.list(s("test")).unwrap();
    assert_eq!(listed.len(), 1);
    assert_eq!(
        listed[0].get(&s("test")),
        Some(&Value::String(s("late")))
    );
}

#[test]
fn list_skips_removed_rows() {
    let mut store = init();
    store.storage.rows.push(Row {
        schema: s("test"),
        id: 1,
        added: Hlc::new_at(1, 0, 0),
        removed: Some(Hlc::new_at(2, 0, 0)),
    });
    store.storage.rows.push(Row {
        schema: s("test"),
        id: 2,
        added: Hlc::new_at(3, 0, 0),
        removed: None,
    });

    let listed = store.list(s("test")).unwrap();
    assert_eq!(listed.len(), 1);
}
