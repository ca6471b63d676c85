use localstore::document::operation::AssignKey;
use localstore::document::value::Value;
use localstore::document::{DocValue, Document, PatchAdd};
use localstore::timestamp::Timestamp;

fn s(text: &str) -> String {
    text.to_string()
}

const NIL: u128 = 0;

#[test]
fn make_map_gives_timestamp_for_map() {
    let mut doc = Document::default();
    let node_id: u128 = 0x1234;

    let map_id = doc.make_map(node_id);

    assert!(doc.maps.contains_key(map_id));
}

#[test]
fn make_list_gives_timestamp_for_list() {
    let mut doc = Document::default();
    let node_id: u128 = 0x1234;

    let list_id = doc.make_list(node_id);

    assert!(doc.list_items.contains_key(list_id));
}

#[test]
fn make_val_gives_timestamp_for_val() {
    let mut doc = Document::default();
    let node_id: u128 = 0x1234;
    let value = Value::Number((0.0f64).to_bits());

    let val_id = doc.make_val(value.clone(), node_id);

    assert_eq!(doc.values.get(val_id), Some(&value));
}

#[test]
fn assign_to_non_existent_object_stores_anyway() {
    let mut doc = Document::default();
    let node_id: u128 = 0x1234;

    let non_existent_id = Timestamp::new(999, node_id);

    let val_id = doc.make_val(Value::Number((0.0f64).to_bits()), node_id);

    doc.assign(
        non_existent_id,
        AssignKey::MapKey(s("key")),
        val_id,
        Vec::new(),
        node_id,
    );

    assert!(doc.maps.contains_key(non_existent_id));
}

#[test]
fn assigning_then_removing_results_in_removal() {
    let mut doc = Document::default();
    let node = NIL;

    let map_id = doc.make_map(node);
    let val = doc.make_val(Value::Number((1.0f64).to_bits()), node);

    let key = s("test");
    let assign_key = AssignKey::MapKey(key.clone());

    let assign_id = doc.assign(map_id, assign_key.clone(), val, Vec::new(), node);
    doc.remove(map_id, assign_key.clone(), vec![assign_id], node);

    assert!(
        doc.maps
            .get(map_id)
            .and_then(|a| a.get(&assign_key))
            .is_none(),
        "{key:?} was unexpectedly still present for map in doc {doc:#?}",
    );
}

#[test]
fn object_root() {
    let mut doc = Document::default();
    doc.make_map(NIL);

    assert_eq!(doc.as_patch(), Vec::<PatchAdd>::new());
}

#[test]
fn object_assign() {
    let mut doc = Document::default();
    let root_id = doc.make_map(NIL);
    let val_id = doc.make_val(Value::String(s("world")), NIL);
    doc.assign(
        root_id,
        AssignKey::MapKey(s("hello")),
        val_id,
        Vec::new(),
        NIL,
    );

    assert_eq!(
        doc.as_patch(),
        vec![PatchAdd {
            path: s("/hello"),
            value: DocValue::Leaf(Value::String(s("world"))),
        }]
    );
}

#[test]
fn list_assign() {
    let mut doc = Document::default();
    let root_id = doc.make_list(NIL);

    let val_a = doc.make_val(Value::String(s("hello")), NIL);
    let insert_a = doc.insert_after(root_id, NIL);
    doc.assign(
        root_id,
        AssignKey::InsertAfter(insert_a),
        val_a,
        Vec::new(),
        NIL,
    );

    let val_b = doc.make_val(Value::String(s("howdy")), NIL);
    let insert_b = doc.insert_after(insert_a, NIL);
    doc.assign(
        root_id,
        AssignKey::InsertAfter(insert_b),
        val_b,
        Vec::new(),
        NIL,
    );

    assert_eq!(
        doc.as_patch(),
        vec![
            PatchAdd {
                path: s("/0"),
                value: DocValue::Leaf(Value::String(s("hello"))),
            },
            PatchAdd {
                path: s("/1"),
                value: DocValue::Leaf(Value::String(s("howdy"))),
            },
        ]
    );

    assert_eq!(
        doc.as_value(),
        DocValue::Array(vec![
            DocValue::Leaf(Value::String(s("hello"))),
            DocValue::Leaf(Value::String(s("howdy"))),
        ])
    );
}

#[test]
fn deep_assign_map() {
    let mut doc = Document::default();
    let root_id = doc.make_map(NIL);

    let greetings_id = doc.make_map(NIL);
    doc.assign(
        root_id,
        AssignKey::MapKey(s("greetings")),
        greetings_id,
        Vec::new(),
        NIL,
    );

    let world_id = doc.make_val(Value::String(s("world")), NIL);
    doc.assign(
        greetings_id,
        AssignKey::MapKey(s("hello")),
        world_id,
        Vec::new(),
        NIL,
    );

    assert_eq!(
        doc.as_patch(),
        vec![
            PatchAdd {
                path: s("/greetings"),
                value: DocValue::Object(Vec::new()),
            },
            PatchAdd {
                path: s("/greetings/hello"),
                value: DocValue::Leaf(Value::String(s("world"))),
            },
        ]
    );
}

#[test]
fn deep_assign_list() {
    let mut doc = Document::default();
    let root_id = doc.make_map(NIL);

    let greetings_id = doc.make_list(NIL);
    doc.assign(
        root_id,
        AssignKey::MapKey(s("greetings")),
        greetings_id,
        Vec::new(),
        NIL,
    );

    let insert_id = doc.insert_after(greetings_id, NIL);
    let world_id = doc.make_val(Value::String(s("world")), NIL);
    doc.assign(
        greetings_id,
        AssignKey::InsertAfter(insert_id),
        world_id,
        Vec::new(),
        NIL,
    );

    assert_eq!(
        doc.as_patch(),
        vec![
            PatchAdd {
                path: s("/greetings"),
                value: DocValue::Array(Vec::new()),
            },
            PatchAdd {
                path: s("/greetings/0"),
                value: DocValue::Leaf(Value::String(s("world"))),
            },
        ]
    );
}

#[test]
fn map_materialization_builds_the_object() {
    let mut doc = Document::default();
    let root_id = doc.make_map(NIL);
    let val_id = doc.make_val(Value::String(s("World")), NIL);
    doc.assign(
        root_id,
        AssignKey::MapKey(s("hello")),
        val_id,
        Vec::new(),
        NIL,
    );

    assert_eq!(
        doc.as_value(),
        DocValue::Object(vec![(
            s("hello"),
            DocValue::Leaf(Value::String(s("World"))),
        )])
    );
    assert_eq!(
        doc.as_patch(),
        vec![PatchAdd {
            path: s("/hello"),
            value: DocValue::Leaf(Value::String(s("World"))),
        }]
    );
}

#[test]
fn map_entries_materialize_in_name_order() {
    let mut doc = Document::default();
    let root_id = doc.make_map(NIL);

    // Assign the keys out of order; the object still comes out name-sorted.
    let vb = doc.make_val(Value::Bool(true), NIL);
    doc.assign(root_id, AssignKey::MapKey(s("b")), vb, Vec::new(), NIL);
    let va = doc.make_val(Value::Bool(false), NIL);
    doc.assign(root_id, AssignKey::MapKey(s("a")), va, Vec::new(), NIL);

    assert_eq!(
        doc.as_value(),
        DocValue::Object(vec![
            (s("a"), DocValue::Leaf(Value::Bool(false))),
            (s("b"), DocValue::Leaf(Value::Bool(true))),
        ])
    );
    assert_eq!(
        doc.as_patch(),
        vec![
            PatchAdd {
                path: s("/a"),
                value: DocValue::Leaf(Value::Bool(false)),
            },
            PatchAdd {
                path: s("/b"),
                value: DocValue::Leaf(Value::Bool(true)),
            },
        ]
    );
}

#[test]
fn empty_document_has_no_root() {
    let doc = Document::default();
    assert_eq!(doc.root(), None);
    assert_eq!(doc.as_value(), DocValue::Null);
}

#[test]
fn current_assigns_returns_winning_operations() {
    let mut doc = Document::default();
    let root_id = doc.make_map(NIL);
    let key = AssignKey::MapKey(s("k"));

    let v1 = doc.make_val(Value::Bool(true), NIL);
    let a1 = doc.assign(root_id, key.clone(), v1, Vec::new(), NIL);
    assert_eq!(doc.current_assigns(root_id, &key), vec![a1]);

    let v2 = doc.make_val(Value::Bool(false), NIL);
    let prev = doc.current_assigns(root_id, &key);
    let a2 = doc.assign(root_id, key.clone(), v2, prev, NIL);
    assert_eq!(doc.current_assigns(root_id, &key), vec![a2]);
}

#[test]
fn insert_after_keeps_a_single_chain() {
    let mut doc = Document::default();
    let root = doc.make_list(NIL);
    let m1 = doc.insert_after(root, NIL);
    let m3 = doc.insert_after(m1, NIL);
    // Splice a marker in between the two existing ones.
    let m2 = doc.insert_after(m1, NIL);

    let chain = doc.list_ordering.iter(root);
    assert_eq!(chain, vec![m1, m2, m3]);

    // No marker is the successor of two different markers.
    for a in 0..doc.list_ordering.ordering.entries.len() {
        for b in 0..doc.list_ordering.ordering.entries.len() {
            if a != b {
                assert_ne!(
                    doc.list_ordering.ordering.entries[a].1,
                    doc.list_ordering.ordering.entries[b].1
                );
            }
        }
    }
}

#[test]
fn iteration_matches_insertion_order() {
    let mut doc = Document::default();
    let root = doc.make_list(NIL);
    let mut markers = Vec::new();
    let mut prev = root;
    for _ in 0..5 {
        let m = doc.insert_after(prev, NIL);
        markers.push(m);
        prev = m;
    }
    assert_eq!(doc.list_ordering.iter(root), markers);
}
