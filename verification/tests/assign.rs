use localstore::document::assign::Assign;
use localstore::document::operation::AssignKey;
use localstore::timestamp::Timestamp;

const NIL: u128 = 0;

fn key(name: &str) -> AssignKey {
    AssignKey::MapKey(name.to_string())
}

#[test]
fn assigning_to_empty_struct_retains_value() {
    let mut assign = Assign::new();

    let operation_id = Timestamp::new(0, NIL);
    let value = Timestamp::new(1, NIL);

    assign.assign(operation_id, key("a"), value, &Vec::new());

    let reg = assign.get(&key("a")).expect("register should exist");
    assert_eq!(reg.entries, vec![(operation_id, value)]);
}

#[test]
fn parallel_assignments_keep_both_values() {
    let mut assign = Assign::new();

    let operation_id_a = Timestamp::new(0, NIL);
    let value_a = Timestamp::new(1, NIL);

    let operation_id_b = Timestamp::new(2, NIL);
    let value_b = Timestamp::new(3, NIL);

    // These assignments are parallel because neither has "prev"!
    assign.assign(operation_id_a, key("a"), value_a, &Vec::new());
    assign.assign(operation_id_b, key("a"), value_b, &Vec::new());

    let reg = assign.get(&key("a")).expect("register should exist");
    assert_eq!(
        reg.entries,
        vec![(operation_id_a, value_a), (operation_id_b, value_b)]
    );
}

#[test]
fn prev_removes_existing_assignment() {
    let mut assign = Assign::new();

    let operation_id_a = Timestamp::new(0, NIL);
    let value_a = Timestamp::new(1, NIL);

    let operation_id_b = Timestamp::new(2, NIL);
    let value_b = Timestamp::new(3, NIL);

    assign.assign(operation_id_a, key("a"), value_a, &Vec::new());
    assign.assign(operation_id_b, key("a"), value_b, &vec![operation_id_a]);

    let reg = assign.get(&key("a")).expect("register should exist");
    assert_eq!(reg.entries, vec![(operation_id_b, value_b)]);
}

#[test]
fn remove_removes_only_values_indicated_by_prev() {
    let mut assign = Assign::new();

    let operation_id_a = Timestamp::new(0, NIL);
    let value_a = Timestamp::new(1, NIL);

    let operation_id_b = Timestamp::new(2, NIL);
    let value_b = Timestamp::new(3, NIL);

    assign.assign(operation_id_a, key("a"), value_a, &Vec::new());
    assign.assign(operation_id_b, key("a"), value_b, &Vec::new());

    assign.remove(&key("a"), &vec![operation_id_a]);

    let reg = assign.get(&key("a")).expect("register should exist");
    assert_eq!(reg.entries, vec![(operation_id_b, value_b)]);
}

#[test]
fn remove_removes_the_entire_key_if_all_values_are_removed() {
    let mut assign = Assign::new();

    let operation_id = Timestamp::new(0, NIL);
    let value = Timestamp::new(1, NIL);

    assign.assign(operation_id, key("a"), value, &Vec::new());

    assign.remove(&key("a"), &vec![operation_id]);

    assert!(assign.get(&key("a")).is_none());
}
