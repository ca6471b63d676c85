use localstore::hlc::Hlc;

#[test]
fn create() {
    assert_eq!(
        Hlc::new_at(1, 1, 1).as_u64(),
        0b100000000000000010000000000000001u64
    )
}

#[test]
fn get_timestamp() {
    let hlc = Hlc::new_at(123, 0, 0);

    assert_eq!(hlc.timestamp(), 123);
    assert_eq!(hlc.counter(), 0);
}

#[test]
fn get_counter() {
    let hlc = Hlc::new_at(0, 123, 0);

    assert_eq!(hlc.counter(), 123)
}

#[test]
fn get_node() {
    let hlc = Hlc::new_at(0, 0, 123);

    assert_eq!(hlc.node(), 123)
}

#[test]
fn next_in_past_increments_counter() {
    let hlc = Hlc::new_at(1, 0, 3).next(0);

    assert_eq!(hlc.timestamp(), 1);
    assert_eq!(hlc.counter(), 1);
    assert_eq!(hlc.node(), 3);
}

#[test]
fn next_in_past_with_full_counter_rolls_over() {
    let hlc = Hlc::new_at(0, u16::MAX, 3).next(0);

    assert_eq!(hlc.timestamp(), 1);
    assert_eq!(hlc.counter(), 0);
    assert_eq!(hlc.node(), 3);
}

#[test]
fn next_in_future_sets_timestamp_to_given_value_and_resets_counter() {
    let hlc = Hlc::new_at(0, 8, 3).next(1);

    assert_eq!(hlc.timestamp(), 1);
    assert_eq!(hlc.counter(), 0);
    assert_eq!(hlc.node(), 3);
}

#[test]
fn set_node() {
    let hlc = Hlc::new_at(0, 0, 1).set_node(2);

    assert_eq!(hlc.timestamp(), 0);
    assert_eq!(hlc.counter(), 0);
    assert_eq!(hlc.node(), 2);
}

#[test]
fn ord_timestamp_first() {
    let a = Hlc::new_at(0, 1, 1);
    let b = Hlc::new_at(1, 0, 0);

    assert!(a < b, "{a:?} was not less than {b:?}")
}

#[test]
fn ord_counter_second() {
    let a = Hlc::new_at(0, 0, 1);
    let b = Hlc::new_at(0, 1, 0);

    assert!(a < b, "{a:?} was not less than {b:?}")
}

#[test]
fn ord_node_third() {
    let a = Hlc::new_at(0, 0, 0);
    let b = Hlc::new_at(0, 0, 1);

    assert!(a < b, "{a:?} was not less than {b:?}")
}

#[test]
fn next_is_strictly_later_for_any_wall_clock() {
    let samples = [
        (Hlc::new_at(10, 4, 7), 0u32),
        (Hlc::new_at(10, 4, 7), 10),
        (Hlc::new_at(10, 4, 7), 11),
        (Hlc::zero(), 0),
        (Hlc::new_at(0, u16::MAX, 1), 0),
    ];
    for (h, w) in samples {
        assert!(h.next(w).as_u64() > h.as_u64(), "next was not after {h:?} at {w}");
    }
}
