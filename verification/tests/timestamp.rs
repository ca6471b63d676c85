use localstore::timestamp::Timestamp;

#[test]
fn display_includes_counter_and_timestamp() {
    let ts = Timestamp::new(123, 0);

    assert_eq!(
        ts.to_display_string(),
        "123@00000000-0000-0000-0000-000000000000"
    )
}

#[test]
fn sort_by_counter_then_node() {
    let samples = [
        (Timestamp::new(1, 5), Timestamp::new(2, 0)),
        (Timestamp::new(3, 1), Timestamp::new(3, 2)),
    ];
    for (a, b) in samples {
        assert!(a < b, "{a:?} was not less than {b:?}");
    }
    assert_eq!(
        Timestamp::new(4, 9).cmp(&Timestamp::new(4, 9)),
        std::cmp::Ordering::Equal
    );
}
