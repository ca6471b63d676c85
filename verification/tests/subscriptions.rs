use localstore::subscriptions::Subscriptions;

const DOC_NIL: u128 = 0;
const DOC_MAX: u128 = u128::MAX;

#[test]
fn default_assumptions() {
    let subs: Subscriptions<usize> = Subscriptions::default();
    assert!(subs.subscriptions.is_empty());
    assert_eq!(subs.next_id, 0);
}

#[test]
fn subscribe() {
    let mut subs = Subscriptions::new();

    let sub_id = subs.subscribe(DOC_NIL, 1000);

    assert_eq!(sub_id, 0);
    assert_eq!(subs.next_id, 1);

    assert_eq!(subs.subscriptions, vec![(DOC_NIL, vec![(0, 1000)])]);
}

#[test]
fn unsubscribe() {
    let mut subs = Subscriptions::new();

    let sub_id = subs.subscribe(DOC_NIL, 1000);
    subs.unsubscribe(sub_id);

    assert_eq!(subs.subscriptions, vec![(DOC_NIL, Vec::new())]);
}

#[test]
fn multiple_documents() {
    let mut subs = Subscriptions::new();

    let sub_id1 = subs.subscribe(DOC_NIL, 1000);
    let sub_id2 = subs.subscribe(DOC_MAX, 1001);

    assert_eq!(sub_id1, 0);
    assert_eq!(sub_id2, 1);
    assert_eq!(
        subs.subscriptions,
        vec![
            (DOC_NIL, vec![(sub_id1, 1000)]),
            (DOC_MAX, vec![(sub_id2, 1001)]),
        ]
    );
}

#[test]
fn multiple_subscriptions_same_document() {
    let mut subs = Subscriptions::new();

    let sub_id1 = subs.subscribe(DOC_NIL, 1000);
    let sub_id2 = subs.subscribe(DOC_NIL, 1001);

    assert_eq!(subs.subscriptions.len(), 1);
    assert_eq!(
        subs.subscriptions[0],
        (DOC_NIL, vec![(sub_id1, 1000), (sub_id2, 1001)])
    );

    subs.unsubscribe(sub_id1);
    assert_eq!(subs.subscriptions[0].1, vec![(sub_id2, 1001)]);
}
