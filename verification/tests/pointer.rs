use localstore::pointer::{escape_token, pointer_append, u64_to_dec};

#[test]
fn decimal_rendering() {
    assert_eq!(u64_to_dec(0), "0");
    assert_eq!(u64_to_dec(7), "7");
    assert_eq!(u64_to_dec(10), "10");
    assert_eq!(u64_to_dec(90210), "90210");
    assert_eq!(u64_to_dec(u64::MAX), "18446744073709551615");
}

#[test]
fn escaping_pointer_tokens() {
    assert_eq!(escape_token("plain"), "plain");
    assert_eq!(escape_token("a/b"), "a~1b");
    assert_eq!(escape_token("a~b"), "a~0b");
    assert_eq!(escape_token("~/"), "~0~1");
}

#[test]
fn appending_pointer_tokens() {
    let root = String::new();
    let child = pointer_append(&root, "hello");
    assert_eq!(child, "/hello");
    let grandchild = pointer_append(&child, "wo/rld");
    assert_eq!(grandchild, "/hello/wo~1rld");
}
