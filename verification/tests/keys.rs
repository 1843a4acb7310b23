use mini_lsm::keys::{key_eq, key_le, key_lt};

#[test]
fn key_order_is_lexicographic() {
    assert!(key_lt(b"a", b"b"));
    assert!(key_lt(b"a", b"aa"));
    assert!(key_lt(b"", b"a"));
    assert!(!key_lt(b"b", b"a"));
    assert!(!key_lt(b"aa", b"a"));
    assert!(!key_lt(b"abc", b"abc"));
    assert!(key_lt(b"abc", b"abd"));
}

#[test]
fn key_le_and_eq_agree_with_lt() {
    assert!(key_le(b"abc", b"abc"));
    assert!(key_le(b"ab", b"abc"));
    assert!(!key_le(b"abd", b"abc"));
    assert!(key_eq(b"abc", b"abc"));
    assert!(!key_eq(b"abc", b"abd"));
    assert!(!key_eq(b"ab", b"abc"));
}
