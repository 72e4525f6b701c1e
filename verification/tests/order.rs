use shelve::order::{compare_keys, KeyOrder};

#[test]
fn keys_compare_by_utf8_bytes() {
    assert_eq!(compare_keys("Zürich", "äteam"), KeyOrder::Less);
    assert_eq!(compare_keys("äteam", "東京"), KeyOrder::Less);
    assert_eq!(compare_keys("🎉 party", "東京"), KeyOrder::Greater);
    assert_eq!(compare_keys("ab", "a"), KeyOrder::Greater);
    assert_eq!(compare_keys("", "a"), KeyOrder::Less);
    assert_eq!(compare_keys("same", "same"), KeyOrder::Equal);
    assert_eq!(compare_keys("B", "a"), KeyOrder::Less);
}
