use state_hits::hit::HitResult;
use state_hits::text::{comes_before, same_text, starts_with};

#[test]
fn text_is_ordered_by_its_bytes() {
    assert!(comes_before("2023-01-01", "2023-01-02"));
    assert!(!comes_before("2023-01-02", "2023-01-01"));
    assert!(!comes_before("2023-01-01", "2023-01-01"));
    assert!(comes_before("2022-12-31", "2023-01-01"));
    assert!(comes_before("", "a"));
    assert!(!comes_before("a", ""));
    assert!(!comes_before("", ""));
    assert!(comes_before("2023-01", "2023-01-01"));
    assert!(!comes_before("2023-01-01", "2023-01"));
    assert!(comes_before("2023-01-01 10:00:00", "2023-01-01T10:00:00"));
    assert!(comes_before("Z", "a"));
    assert!(comes_before("z", "é"));
    assert!(comes_before("é", "日"));
    assert!(!comes_before("日本", "日"));
}

#[test]
fn order_agrees_with_the_order_of_strings() {
    let words = ["", "a", "ab", "b", "2023-01-01", "2023-1-1", "é", "日本", "z", "Z"];
    for a in words {
        for b in words {
            assert_eq!(comes_before(a, b), a < b, "{:?} before {:?}", a, b);
            assert_eq!(same_text(a, b), a == b, "{:?} same as {:?}", a, b);
            assert_eq!(starts_with(a, b), a.starts_with(b), "{:?} starts with {:?}", a, b);
        }
    }
}

#[test]
fn prefix_is_a_matter_of_whole_characters() {
    assert!(starts_with("2023-01-01T10:00:00Z", "2023-01-01"));
    assert!(!starts_with("2023-01-02T10:00:00Z", "2023-01-01"));
    assert!(starts_with("anything", ""));
    assert!(starts_with("", ""));
    assert!(!starts_with("", "a"));
    assert!(starts_with("same", "same"));
    assert!(!starts_with("sam", "same"));
    assert!(starts_with("日本語", "日本"));
    assert!(!starts_with("日本語", "本"));
}

#[test]
fn same_text_is_equality() {
    assert!(same_text("test_token", "test_token"));
    assert!(same_text("", ""));
    assert!(!same_text("test_token", "test_tokeN"));
    assert!(!same_text("Test_token", "test_token"));
    assert!(!same_text("test_token", "test_token2"));
    assert!(!same_text("", "x"));
    assert!(same_text("日本", "日本"));
    assert!(!same_text("日本", "日木"));
}

#[test]
fn copies_of_a_record_are_equal_to_it() {
    let record = HitResult {
        state: "CA".to_string(),
        hit: 5,
        date: "2023-01-01".to_string(),
        timestamp: Some("2023-01-01T10:00:00Z".to_string()),
    };
    let copy = record.clone();
    assert_eq!(copy.state, record.state);
    assert_eq!(copy.hit, record.hit);
    assert_eq!(copy.date, record.date);
    assert_eq!(copy.timestamp, record.timestamp);

    let stamped = record.stamped("2024-01-01 00:00:00".to_string());
    assert_eq!(stamped.state, "CA");
    assert_eq!(stamped.hit, 5);
    assert_eq!(stamped.date, "2023-01-01");
    assert_eq!(stamped.timestamp.as_deref(), Some("2024-01-01 00:00:00"));
}
