use memdb::foobar;
use memdb::keys::{key_eq, key_lt, str_eq, variants_match, Key};

#[test]
fn key_equality_is_structural_and_variant_aware() {
    assert!(key_eq(&Key::Int(5), &Key::Int(5)));
    assert!(!key_eq(&Key::Int(5), &Key::Int(6)));
    assert!(!key_eq(&Key::Int(5), &Key::Short(5)));
    assert!(key_eq(
        &Key::Varchar("abc".to_string()),
        &Key::Varchar("abc".to_string())
    ));
    assert!(!key_eq(
        &Key::Varchar("abc".to_string()),
        &Key::Varchar("abd".to_string())
    ));
}

#[test]
fn key_order_is_numeric_for_integers() {
    assert!(key_lt(&Key::Int(-3), &Key::Int(2)));
    assert!(!key_lt(&Key::Int(2), &Key::Int(-3)));
    assert!(key_lt(&Key::Short(-1), &Key::Short(0)));
    assert!(!key_lt(&Key::Int(2), &Key::Int(2)));
}

#[test]
fn key_order_is_lexicographic_for_text() {
    assert!(key_lt(
        &Key::Varchar("apple".to_string()),
        &Key::Varchar("banana".to_string())
    ));
    assert!(key_lt(
        &Key::Varchar("app".to_string()),
        &Key::Varchar("apple".to_string())
    ));
    assert!(!key_lt(
        &Key::Varchar("same".to_string()),
        &Key::Varchar("same".to_string())
    ));
}

#[test]
fn variant_tags_compare() {
    assert!(variants_match(&Key::Int(1), &Key::Int(9)));
    assert!(!variants_match(&Key::Int(1), &Key::Varchar("x".to_string())));
    assert!(variants_match(
        &Key::Varchar("a".to_string()),
        &Key::Varchar("b".to_string())
    ));
}

#[test]
fn string_equality_checks_characters() {
    assert!(str_eq("hello", "hello"));
    assert!(!str_eq("hello", "hellO"));
    assert!(!str_eq("hello", "hell"));
    assert!(str_eq("", ""));
}

#[test]
fn foobar_returns_its_name() {
    assert_eq!(foobar(), "foobar".to_string());
}
