use markup_tui::attribute::{Attribute, AttrError};
use markup_tui::store::{new_store, store_set, store_get};

#[test]
fn literal_reads_unchanged() {
    let a = Attribute::create(String::from("hello"), None);
    assert_eq!(a.read().unwrap(), "hello");
}

#[test]
fn escaped_marker_stays_literal() {
    let store = new_store();
    store_set(&store, String::from("x"), String::from("5"));
    let a = Attribute::create(String::from("\\{{x}}"), Some(store));
    // the escape suppresses the derivation and is kept in the literal
    assert_eq!(a.read().unwrap(), "\\{{x}}");
}

#[test]
fn derivation_substitutes_store_value() {
    let store = new_store();
    store_set(&store, String::from("x"), String::from("5"));
    let a = Attribute::create(String::from("{{x}}"), Some(store));
    assert_eq!(a.read().unwrap(), "5");
}

#[test]
fn derivation_away_from_offset_zero() {
    let store = new_store();
    store_set(&store, String::from("x"), String::from("5"));
    let a = Attribute::create(String::from("a{{x}}b"), Some(store));
    assert_eq!(a.read().unwrap(), "a5b");
}

#[test]
fn missing_key_fails_with_its_name() {
    let store = new_store();
    let a = Attribute::create(String::from("{{missing}}"), Some(store));
    match a.read() {
        Err(AttrError::MissingKey { key }) => assert_eq!(key, "missing"),
        _ => panic!("expected a missing-key failure"),
    }
}

#[test]
fn no_store_reads_template_text() {
    let a = Attribute::create(String::from("{{x}}"), None);
    assert_eq!(a.read().unwrap(), "{{x}}");
}

#[test]
fn only_first_marker_derives() {
    let store = new_store();
    store_set(&store, String::from("a"), String::from("1"));
    store_set(&store, String::from("b"), String::from("2"));
    let at = Attribute::create(String::from("{{a}} {{b}}"), Some(store));
    assert_eq!(at.read().unwrap(), "1 {{b}}");
}

#[test]
fn unclosed_marker_is_literal() {
    let store = new_store();
    let a = Attribute::create(String::from("{{x"), Some(store));
    assert_eq!(a.read().unwrap(), "{{x");
}

#[test]
fn empty_value_is_literal() {
    let a = Attribute::create(String::new(), None);
    assert_eq!(a.read().unwrap(), "");
}

#[test]
fn store_mutation_is_visible_to_later_reads() {
    let store = new_store();
    store_set(&store, String::from("k"), String::from("one"));
    let a = Attribute::create(String::from("{{k}}"), Some(store.clone()));
    assert_eq!(a.read().unwrap(), "one");
    store_set(&store, String::from("k"), String::from("two"));
    assert_eq!(a.read().unwrap(), "two");
}

#[test]
fn store_get_returns_what_was_set() {
    let store = new_store();
    assert!(store_get(&store, "k").is_none());
    store_set(&store, String::from("k"), String::from("v"));
    assert_eq!(store_get(&store, "k").unwrap(), "v");
}
