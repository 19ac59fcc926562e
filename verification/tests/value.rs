use talk_protocol::value::{calculate_hash, text, ClaimValue};

#[test]
fn equal_texts_give_equal_values() {
    assert!(text("page1") == text("page1"));
    assert!(text("page1") != text("page2"));
}

#[test]
fn value_holds_the_json_and_its_hash() {
    let v = text("up");
    assert_eq!(v.json(), &serde_json::Value::from("up"));
    assert_eq!(v.to_string(), "\"up\"");
    assert_eq!(v.hash_value(), calculate_hash("\"up\""));
}

#[test]
fn value_from_json_hashes_its_text() {
    let v = ClaimValue::from(serde_json::from_str::<serde_json::Value>("{\"lat\":12}").unwrap());
    assert_eq!(v.to_string(), "{\"lat\":12}");
    assert_eq!(v.hash_value(), calculate_hash("{\"lat\":12}"));
    let same = ClaimValue::from(serde_json::from_str::<serde_json::Value>("{ \"lat\" : 12 }").unwrap());
    assert!(v == same);
}

#[test]
fn equal_values_hash_alike() {
    let mut set = std::collections::HashSet::new();
    set.insert(text("page1"));
    set.insert(text("page1"));
    set.insert(text("page2"));
    assert_eq!(set.len(), 2);
}

#[test]
fn text_is_written_as_json_writes_a_string() {
    let t = "a\"b\\c\n\t\r\u{8}\u{c}\u{1}\u{1f}é\u{7f}";
    let v = text(t);
    assert_eq!(v.to_string(), serde_json::to_string(t).unwrap());
    assert_eq!(v.to_string(), "\"a\\\"b\\\\c\\n\\t\\r\\b\\f\\u0001\\u001fé\u{7f}\"");
    assert_eq!(v.hash_value(), calculate_hash(&serde_json::to_string(t).unwrap()));
}

#[test]
fn cloned_value_is_equal() {
    let v = text("page1");
    let w = v.clone();
    assert!(v == w);
    assert_eq!(w.json(), v.json());
}
