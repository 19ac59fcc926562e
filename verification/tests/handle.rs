use talk_protocol::handle::{QueryMatch, RTEntity};

#[test]
fn entity_keeps_id_and_note() {
    let e = RTEntity::new(String::from("e1"), String::from("a page"));
    assert_eq!(e.id(), "e1");
    assert_eq!(e.note(), "a page");
}

#[test]
fn query_match_binds_names() {
    let mut m = QueryMatch::new();
    assert!(m.get_value("page").is_none());
    m.insert(String::from("page"), String::from("\"p1\""));
    m.insert(String::from("t"), String::from("12"));
    assert_eq!(m.get_value("page").unwrap(), "\"p1\"");
    m.insert(String::from("page"), String::from("\"p2\""));
    assert_eq!(m.get_value("page").unwrap(), "\"p2\"");
    assert_eq!(m.get_value("t").unwrap(), "12");
}
