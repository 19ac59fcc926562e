use talk_protocol::lexicon::{group_end, is_ident, is_keyword, is_literal, is_number, is_word};

fn texts(tokens: &[&str]) -> Vec<String> {
    tokens.iter().map(|t| String::from(*t)).collect()
}

#[test]
fn words_are_identifiers_that_are_not_keywords() {
    assert!(is_word("page"));
    assert!(is_word("_x1"));
    assert!(is_word("r#match"));
    assert!(is_word("caf\u{e9}"));
    assert!(!is_word("in"));
    assert!(!is_word("_"));
    assert!(!is_word("self"));
    assert!(!is_word("1a"));
    assert!(!is_word(""));
    assert!(is_ident("while"));
    assert!(is_keyword("while"));
    assert!(!is_keyword("whilst"));
}

#[test]
fn literals_and_numbers() {
    assert!(is_literal("true"));
    assert!(is_literal("false"));
    assert!(is_literal("15.9"));
    assert!(is_literal("\"up\""));
    assert!(is_literal("r#\"raw\"#"));
    assert!(is_literal("b'x'"));
    assert!(is_literal("'\\n'"));
    assert!(!is_literal("'a"));
    assert!(!is_literal("up"));
    assert!(!is_literal("("));
    assert!(is_number("0x1f"));
    assert!(!is_number("x1"));
    assert!(!is_number(""));
}

#[test]
fn group_end_finds_the_matching_close() {
    assert_eq!(group_end(&texts(&["(", "a", ")", "b"])), Some(2));
    assert_eq!(group_end(&texts(&["(", "(", "[", "]", ")", ")", ")"])), Some(5));
    assert_eq!(group_end(&texts(&["(", "{", "a", "}"])), None);
    assert_eq!(group_end(&texts(&["("])), None);
}
