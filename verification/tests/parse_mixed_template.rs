use serde_json::Value;
use talk_protocol::template::TemplatePlace::{Any, Capture, Pin};
use talk_protocol::template::{json_place, parse_template_and_values, parse_template_checked, TemplateAndPlaces};

fn parse_expect(template: &str, expects: TemplateAndPlaces) {
    assert_eq!(parse_template_and_values(template).expect("parses"), expects);
}

fn test_tap(template: &str, vals: Vec<&str>) -> TemplateAndPlaces {
    TemplateAndPlaces::new(
        template,
        vals.into_iter()
            .map(|s| Pin(serde_json::from_str(s).unwrap()))
            .collect(),
    )
}

#[test]
fn test_parse() {
    parse_expect(
        r#"("A") points ("up") at ("B")"#,
        test_tap("_ points _ at _", vec!["\"A\"", "\"up\"", "\"B\""]),
    );
    parse_expect(
        r#"Saw (1) at ("B")"#,
        test_tap("Saw _ at _", vec!["1", "\"B\""]),
    );
    parse_expect(
        r#"("B") claims ("C") is mapbox of ({"lat":12})"#,
        test_tap("_ claims _ is mapbox of _", vec!["\"B\"", "\"C\"", "{\"lat\":12}"]),
    );
    parse_expect(
        r#"("B") ("\"") (")\\)\\((")"#,
        test_tap("_ _ _", vec!["\"B\"", "\"\\\"\"", r#"")\\)\\((""#]),
    );
}

#[test]
fn test_capture() {
    parse_expect(
        r#"/page/ points ("up") at /target/"#,
        TemplateAndPlaces::new(
            "_ points _ at _",
            vec![Capture(String::from("page")), Pin(Value::from("up")), Capture(String::from("target"))],
        ),
    )
}

#[test]
fn test_pin_str() {
    parse_expect(
        r#"/page/ points "up" at /target/"#,
        TemplateAndPlaces::new(
            "_ points _ at _",
            vec![Capture(String::from("page")), Pin(Value::from("up")), Capture(String::from("target"))],
        ),
    );
    parse_expect(
        r#""A" points "up" at "B""#,
        test_tap("_ points _ at _", vec!["\"A\"", "\"up\"", "\"B\""]),
    );
}

#[test]
fn any_placeholder_and_words() {
    let parsed = parse_template_and_values("_ is _ of Me").unwrap();
    assert_eq!(parsed.template(), "_ is _ of Me");
    assert_eq!(parsed.places(), &vec![Any, Any]);
}

#[test]
fn empty_template() {
    let parsed = parse_template_and_values("").unwrap();
    assert_eq!(parsed, TemplateAndPlaces::new("", vec![]));
}

#[test]
fn quoted_pin_keeps_escapes() {
    let parsed = parse_template_and_values(r#"say "a\"b""#).unwrap();
    assert_eq!(parsed, TemplateAndPlaces::new("say _", vec![Pin(Value::from(r#"a\"b"#))]));
}

#[test]
fn unterminated_placeholders_add_only_the_underscore() {
    assert_eq!(parse_template_and_values("a (1").unwrap(), TemplateAndPlaces::new("a _", vec![]));
    assert_eq!(parse_template_and_values("a /name").unwrap(), TemplateAndPlaces::new("a _", vec![]));
    assert_eq!(parse_template_and_values("a \"up").unwrap(), TemplateAndPlaces::new("a _", vec![]));
    assert_eq!(parse_template_and_values("a (\"x)\\").unwrap(), TemplateAndPlaces::new("a _", vec![]));
}

#[test]
fn closing_paren_at_top_level_is_an_error() {
    assert_eq!(
        parse_template_and_values("abc ) def"),
        Err(String::from("Unexpected ')' in template at position: 4"))
    );
}

#[test]
fn nested_paren_is_an_error() {
    assert_eq!(
        parse_template_and_values("xx (1 (2))"),
        Err(String::from("Unexpected '(' in template while skimming JSON from position 3 to 6"))
    );
}

#[test]
fn unexpected_character_is_an_error() {
    assert_eq!(
        parse_template_and_values("points at 3"),
        Err(String::from("Unexpected '3' in template at position: 10"))
    );
    assert_eq!(
        parse_template_and_values("é"),
        Err(String::from("Unexpected 'é' in template at position: 0"))
    );
}

#[test]
fn invalid_json_is_an_error() {
    let e = serde_json::from_str::<Value>("nope").unwrap_err().to_string();
    assert_eq!(
        parse_template_and_values("The cat (nope) sits"),
        Err(format!("Error parsing template's JSON (8, 13): {}", e))
    );
}

#[test]
fn json_place_of_parsed_value_and_error() {
    assert_eq!(json_place(Ok(Value::from(3)), 1, 4), Ok(Pin(Value::from(3))));
    assert_eq!(
        json_place(Err(String::from("bad")), 12, 107),
        Err(String::from("Error parsing template's JSON (12, 107): bad"))
    );
}

#[test]
fn later_positions_use_all_digits() {
    let t = "abcdefghijklmnopqrstuvwxyz abcdefghijklmnopqrstuvwxyz abcdefghijklmnopqrstuvwxyz abcdefghijklmnopqrstuvwx)";
    assert_eq!(
        parse_template_and_values(t),
        Err(String::from("Unexpected ')' in template at position: 105"))
    );
}

#[test]
fn checked_parse_refuses_cuts_inside_a_character() {
    assert_eq!(parse_template_checked("\"\u{e9}\""), None);
    assert_eq!(parse_template_checked("/\u{e9}/"), None);
    assert_eq!(
        parse_template_checked("/page/ points (\"up\")"),
        Some(Ok(TemplateAndPlaces::new("_ points _", vec![Capture(String::from("page")), Pin(Value::from("up"))])))
    );
}

#[test]
fn checked_parse_cuts_by_byte_positions() {
    // the cut runs from byte 1 to byte 4, that is `"\u{e9}`, which is not JSON
    let e = serde_json::from_str::<Value>("\"\u{e9}").unwrap_err().to_string();
    assert_eq!(
        parse_template_checked("(\"\u{e9}\")"),
        Some(Err(format!("Error parsing template's JSON (0, 4): {}", e)))
    );
}

#[test]
fn quoted_and_parenthesised_pins_agree() {
    let a = parse_template_and_values(r#"points "up and away" at"#).unwrap();
    let b = parse_template_and_values(r#"points ("up and away") at"#).unwrap();
    assert_eq!(a, b);
    assert_eq!(a, TemplateAndPlaces::new("points _ at", vec![Pin(Value::from("up and away"))]));
}

#[test]
fn concatenated_templates_parse_to_concatenated_parts() {
    let a = r#"/page/ points ("up") at "#;
    let b = r#"/target/ and _ is "x""#;
    let pa = parse_template_and_values(a).unwrap();
    let pb = parse_template_and_values(b).unwrap();
    let pab = parse_template_and_values(&format!("{}{}", a, b)).unwrap();
    let mut places: Vec<_> = Vec::new();
    for p in pa.places().iter().chain(pb.places().iter()) {
        places.push(match p {
            Any => Any,
            Pin(v) => Pin(v.clone()),
            Capture(n) => Capture(n.clone()),
        });
    }
    assert_eq!(pab, TemplateAndPlaces::new(&format!("{}{}", pa.template(), pb.template()), places));
    // an error in the first part is the error of both
    assert_eq!(parse_template_and_values("a ) b").unwrap_err(), parse_template_and_values("a ) b (1)").unwrap_err());
    // an error in the second part makes both fail
    assert!(parse_template_and_values("a b (1 (2))").is_err());
}
