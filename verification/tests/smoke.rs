use talk_protocol::macros::{add_one, TokenStream};
use talk_protocol::rtvm::RTVM;
use talk_protocol::value::text;

fn stream(tokens: &[&str]) -> TokenStream {
    TokenStream::new(tokens.iter().map(|t| String::from(*t)).collect())
}

#[test]
fn rt_works() {
    let _db = RTVM::default();
    let _you = text("page 103");

    // when!((
    //     /page/ blahblahblah,
    //     /page/ points "up" at /target/,
    //     time is /t/,
    //     /left/ points "right" at (you),
    //     the temperature is greater than 15.9 "c",
    // ) { ... })
    let input = stream(&[
        "(",
        "/", "page", "/", "blahblahblah", ",",
        "/", "page", "/", "points", "\"up\"", "at", "/", "target", "/", ",",
        "time", "is", "/", "t", "/", ",",
        "/", "left", "/", "points", "\"right\"", "at", "(", "you", ")", ",",
        "the", "temperature", "is", "greater", "than", "15.9", "\"c\"", ",",
        ")",
        "{", "}",
    ]);
    let expansion = talk_protocol::query::when(&input);
    let tokens = expansion.tokens();
    assert_eq!(tokens[0], "{");
    assert_eq!(tokens[1], "let");
    assert_eq!(tokens[2], "_rtdb");
    let bound: Vec<&str> = tokens
        .windows(2)
        .filter(|p| p[0] == "let" && p[1] != "_rtdb" && p[1] != "mut")
        .map(|p| p[1].as_str())
        .collect();
    assert_eq!(bound, vec!["page", "target", "t", "left"]);

    let sum = add_one(stream(&["3", "+", "4"]));
    assert_eq!(sum.tokens(), &vec!["1", "+", "(", "3", "+", "4", ")"]);
    println!("{:?}", text(&format!("hello {}", 1 + (3 + 4))).to_string());
}
