use talk_protocol::macros::{add_one, hello, m, rt, TokenStream};

fn stream(tokens: &[&str]) -> TokenStream {
    TokenStream::new(tokens.iter().map(|t| String::from(*t)).collect())
}

#[test]
fn hello_hands_the_item_back() {
    let out = hello(stream(&["x"]), stream(&["fn", "f", "(", ")", "{", "}"]));
    assert_eq!(out.tokens(), &vec!["fn", "f", "(", ")", "{", "}"]);
}

#[test]
fn rt_expands_to_a_let() {
    let out = rt(stream(&["anything"]));
    assert_eq!(out.tokens(), &vec!["let", "a", "=", "1", ";"]);
}

#[test]
fn m_replaces_the_item() {
    let out = m(stream(&[]), stream(&["struct", "S", ";"]));
    assert_eq!(
        out.tokens(),
        &vec!["fn", "hello", "(", ")", "{", "println", "!", "(", "\"quote\"", ")", ";", "}"]
    );
}

#[test]
fn add_one_wraps_the_expression() {
    let out = add_one(stream(&["3", "+", "4"]));
    assert_eq!(out.tokens(), &vec!["1", "+", "(", "3", "+", "4", ")"]);
}

#[test]
fn add_one_refuses_what_is_not_an_expression() {
    let msg = syn::parse_str::<syn::Expr>("+ +").err().expect("not an expression").to_string();
    let lit = proc_macro2::Literal::string(&msg).to_string();
    let out = add_one(stream(&["+", "+"]));
    assert_eq!(out.tokens(), &vec!["::", "core", "::", "compile_error", "!", "{", lit.as_str(), "}"]);
    let out = add_one(stream(&[]));
    assert_eq!(out.tokens()[3], "compile_error");
}

#[test]
fn add_one_takes_paths_and_calls() {
    let out = add_one(stream(&["a", "::", "b", "(", "x", ")"]));
    assert_eq!(out.tokens(), &vec!["1", "+", "(", "a", "::", "b", "(", "x", ")", ")"]);
}
