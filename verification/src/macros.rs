//! Macro expansions, over token streams written as the texts of their tokens
//! (a delimited group contributes its opening delimiter, its tokens and its
//! closing delimiter; punctuation is written as the lexer reads it, so `::` is
//! one token).

use vstd::prelude::*;

use crate::query::{join, join_words};

verus! {

/// A stream of tokens, each by its source text.
#[derive(Debug)]
pub struct TokenStream {
    tokens: Vec<String>,
}

pub open spec fn texts(v: Seq<String>) -> Seq<Seq<char>> {
    v.map_values(|t: String| t@)
}

impl TokenStream {
    /// The token texts, in order.
    pub closed spec fn tokens_view(&self) -> Seq<Seq<char>> {
        texts(self.tokens@)
    }

    pub fn new(tokens: Vec<String>) -> (r: TokenStream)
        ensures
            r.tokens_view() == texts(tokens@),
    {
        TokenStream { tokens }
    }

    pub fn tokens(&self) -> (r: &Vec<String>)
        ensures
            texts(r@) == self.tokens_view(),
    {
        &self.tokens
    }
}

pub fn token(t: &str) -> (r: String)
    ensures
        r@ == t@,
{
    String::from_str(t)
}

/// Appends the tokens `more` to `out`.
pub fn extend_tokens(out: &mut Vec<String>, more: &Vec<String>)
    ensures
        texts(final(out)@) == texts(old(out)@) + texts(more@),
{
    let ghost start = texts(out@);
    let mut i: usize = 0;
    while i < more.len()
        invariant
            i <= more.len(),
            texts(out@) == start + texts(more@).take(i as int),
        decreases more.len() - i,
    {
        let ghost before = texts(out@);
        out.push(more[i].clone());
        assert(texts(out@) =~= before.push(more@[i as int]@));
        assert(texts(more@).take(i + 1) =~= texts(more@).take(i as int).push(more@[i as int]@));
        i = i + 1;
    }
    assert(texts(more@).take(more.len() as int) =~= texts(more@));
}

/// The attribute that hands its item back as it is.
pub fn hello(attr: TokenStream, item: TokenStream) -> (r: TokenStream)
    ensures
        r.tokens_view() == item.tokens_view(),
{
    item
}

/// The expansion `let a = 1;`, whatever the input.
pub fn rt(item: TokenStream) -> (r: TokenStream)
    ensures
        r.tokens_view() == seq!["let"@, "a"@, "="@, "1"@, ";"@],
{
    let tokens = vec![token("let"), token("a"), token("="), token("1"), token(";")];
    assert(texts(tokens@) =~= seq!["let"@, "a"@, "="@, "1"@, ";"@]);
    TokenStream { tokens }
}

/// The attribute that replaces its item by `fn hello() { println!("quote"); }`.
pub fn m(attr: TokenStream, item: TokenStream) -> (r: TokenStream)
    ensures
        r.tokens_view() == seq![
            "fn"@,
            "hello"@,
            "("@,
            ")"@,
            "{"@,
            "println"@,
            "!"@,
            "("@,
            "\"quote\""@,
            ")"@,
            ";"@,
            "}"@,
        ],
{
    let tokens = vec![
        token("fn"),
        token("hello"),
        token("("),
        token(")"),
        token("{"),
        token("println"),
        token("!"),
        token("("),
        token("\"quote\""),
        token(")"),
        token(";"),
        token("}"),
    ];
    assert(texts(tokens@) =~= seq![
        "fn"@,
        "hello"@,
        "("@,
        ")"@,
        "{"@,
        "println"@,
        "!"@,
        "("@,
        "\"quote\""@,
        ")"@,
        ";"@,
        "}"@,
    ]);
    TokenStream { tokens }
}

/// Why `syn::parse_str::<syn::Expr>` refuses a text, if it does: its error's
/// message. The text is lexed by proc-macro2's own lexer, as it is outside a
/// procedural macro (inside one, proc-macro2 hands lexing to the compiler); this
/// library never runs inside one, so the result is a function of the text.
pub uninterp spec fn expr_parse_error_of(text: Seq<char>) -> Option<Seq<char>>;

/// Parses `text` as one Rust expression with `syn::parse_str::<syn::Expr>` and
/// gives the error's message (its `Display`) where that fails. Which texts are
/// expressions, and the message, are left to the name `expr_parse_error_of`.
#[verifier::external_body]
pub(crate) fn expr_parse_error(text: &str) -> (r: Option<String>)
    ensures
        match r {
            Some(m) => expr_parse_error_of(text@) == Some(m@),
            None => expr_parse_error_of(text@) is None,
        },
{
    syn::parse_str::<syn::Expr>(text).err().map(|e| e.to_string())
}

/// The text of the string literal that `proc_macro2::Literal::string` makes of
/// a message, as proc-macro2 writes it outside a procedural macro (inside one it
/// hands the literal to the compiler); this library never runs inside one, so
/// the text is a function of the message.
pub uninterp spec fn string_literal_text(msg: Seq<char>) -> Seq<char>;

/// Makes a string literal token of `msg` with `proc_macro2::Literal::string` and
/// writes it out (`to_string`); the text is named by `string_literal_text`.
#[verifier::external_body]
pub(crate) fn string_literal(msg: &str) -> (r: String)
    ensures
        r@ == string_literal_text(msg@),
{
    proc_macro2::Literal::string(msg).to_string()
}

/// The tokens of a stream written out as source text, one space between tokens.
pub open spec fn source_text(tokens: Seq<Seq<char>>) -> Seq<char> {
    join_words(tokens)
}

/// The expansion `1 + (expr)`.
pub open spec fn add_one_tokens(expr: Seq<Seq<char>>) -> Seq<Seq<char>> {
    seq!["1"@, "+"@, "("@] + expr + seq![")"@]
}

/// The compile error `::core::compile_error! { "message" }`, with the message as
/// the string literal whose text is `literal`.
pub open spec fn compile_error_tokens(literal: Seq<char>) -> Seq<Seq<char>> {
    seq!["::"@, "core"@, "::"@, "compile_error"@, "!"@, "{"@, literal, "}"@]
}

/// The compile error whose message is the string literal `literal`.
pub fn error_stream(literal: String) -> (r: TokenStream)
    ensures
        r.tokens_view() == compile_error_tokens(literal@),
{
    let tokens = vec![
        token("::"),
        token("core"),
        token("::"),
        token("compile_error"),
        token("!"),
        token("{"),
        literal,
        token("}"),
    ];
    assert(texts(tokens@) =~= compile_error_tokens(literal@));
    TokenStream { tokens }
}

/// What `add_one` gives once it knows whether its input is an expression: the
/// expression plus one, or the compile error whose message literal has the text
/// `error_literal`.
pub fn add_one_expansion(expr: TokenStream, error_literal: Option<String>) -> (r: TokenStream)
    ensures
        match error_literal {
            None => r.tokens_view() == add_one_tokens(expr.tokens_view()),
            Some(lit) => r.tokens_view() == compile_error_tokens(lit@),
        },
{
    match error_literal {
        Some(lit) => error_stream(lit),
        None => {
            let mut tokens = vec![token("1"), token("+"), token("(")];
            let ghost start = texts(tokens@);
            extend_tokens(&mut tokens, &expr.tokens);
            let ghost mid = texts(tokens@);
            tokens.push(token(")"));
            assert(texts(tokens@) =~= mid.push(")"@));
            assert(start =~= seq!["1"@, "+"@, "("@]);
            assert(texts(tokens@) =~= add_one_tokens(expr.tokens_view()));
            TokenStream { tokens }
        },
    }
}

/// Adds one to an expression: `1 + (expr)` where the input reads as one Rust
/// expression, and otherwise the compile error that reports why it does not.
pub fn add_one(expr: TokenStream) -> (r: TokenStream)
    ensures
        match expr_parse_error_of(source_text(expr.tokens_view())) {
            None => r.tokens_view() == add_one_tokens(expr.tokens_view()),
            Some(msg) => r.tokens_view() == compile_error_tokens(string_literal_text(msg)),
        },
{
    let text = join(&expr.tokens);
    match expr_parse_error(text.as_str()) {
        None => add_one_expansion(expr, None),
        Some(msg) => {
            let lit = string_literal(msg.as_str());
            add_one_expansion(expr, Some(lit))
        },
    }
}

} // verus!
