use talk_protocol::macros::TokenStream;
use talk_protocol::query::{
    capture_positions, classify_tokens, error_message, expand, join, parse_statements, Query, QueryError,
    QueryPlaceholder, QueryStatement, StatementError, StatementToken,
};

fn err_of<T, E>(r: Result<T, E>) -> E {
    match r {
        Err(e) => e,
        Ok(_) => panic!("expected an error"),
    }
}

fn word(w: &str) -> StatementToken {
    StatementToken::Word(String::from(w))
}

fn pinned(e: &str) -> StatementToken {
    StatementToken::Pinned(String::from(e))
}

fn names(places: &Vec<QueryPlaceholder>) -> Vec<String> {
    places
        .iter()
        .map(|p| match p {
            QueryPlaceholder::Pos(n) => format!("Pos({})", n),
            QueryPlaceholder::Pin(e) => format!("Pin({})", e),
        })
        .collect()
}

#[test]
fn statement_with_captures_and_pins() {
    // /page/ points "up" at /target/
    let toks = vec![
        StatementToken::Slash,
        word("page"),
        StatementToken::Slash,
        word("points"),
        pinned("\"up\""),
        word("at"),
        StatementToken::Slash,
        word("target"),
        StatementToken::Slash,
    ];
    let (st, end) = QueryStatement::parse(&toks, 0).unwrap();
    assert_eq!(st.relation, "_ points _ at _");
    assert_eq!(names(&st.places), vec!["Pos(page)", "Pin(\"up\")", "Pos(target)"]);
    assert_eq!(end, 9);
}

#[test]
fn statement_stops_at_comma() {
    let toks = vec![word("time"), word("is"), StatementToken::Slash, word("t"), StatementToken::Slash, StatementToken::Comma, word("x")];
    let (st, end) = QueryStatement::parse(&toks, 0).unwrap();
    assert_eq!(st.relation, "time is _");
    assert_eq!(end, 5);
}

#[test]
fn statement_errors() {
    assert_eq!(
        err_of(QueryStatement::parse(&vec![StatementToken::Slash, pinned("1")], 0)),
        StatementError::ExpectedCaptureName
    );
    assert_eq!(
        err_of(QueryStatement::parse(&vec![StatementToken::Slash, word("a"), word("b")], 0)),
        StatementError::ExpectedCaptureEnd
    );
    assert_eq!(
        err_of(QueryStatement::parse(&vec![StatementToken::Slash, word("a")], 0)),
        StatementError::ExpectedCaptureEnd
    );
    assert_eq!(
        err_of(QueryStatement::parse(&vec![word("a"), StatementToken::Other(String::from(";"))], 0)),
        StatementError::UnexpectedToken
    );
    assert_eq!(
        err_of(QueryStatement::parse(&vec![word("a"), StatementToken::BadPin(String::from("m"))], 0)),
        StatementError::ExpectedExpression
    );
}

#[test]
fn capture_positions_number_each_name_once() {
    let st1 = QueryStatement {
        relation: String::from("_ is _"),
        places: vec![QueryPlaceholder::Pos(String::from("b")), QueryPlaceholder::Pin(String::from("1")), QueryPlaceholder::Pos(String::from("a"))],
    };
    let st2 = QueryStatement {
        relation: String::from("_ sees _"),
        places: vec![QueryPlaceholder::Pos(String::from("a")), QueryPlaceholder::Pos(String::from("c")), QueryPlaceholder::Pos(String::from("b"))],
    };
    assert_eq!(capture_positions(&vec![st1, st2]), vec!["b", "a", "c"]);
    assert_eq!(capture_positions(&vec![]), Vec::<String>::new());
}

#[test]
fn join_uses_single_spaces() {
    assert_eq!(join(&vec![String::from("a"), String::from("_"), String::from("b")]), "a _ b");
    assert_eq!(join(&vec![]), "");
    assert_eq!(join(&vec![String::from("one")]), "one");
}

fn stream(tokens: &[&str]) -> TokenStream {
    TokenStream::new(tokens.iter().map(|t| String::from(*t)).collect())
}

fn show(t: &StatementToken) -> String {
    match t {
        StatementToken::Word(w) => format!("Word({})", w),
        StatementToken::Slash => String::from("Slash"),
        StatementToken::Pinned(e) => format!("Pinned({})", e),
        StatementToken::Comma => String::from("Comma"),
        StatementToken::Other(o) => format!("Other({})", o),
        StatementToken::BadPin(m) => format!("BadPin({})", m),
    }
}

fn classified(tokens: &[&str]) -> Vec<String> {
    let v: Vec<String> = tokens.iter().map(|t| String::from(*t)).collect();
    classify_tokens(&v).iter().map(show).collect()
}

fn literal_of(msg: &str) -> String {
    proc_macro2::Literal::string(msg).to_string()
}

fn expr_error(text: &str) -> String {
    syn::parse_str::<syn::Expr>(text).err().expect("not an expression").to_string()
}

fn compile_error_of(msg: &str) -> Vec<String> {
    vec!["::", "core", "::", "compile_error", "!", "{", literal_of(msg).as_str(), "}"]
        .into_iter()
        .map(String::from)
        .collect()
}

#[test]
fn statements_read_comma_separated() {
    // /page/ blahblahblah, /page/ points "up" at /target/, time is /t/,
    let content = vec![
        StatementToken::Slash,
        word("page"),
        StatementToken::Slash,
        word("blahblahblah"),
        StatementToken::Comma,
        StatementToken::Slash,
        word("page"),
        StatementToken::Slash,
        word("points"),
        pinned("\"up\""),
        word("at"),
        StatementToken::Slash,
        word("target"),
        StatementToken::Slash,
        StatementToken::Comma,
        word("time"),
        word("is"),
        StatementToken::Slash,
        word("t"),
        StatementToken::Slash,
        StatementToken::Comma,
    ];
    let sts = parse_statements(&content).unwrap();
    let relations: Vec<&str> = sts.iter().map(|s| s.relation.as_str()).collect();
    assert_eq!(relations, vec!["_ blahblahblah", "_ points _ at _", "time is _"]);
    assert_eq!(capture_positions(&sts), vec!["page", "target", "t"]);
}

#[test]
fn statements_with_empty_statement_and_error() {
    let sts = parse_statements(&vec![word("a"), StatementToken::Comma, StatementToken::Comma, word("b")]).unwrap();
    let relations: Vec<&str> = sts.iter().map(|s| s.relation.as_str()).collect();
    assert_eq!(relations, vec!["a", "", "b"]);
    let e = err_of(parse_statements(&vec![word("a"), StatementToken::Comma, StatementToken::Slash]));
    assert_eq!(e, StatementError::MissingCaptureName);
    let e = err_of(parse_statements(&vec![word("a"), StatementToken::BadPin(String::from("m"))]));
    assert_eq!(e, StatementError::ExpectedExpression);
    assert_eq!(parse_statements(&vec![]).unwrap().len(), 0);
}

#[test]
fn classify_tells_words_from_keywords_and_punctuation() {
    assert_eq!(
        classified(&["page", "in", "_", "/", ",", "+", "r#x", "Self", "'a", "true"]),
        vec![
            "Word(page)", "Other(in)", "Other(_)", "Slash", "Comma", "Other(+)", "Word(r#x)",
            "Other(Self)", "Other('a)", "Pinned(true)",
        ]
    );
}

#[test]
fn classify_pins_take_whole_expressions() {
    assert_eq!(classified(&["points", "\"up\"", "at"]), vec!["Word(points)", "Pinned(\"up\")", "Word(at)"]);
    assert_eq!(classified(&["15.9", "\"c\""]), vec!["Pinned(15.9)", "Pinned(\"c\")"]);
    assert_eq!(classified(&["(", "you", ")", ","]), vec!["Pinned(( you ))", "Comma"]);
    assert_eq!(classified(&["1", "+", "2", ",", "x"]), vec!["Pinned(1 + 2)", "Comma", "Word(x)"]);
    assert_eq!(classified(&["-", "5", "is"]), vec!["Pinned(- 5)", "Word(is)"]);
    assert_eq!(classified(&["'x'", "b\"y\""]), vec!["Pinned('x')", "Pinned(b\"y\")"]);
    assert_eq!(classified(&["-", "x"]), vec!["Other(-)", "Word(x)"]);
}

#[test]
fn classify_stops_at_a_pin_that_is_no_expression() {
    assert_eq!(
        classified(&["a", "(", "b", "c", ")", "x"]),
        vec![String::from("Word(a)"), format!("BadPin({})", expr_error("( b c ) x"))]
    );
    assert_eq!(classified(&[]), Vec::<String>::new());
}

#[test]
fn query_parse_reads_group_and_body() {
    let input = stream(&[
        "(", "/", "page", "/", "blahblahblah", ",", "time", "is", "/", "t", "/", ",", ")",
        "{", "go", "}",
    ]);
    let q = Query::parse(&input).unwrap();
    let relations: Vec<&str> = q.statements.iter().map(|s| s.relation.as_str()).collect();
    assert_eq!(relations, vec!["_ blahblahblah", "time is _"]);
    assert_eq!(q.body.tokens(), &vec!["{", "go", "}"]);
    assert_eq!(capture_positions(&q.statements), vec!["page", "t"]);
    let nested = Query::parse(&stream(&["(", "x", "(", "[", "1", "]", ")", ")", "y"])).unwrap();
    assert_eq!(nested.statements[0].relation, "x _");
    assert_eq!(nested.body.tokens(), &vec!["y"]);
}

#[test]
fn query_parse_refuses_what_holds_no_query() {
    assert_eq!(err_of(Query::parse(&stream(&[]))), QueryError::Empty);
    assert_eq!(err_of(Query::parse(&stream(&["x", "{", "}"]))), QueryError::ExpectedParentheses);
    assert_eq!(err_of(Query::parse(&stream(&["[", "a", "]", "{", "}"]))), QueryError::ExpectedParentheses);
    assert_eq!(err_of(Query::parse(&stream(&["(", "a", "{", "}"]))), QueryError::ExpectedParentheses);
    assert_eq!(
        err_of(Query::parse(&stream(&["(", "a", ";", ")", "{", "}"]))),
        QueryError::Statement(StatementError::UnexpectedToken)
    );
    assert_eq!(
        err_of(Query::parse(&stream(&["(", "a", ")"]))),
        QueryError::Body(expr_error(""))
    );
    assert_eq!(
        err_of(Query::parse(&stream(&["(", "a", "(", "1", "2", ")", ")", "{", "}"]))),
        QueryError::Pin(expr_error("( 1 2 )"))
    );
    assert_eq!(
        err_of(Query::parse(&stream(&["(", "a", "-", "1", "+", ")", "{", "}"]))),
        QueryError::Statement(StatementError::UnexpectedToken)
    );
    assert_eq!(
        err_of(Query::parse(&stream(&["(", "a", ")", "{", "}", "x"]))),
        QueryError::Body(expr_error("{ } x"))
    );
    assert_eq!(
        err_of(Query::parse(&stream(&["(", "a", ")", "let"]))),
        QueryError::Body(expr_error("let"))
    );
}

#[test]
fn when_binds_captured_names_in_order() {
    // when!((/page/ blahblahblah, /page/ points "up" at /target/) { go })
    let input = stream(&[
        "(", "/", "page", "/", "blahblahblah", ",", "/", "page", "/", "points", "\"up\"", "at",
        "/", "target", "/", ")", "{", "go", "}",
    ]);
    let out = talk_protocol::query::when(&input);
    let expected: Vec<&str> = vec![
        "{", "let", "_rtdb", ":", "::", "imagine", "::", "RTVM", "=", "db", ";",
        "let", "mut", "__result", "=", "vec", "!", "[", "\"0\"", ",", "\"1\"", ",", "\"2\"", ",",
        "\"3\"", ",", "\"4\"", ",", "\"5\"", "]", ";",
        "let", "page", "=", "__result", ".", "remove", "(", "0", ")", ";",
        "let", "target", "=", "__result", ".", "remove", "(", "0", ")", ";",
        "{", "go", "}", "}",
    ];
    assert_eq!(out.tokens(), &expected);
}

#[test]
fn when_reports_errors_as_compile_errors() {
    let out = talk_protocol::query::when(&stream(&["{", "}"]));
    assert_eq!(out.tokens(), &compile_error_of("expected parentheses"));
    let out = talk_protocol::query::when(&stream(&[]));
    assert_eq!(out.tokens(), &compile_error_of("unexpected end of input, expected parentheses"));
    let out = talk_protocol::query::when(&stream(&["(", "a", "/", ")", "{", "}"]));
    assert_eq!(out.tokens(), &compile_error_of("unexpected end of input, expected identifier"));
    let out = talk_protocol::query::when(&stream(&["(", "+", ")", "{", "}"]));
    assert_eq!(
        out.tokens(),
        &compile_error_of("expected one of: identifier, `/`, parentheses, literal, `,`")
    );
    let out = talk_protocol::query::when(&stream(&["(", "/", "1", ")", "{", "}"]));
    assert_eq!(out.tokens(), &compile_error_of("expected identifier"));
    let out = talk_protocol::query::when(&stream(&["(", "/", "a", "b", ")", "{", "}"]));
    assert_eq!(out.tokens(), &compile_error_of("expected `/`"));
    let out = talk_protocol::query::when(&stream(&["(", "x", "(", "a", "b", ")", ")", "{", "}"]));
    assert_eq!(out.tokens(), &compile_error_of(&expr_error("( a b )")));
    let out = talk_protocol::query::when(&stream(&["(", "/", "a", "/", ")"]));
    assert_eq!(out.tokens(), &compile_error_of(&expr_error("")));
}

#[test]
fn expand_uses_the_read_query() {
    let q = Query {
        statements: vec![QueryStatement {
            relation: String::from("_ is _"),
            places: vec![QueryPlaceholder::Pos(String::from("x")), QueryPlaceholder::Pos(String::from("x"))],
        }],
        body: stream(&["x"]),
    };
    let out = expand(&q);
    let tail: Vec<&str> = out.tokens()[31..].iter().map(|t| t.as_str()).collect();
    assert_eq!(tail, vec!["let", "x", "=", "__result", ".", "remove", "(", "0", ")", ";", "x", "}"]);
}

#[test]
fn error_messages() {
    assert_eq!(error_message(&QueryError::ExpectedParentheses), "expected parentheses");
    assert_eq!(error_message(&QueryError::Statement(StatementError::ExpectedCaptureEnd)), "expected `/`");
    assert_eq!(error_message(&QueryError::Body(String::from("m"))), "m");
    assert_eq!(error_message(&QueryError::Pin(String::from("p"))), "p");
    assert_eq!(error_message(&QueryError::Empty), "unexpected end of input, expected parentheses");
    assert_eq!(
        error_message(&QueryError::Statement(StatementError::ExpectedExpression)),
        "expected an expression"
    );
}

#[test]
fn placeholder_debug_strings() {
    assert_eq!(QueryPlaceholder::Pos(String::from("page")).debug_string(), "Pos(page)");
    assert_eq!(QueryPlaceholder::Pin(String::from("15.9")).debug_string(), "Pin(...)");
}

#[test]
fn statement_and_query_debug_strings() {
    let st = QueryStatement {
        relation: String::from("_ points _"),
        places: vec![QueryPlaceholder::Pos(String::from("page")), QueryPlaceholder::Pin(String::from("\"up\""))],
    };
    assert_eq!(
        st.debug_string(),
        "QueryStatement { relation: \"_ points _\", places: [Pos(page), Pin(...)] }"
    );
    let q = Query { statements: vec![st, QueryStatement { relation: String::from("time"), places: vec![] }], body: TokenStream::new(vec![]) };
    assert_eq!(
        q.debug_string(),
        "Query { stmts: [QueryStatement { relation: \"_ points _\", places: [Pos(page), Pin(...)] }, QueryStatement { relation: \"time\", places: [] }, ], body: ... }"
    );
    let empty = Query { statements: vec![], body: TokenStream::new(vec![]) };
    assert_eq!(empty.debug_string(), "Query { stmts: [], body: ... }");
}
