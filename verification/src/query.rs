//! Queries of the `when` form, `( statements ) body`: inside the parentheses,
//! statements made of words, captures `/name/` and pinned expressions, separated
//! by commas; after them, one expression, the body. A statement's relation is its
//! words with `_` for every capture and pin, joined by single spaces. Captured
//! names are numbered in the order they first appear.

use vstd::prelude::*;

use crate::lexicon::{
    group_close, group_end, is_literal, is_literal_text, is_number, is_number_text, is_word,
    is_word_text,
};
use crate::macros::{
    error_stream, compile_error_tokens, expr_parse_error, expr_parse_error_of, extend_tokens,
    source_text, string_literal, string_literal_text, texts, token, TokenStream,
};
use crate::strings::str_eq;

verus! {

/// A token of a query, as the statement grammar tells them apart.
pub enum StatementToken {
    /// An identifier that is not a keyword.
    Word(String),
    /// The punctuation `/`.
    Slash,
    /// An expression that starts with a parenthesized group, a literal (`true`
    /// and `false` included) or `-` before a number, by the texts of its tokens
    /// joined by single spaces.
    Pinned(String),
    /// The punctuation `,`.
    Comma,
    /// Any other token, by its source text.
    Other(String),
    /// A token that may begin a pinned expression, where no expression
    /// begins: the parser's message for the tokens from there on.
    BadPin(String),
}

/// A token as the contracts see it.
pub enum TokenModel {
    Word(Seq<char>),
    Slash,
    Pinned(Seq<char>),
    Comma,
    Other(Seq<char>),
    BadPin(Seq<char>),
}

impl View for StatementToken {
    type V = TokenModel;

    open spec fn view(&self) -> TokenModel {
        match self {
            StatementToken::Word(w) => TokenModel::Word(w@),
            StatementToken::Slash => TokenModel::Slash,
            StatementToken::Pinned(e) => TokenModel::Pinned(e@),
            StatementToken::Comma => TokenModel::Comma,
            StatementToken::Other(t) => TokenModel::Other(t@),
            StatementToken::BadPin(m) => TokenModel::BadPin(m@),
        }
    }
}

pub open spec fn tokens_model(toks: Seq<StatementToken>) -> Seq<TokenModel> {
    toks.map_values(|t: StatementToken| t@)
}

/// A place of a query statement: a captured name, or a pinned expression.
pub enum QueryPlaceholder {
    Pos(String),
    Pin(String),
}

/// A placeholder as the contracts see it.
pub enum PlaceholderModel {
    Pos(Seq<char>),
    Pin(Seq<char>),
}

impl View for QueryPlaceholder {
    type V = PlaceholderModel;

    open spec fn view(&self) -> PlaceholderModel {
        match self {
            QueryPlaceholder::Pos(n) => PlaceholderModel::Pos(n@),
            QueryPlaceholder::Pin(e) => PlaceholderModel::Pin(e@),
        }
    }
}

pub open spec fn placeholders_model(ps: Seq<QueryPlaceholder>) -> Seq<PlaceholderModel> {
    ps.map_values(|p: QueryPlaceholder| p@)
}

/// One statement of a query: its relation template and its places.
pub struct QueryStatement {
    pub relation: String,
    pub places: Vec<QueryPlaceholder>,
}

/// Why a statement could not be read.
#[derive(Debug, PartialEq, Eq, Structural)]
pub enum StatementError {
    /// A `/` followed by a token that is not an identifier.
    ExpectedCaptureName,
    /// A `/` that ends the statements.
    MissingCaptureName,
    /// A captured identifier that is not followed by `/`.
    ExpectedCaptureEnd,
    /// A token that no statement may hold.
    UnexpectedToken,
    /// A literal or parenthesized group that begins no expression.
    ExpectedExpression,
}

/// Words joined by single spaces.
pub open spec fn join_words(words: Seq<Seq<char>>) -> Seq<char>
    decreases words.len(),
{
    if words.len() == 0 {
        Seq::empty()
    } else if words.len() == 1 {
        words[0]
    } else {
        join_words(words.drop_last()) + " "@ + words.last()
    }
}

/// How reading a statement from token `i` on ends: the words and places read,
/// and the position of the `,` or end that stopped it; or an error.
pub open spec fn read_statement(
    toks: Seq<TokenModel>,
    i: int,
    words: Seq<Seq<char>>,
    places: Seq<PlaceholderModel>,
) -> Result<(Seq<Seq<char>>, Seq<PlaceholderModel>, int), StatementError>
    decreases toks.len() - i,
{
    if i < 0 || i >= toks.len() {
        Ok((words, places, i))
    } else {
        match toks[i] {
            TokenModel::Word(w) => read_statement(toks, i + 1, words.push(w), places),
            TokenModel::Slash => {
                if i + 1 < toks.len() && toks[i + 1] is Word {
                    if i + 2 < toks.len() && toks[i + 2] is Slash {
                        read_statement(
                            toks,
                            i + 3,
                            words.push("_"@),
                            places.push(PlaceholderModel::Pos(toks[i + 1]->Word_0)),
                        )
                    } else {
                        Err(StatementError::ExpectedCaptureEnd)
                    }
                } else if i + 1 < toks.len() {
                    Err(StatementError::ExpectedCaptureName)
                } else {
                    Err(StatementError::MissingCaptureName)
                }
            },
            TokenModel::Pinned(e) => read_statement(
                toks,
                i + 1,
                words.push("_"@),
                places.push(PlaceholderModel::Pin(e)),
            ),
            TokenModel::Comma => Ok((words, places, i)),
            TokenModel::Other(_) => Err(StatementError::UnexpectedToken),
            TokenModel::BadPin(_) => Err(StatementError::ExpectedExpression),
        }
    }
}

fn underscore() -> (r: String)
    ensures
        r@ == "_"@,
{
    String::from_str("_")
}

/// Words joined by single spaces.
pub fn join(words: &Vec<String>) -> (r: String)
    ensures
        r@ == join_words(words@.map_values(|w: String| w@)),
{
    let ghost ws = words@.map_values(|w: String| w@);
    let mut r = String::new();
    let mut i: usize = 0;
    while i < words.len()
        invariant
            i <= words.len(),
            ws == words@.map_values(|w: String| w@),
            r@ == join_words(ws.take(i as int)),
        decreases words.len() - i,
    {
        if i > 0 {
            r.append(" ");
        }
        r.append(words[i].as_str());
        assert(ws.take(i + 1).drop_last() =~= ws.take(i as int));
        i = i + 1;
    }
    assert(ws.take(words.len() as int) =~= ws);
    r
}

impl QueryStatement {
    /// Reads one statement from `toks`, starting at `start`: identifiers are
    /// words, `/name/` captures `name` and a pinned expression pins it; both stand
    /// as `_` in the relation. Reading stops before a `,` or at the end, and gives
    /// the statement with the position where it stopped.
    pub fn parse(toks: &Vec<StatementToken>, start: usize) -> (r: Result<
        (QueryStatement, usize),
        StatementError,
    >)
        ensures
            match read_statement(tokens_model(toks@), start as int, Seq::empty(), Seq::empty()) {
                Ok((words, places, end)) => r matches Ok((st, e)) && st.relation@ == join_words(
                    words,
                ) && placeholders_model(st.places@) == places && e == end,
                Err(err) => r == Err::<(QueryStatement, usize), StatementError>(err),
            },
    {
        let ghost tm = tokens_model(toks@);
        let mut words: Vec<String> = Vec::new();
        let mut places: Vec<QueryPlaceholder> = Vec::new();
        let mut i = start;
        let n = toks.len();
        assert(words@.map_values(|w: String| w@) =~= Seq::<Seq<char>>::empty());
        assert(placeholders_model(places@) =~= Seq::<PlaceholderModel>::empty());
        while i < n
            invariant
                n == toks.len(),
                tm == tokens_model(toks@),
                read_statement(tm, start as int, Seq::empty(), Seq::empty()) == read_statement(
                    tm,
                    i as int,
                    words@.map_values(|w: String| w@),
                    placeholders_model(places@),
                ),
            ensures
                i >= n || tm[i as int] is Comma,
                read_statement(tm, start as int, Seq::empty(), Seq::empty()) == read_statement(
                    tm,
                    i as int,
                    words@.map_values(|w: String| w@),
                    placeholders_model(places@),
                ),
            decreases n - i,
        {
            let ghost wm = words@.map_values(|w: String| w@);
            let ghost pm = placeholders_model(places@);
            assert(tm[i as int] == toks@[i as int]@);
            assert(i + 1 < n ==> tm[i + 1] == toks@[i + 1]@);
            assert(i + 2 < n ==> tm[i + 2] == toks@[i + 2]@);
            match &toks[i] {
                StatementToken::Word(w) => {
                    words.push(w.clone());
                    assert(words@.map_values(|w: String| w@) =~= wm.push(w@));
                    i = i + 1;
                },
                StatementToken::Slash => {
                    if i + 1 < n {
                        match &toks[i + 1] {
                            StatementToken::Word(name) => {
                                if i + 2 < n {
                                    match &toks[i + 2] {
                                        StatementToken::Slash => {
                                            words.push(underscore());
                                            let p = QueryPlaceholder::Pos(name.clone());
                                            places.push(p);
                                            assert(words@.map_values(|w: String| w@) =~= wm.push(
                                                "_"@,
                                            ));
                                            assert(placeholders_model(places@) =~= pm.push(p@));
                                            i = i + 3;
                                        },
                                        _ => {
                                            return Err(StatementError::ExpectedCaptureEnd);
                                        },
                                    }
                                } else {
                                    return Err(StatementError::ExpectedCaptureEnd);
                                }
                            },
                            _ => {
                                return Err(StatementError::ExpectedCaptureName);
                            },
                        }
                    } else {
                        return Err(StatementError::MissingCaptureName);
                    }
                },
                StatementToken::Pinned(e) => {
                    words.push(underscore());
                    let p = QueryPlaceholder::Pin(e.clone());
                    places.push(p);
                    assert(words@.map_values(|w: String| w@) =~= wm.push("_"@));
                    assert(placeholders_model(places@) =~= pm.push(p@));
                    i = i + 1;
                },
                StatementToken::Comma => {
                    break ;
                },
                StatementToken::Other(_) => {
                    return Err(StatementError::UnexpectedToken);
                },
                StatementToken::BadPin(_) => {
                    return Err(StatementError::ExpectedExpression);
                },
            }
        }
        let relation = join(&words);
        Ok((QueryStatement { relation, places }, i))
    }
}


/// A statement as the contracts see it: its relation and its places.
pub open spec fn statement_model(st: QueryStatement) -> (Seq<char>, Seq<PlaceholderModel>) {
    (st.relation@, placeholders_model(st.places@))
}

pub open spec fn statements_model(sts: Seq<QueryStatement>) -> Seq<(Seq<char>, Seq<PlaceholderModel>)> {
    sts.map_values(|st: QueryStatement| statement_model(st))
}

/// Reading a statement never moves backwards.
pub proof fn lemma_read_statement_advances(
    toks: Seq<TokenModel>,
    i: int,
    words: Seq<Seq<char>>,
    places: Seq<PlaceholderModel>,
)
    ensures
        read_statement(toks, i, words, places) matches Ok((_, _, e)) ==> e >= i,
    decreases toks.len() - i,
{
    if i < 0 || i >= toks.len() {
    } else {
        match toks[i] {
            TokenModel::Word(w) => lemma_read_statement_advances(toks, i + 1, words.push(w), places),
            TokenModel::Slash => {
                if i + 1 < toks.len() && toks[i + 1] is Word && i + 2 < toks.len() && toks[i + 2] is Slash {
                    lemma_read_statement_advances(
                        toks,
                        i + 3,
                        words.push("_"@),
                        places.push(PlaceholderModel::Pos(toks[i + 1]->Word_0)),
                    );
                }
            },
            TokenModel::Pinned(e) => lemma_read_statement_advances(
                toks,
                i + 1,
                words.push("_"@),
                places.push(PlaceholderModel::Pin(e)),
            ),
            _ => {},
        }
    }
}

/// How reading comma-separated statements from token `i` on ends, with the
/// statements `acc` read so far. A trailing comma is allowed.
pub open spec fn read_statements(
    toks: Seq<TokenModel>,
    i: int,
    acc: Seq<(Seq<char>, Seq<PlaceholderModel>)>,
) -> Result<Seq<(Seq<char>, Seq<PlaceholderModel>)>, StatementError>
    decreases toks.len() - i,
{
    if i < 0 || i >= toks.len() {
        Ok(acc)
    } else {
        match read_statement(toks, i, Seq::empty(), Seq::empty()) {
            Err(e) => Err(e),
            Ok((words, places, end)) => {
                let acc2 = acc.push((join_words(words), places));
                if end >= toks.len() {
                    Ok(acc2)
                } else {
                    proof {
                        lemma_read_statement_advances(toks, i, Seq::empty(), Seq::empty());
                    }
                    read_statements(toks, end + 1, acc2)
                }
            },
        }
    }
}

/// Reads comma-separated statements from `content` (a trailing comma allowed),
/// as far as the first error.
pub fn parse_statements(content: &Vec<StatementToken>) -> (r: Result<Vec<QueryStatement>, StatementError>)
    ensures
        match read_statements(tokens_model(content@), 0, Seq::empty()) {
            Ok(sts) => r matches Ok(v) && statements_model(v@) == sts,
            Err(e) => r == Err::<Vec<QueryStatement>, StatementError>(e),
        },
{
    let ghost tm = tokens_model(content@);
    let mut statements: Vec<QueryStatement> = Vec::new();
    let mut i: usize = 0;
    let n = content.len();
    assert(statements_model(statements@) =~= Seq::<(Seq<char>, Seq<PlaceholderModel>)>::empty());
    while i < n
        invariant
            n == content.len(),
            tm == tokens_model(content@),
            read_statements(tm, 0, Seq::empty()) == read_statements(
                tm,
                i as int,
                statements_model(statements@),
            ),
        decreases n - i,
    {
        let ghost sm = statements_model(statements@);
        match QueryStatement::parse(content, i) {
            Ok((st, end)) => {
                proof {
                    lemma_read_statement_advances(tm, i as int, Seq::empty(), Seq::empty());
                }
                let ghost m = statement_model(st);
                statements.push(st);
                assert(statements_model(statements@) =~= sm.push(m));
                if end >= n {
                    i = n;
                } else {
                    i = end + 1;
                }
            },
            Err(e) => {
                return Err(e);
            },
        }
    }
    Ok(statements)
}

/// Where the longest run of tokens from `i` up to (at most) `k` that reads as
/// one expression ends, if any does.
pub open spec fn pin_end(toks: Seq<Seq<char>>, i: int, k: int) -> Option<int>
    decreases k - i,
{
    if k <= i {
        None
    } else if expr_parse_error_of(source_text(toks.subrange(i, k))) is None {
        Some(k)
    } else {
        pin_end(toks, i, k - 1)
    }
}

/// Why the tokens from `i` on do not read as one expression: the parser's
/// message.
pub open spec fn pin_failure(toks: Seq<Seq<char>>, i: int) -> Seq<char> {
    match expr_parse_error_of(source_text(toks.subrange(i, toks.len() as int))) {
        Some(m) => m,
        None => Seq::empty(),
    }
}

/// Whether a pinned expression may begin at token `i`: a parenthesized group, a
/// literal, or `-` before a number.
pub open spec fn pin_start(toks: Seq<Seq<char>>, i: int) -> bool {
    ||| toks[i] == "("@
    ||| is_literal_text(toks[i])
    ||| (toks[i] == "-"@ && i + 1 < toks.len() && is_number_text(toks[i + 1]))
}

/// The statement tokens of the token texts from `i` on. A pinned expression
/// takes the longest run of tokens that reads as one expression; where none
/// does, the tokens end with `BadPin`.
pub open spec fn classify(toks: Seq<Seq<char>>, i: int) -> Seq<TokenModel>
    decreases toks.len() - i,
{
    if i < 0 || i >= toks.len() {
        Seq::empty()
    } else if is_word_text(toks[i]) {
        seq![TokenModel::Word(toks[i])] + classify(toks, i + 1)
    } else if toks[i] == "/"@ {
        seq![TokenModel::Slash] + classify(toks, i + 1)
    } else if toks[i] == ","@ {
        seq![TokenModel::Comma] + classify(toks, i + 1)
    } else if pin_start(toks, i) {
        match pin_end(toks, i, toks.len() as int) {
            Some(k) => if i < k && k <= toks.len() {
                seq![TokenModel::Pinned(source_text(toks.subrange(i, k)))] + classify(toks, k)
            } else {
                Seq::empty()
            },
            None => seq![TokenModel::BadPin(pin_failure(toks, i))],
        }
    } else {
        seq![TokenModel::Other(toks[i])] + classify(toks, i + 1)
    }
}

proof fn lemma_pin_end_bounds(toks: Seq<Seq<char>>, i: int, k: int)
    ensures
        pin_end(toks, i, k) matches Some(e) ==> i < e <= k && expr_parse_error_of(
            source_text(toks.subrange(i, e)),
        ) is None,
    decreases k - i,
{
    if k > i && expr_parse_error_of(source_text(toks.subrange(i, k))) is Some {
        lemma_pin_end_bounds(toks, i, k - 1);
    }
}

/// A pinned expression is the longest run of tokens from its start that reads
/// as one expression: every run from `i` up to `e <= k` that reads makes the pin
/// reach at least `e` (so a run up to `k` that reads is the pin), the pin itself
/// reads, and where there is no pin no run reads.
pub proof fn lemma_pin_is_longest_expression(toks: Seq<Seq<char>>, i: int, k: int)
    ensures
        forall|e: int|
            i < e <= k && #[trigger] expr_parse_error_of(source_text(toks.subrange(i, e))) is None
                ==> (pin_end(toks, i, k) matches Some(p) && e <= p),
        i < k && expr_parse_error_of(source_text(toks.subrange(i, k))) is None ==> pin_end(
            toks,
            i,
            k,
        ) == Some(k),
        pin_end(toks, i, k) matches Some(p) ==> (i < p <= k && expr_parse_error_of(
            source_text(toks.subrange(i, p)),
        ) is None),
    decreases k - i,
{
    lemma_pin_end_bounds(toks, i, k);
    if k > i && expr_parse_error_of(source_text(toks.subrange(i, k))) is Some {
        lemma_pin_is_longest_expression(toks, i, k - 1);
    }
}

/// A parenthesized group, a token that begins with a digit (a number), or `-`
/// before such a token may begin a pinned expression, and none of them is a
/// word, `/` or `,`.
pub proof fn lemma_pin_starts(toks: Seq<Seq<char>>, i: int)
    requires
        0 <= i < toks.len(),
        toks[i] == "("@ || (toks[i].len() > 0 && '0' <= toks[i][0] && toks[i][0] <= '9') || (
        toks[i] == "-"@ && i + 1 < toks.len() && toks[i + 1].len() > 0 && '0' <= toks[i + 1][0]
            && toks[i + 1][0] <= '9'),
    ensures
        pin_start(toks, i),
        !is_word_text(toks[i]),
        toks[i] != "/"@,
        toks[i] != ","@,
{
    reveal_strlit("(");
    reveal_strlit("-");
    reveal_strlit("/");
    reveal_strlit(",");
    if toks[i] == "("@ {
        assert(toks[i][0] == '(');
    } else if toks[i] == "-"@ {
        assert(toks[i][0] == '-');
    }
}

/// At a token that may begin a pin (and is no word, `/` or `,`), the statement
/// tokens hold the pin whose text is the longest run that reads as one
/// expression, then the tokens after it; where no run reads, they end with
/// `BadPin` carrying the parser's message for all the tokens from there on.
pub proof fn lemma_classify_at_pin(toks: Seq<Seq<char>>, i: int)
    requires
        0 <= i < toks.len(),
        pin_start(toks, i),
        !is_word_text(toks[i]),
        toks[i] != "/"@,
        toks[i] != ","@,
    ensures
        match pin_end(toks, i, toks.len() as int) {
            Some(e) => classify(toks, i) == seq![TokenModel::Pinned(source_text(toks.subrange(i, e)))]
                + classify(toks, e),
            None => expr_parse_error_of(source_text(toks.subrange(i, toks.len() as int))) is Some
                && classify(toks, i) == seq![
                TokenModel::BadPin(
                    expr_parse_error_of(source_text(toks.subrange(i, toks.len() as int)))->Some_0,
                ),
            ],
        },
{
    lemma_pin_end_bounds(toks, i, toks.len() as int);
}

/// A word of a statement stays a word: the statement tokens at a word are the
/// word, then the tokens after it.
pub proof fn lemma_classify_at_word(toks: Seq<Seq<char>>, i: int)
    requires
        0 <= i < toks.len(),
        is_word_text(toks[i]),
    ensures
        classify(toks, i) == seq![TokenModel::Word(toks[i])] + classify(toks, i + 1),
{
}

/// A token that is either no pin, or a pin whose text reads as one expression.
pub open spec fn pin_reads(t: TokenModel) -> bool {
    match t {
        TokenModel::Pinned(e) => expr_parse_error_of(e) is None,
        _ => true,
    }
}

/// Every pinned expression that the statements hold reads as one expression.
pub proof fn lemma_pins_are_expressions(toks: Seq<Seq<char>>, i: int)
    ensures
        forall|j: int| 0 <= j < classify(toks, i).len() ==> pin_reads(#[trigger] classify(toks, i)[j]),
    decreases toks.len() - i,
{
    if i < 0 || i >= toks.len() {
    } else if is_word_text(toks[i]) || toks[i] == "/"@ || toks[i] == ","@ || !pin_start(toks, i) {
        lemma_pins_are_expressions(toks, i + 1);
        let rest = classify(toks, i + 1);
        assert forall|j: int| 0 <= j < classify(toks, i).len() implies pin_reads(
            #[trigger] classify(toks, i)[j],
        ) by {
            if j > 0 {
                assert(classify(toks, i)[j] == rest[j - 1]);
            }
        }
    } else {
        lemma_pin_end_bounds(toks, i, toks.len() as int);
        match pin_end(toks, i, toks.len() as int) {
            Some(k) => {
                lemma_pins_are_expressions(toks, k);
                let rest = classify(toks, k);
                assert forall|j: int| 0 <= j < classify(toks, i).len() implies pin_reads(
                    #[trigger] classify(toks, i)[j],
                ) by {
                    if j > 0 {
                        assert(classify(toks, i)[j] == rest[j - 1]);
                    }
                }
            },
            None => {},
        }
    }
}

/// The tokens `from..to` of `v`.
pub fn slice_tokens(v: &Vec<String>, from: usize, to: usize) -> (r: Vec<String>)
    requires
        from <= to <= v.len(),
    ensures
        texts(r@) == texts(v@).subrange(from as int, to as int),
{
    let mut r: Vec<String> = Vec::new();
    let mut i = from;
    while i < to
        invariant
            from <= i <= to <= v.len(),
            texts(r@) == texts(v@).subrange(from as int, i as int),
        decreases to - i,
    {
        let ghost before = texts(r@);
        r.push(v[i].clone());
        assert(texts(r@) =~= before.push(v@[i as int]@));
        assert(texts(v@).subrange(from as int, i + 1) =~= texts(v@).subrange(from as int, i as int).push(v@[i as int]@));
        i = i + 1;
    }
    r
}

/// Where the longest run of tokens from `i` that reads as one expression ends;
/// where none does, the parser's message for all the tokens from `i` on.
fn longest_expr(content: &Vec<String>, i: usize) -> (r: Result<usize, String>)
    requires
        i < content.len(),
    ensures
        match pin_end(texts(content@), i as int, content.len() as int) {
            Some(k) => r == Ok::<usize, String>(k as usize),
            None => r matches Err(m) && m@ == pin_failure(texts(content@), i as int),
        },
{
    let ghost t = texts(content@);
    let n = content.len();
    let mut k = n;
    let mut failure = String::new();
    while k > i
        invariant
            i < n,
            n == content.len(),
            i <= k <= n,
            t == texts(content@),
            pin_end(t, i as int, n as int) == pin_end(t, i as int, k as int),
            k < n ==> failure@ == pin_failure(t, i as int),
        decreases k,
    {
        let piece = slice_tokens(content, i, k);
        let text = join(&piece);
        match expr_parse_error(text.as_str()) {
            None => {
                return Ok(k);
            },
            Some(m) => {
                if k == n {
                    failure = m;
                }
                k = k - 1;
            },
        }
    }
    Err(failure)
}

fn starts_pin(content: &Vec<String>, i: usize) -> (r: bool)
    requires
        i < content.len(),
    ensures
        r == pin_start(texts(content@), i as int),
{
    let ghost t = texts(content@);
    assert(t[i as int] == content@[i as int]@);
    if str_eq(content[i].as_str(), "(") || is_literal(content[i].as_str()) {
        return true;
    }
    if str_eq(content[i].as_str(), "-") && i + 1 < content.len() {
        assert(t[i + 1] == content@[i + 1]@);
        return is_number(content[i + 1].as_str());
    }
    false
}

/// Tells the tokens of a statement list apart: words, `/`, `,`, pinned
/// expressions (each the longest run of tokens from a parenthesized group, a
/// literal or a negative number that reads as one expression), and other tokens.
pub fn classify_tokens(content: &Vec<String>) -> (r: Vec<StatementToken>)
    ensures
        tokens_model(r@) == classify(texts(content@), 0),
{
    let ghost t = texts(content@);
    let n = content.len();
    let mut out: Vec<StatementToken> = Vec::new();
    let mut i: usize = 0;
    assert(tokens_model(out@) =~= Seq::<TokenModel>::empty());
    while i < n
        invariant
            n == content.len(),
            t == texts(content@),
            i <= n,
            tokens_model(out@) + classify(t, i as int) == classify(t, 0),
        decreases n - i,
    {
        let ghost before = tokens_model(out@);
        let ghost rest = classify(t, i as int);
        assert(t[i as int] == content@[i as int]@);
        let tok = content[i].as_str();
        let x: StatementToken;
        let next: usize;
        if is_word(tok) {
            x = StatementToken::Word(content[i].clone());
            next = i + 1;
        } else if str_eq(tok, "/") {
            x = StatementToken::Slash;
            next = i + 1;
        } else if str_eq(tok, ",") {
            x = StatementToken::Comma;
            next = i + 1;
        } else if starts_pin(content, i) {
            proof {
                lemma_pin_end_bounds(t, i as int, n as int);
            }
            match longest_expr(content, i) {
                Ok(k) => {
                    let piece = slice_tokens(content, i, k);
                    x = StatementToken::Pinned(join(&piece));
                    next = k;
                },
                Err(m) => {
                    x = StatementToken::BadPin(m);
                    next = n;
                },
            }
        } else {
            x = StatementToken::Other(content[i].clone());
            next = i + 1;
        }
        assert(rest == seq![x@] + classify(t, next as int));
        out.push(x);
        assert(tokens_model(out@) =~= before.push(x@));
        assert(before.push(x@) + classify(t, next as int) =~= before + (seq![x@] + classify(t, next as int)));
        i = next;
    }
    out
}

/// A `BadPin` can only be the last of the statement tokens.
proof fn lemma_bad_pin_last(toks: Seq<Seq<char>>, i: int)
    ensures
        forall|j: int| 0 <= j < classify(toks, i).len() - 1 ==> !(#[trigger] classify(toks, i)[j] is BadPin),
    decreases toks.len() - i,
{
    if i < 0 || i >= toks.len() {
    } else if is_word_text(toks[i]) || toks[i] == "/"@ || toks[i] == ","@ || !pin_start(toks, i) {
        lemma_bad_pin_last(toks, i + 1);
        let rest = classify(toks, i + 1);
        assert forall|j: int| 0 <= j < classify(toks, i).len() - 1 implies !(
        #[trigger] classify(toks, i)[j] is BadPin) by {
            if j > 0 {
                assert(classify(toks, i)[j] == rest[j - 1]);
            }
        }
    } else {
        lemma_pin_end_bounds(toks, i, toks.len() as int);
        match pin_end(toks, i, toks.len() as int) {
            Some(k) => {
                lemma_bad_pin_last(toks, k);
                let rest = classify(toks, k);
                assert forall|j: int| 0 <= j < classify(toks, i).len() - 1 implies !(
                #[trigger] classify(toks, i)[j] is BadPin) by {
                    if j > 0 {
                        assert(classify(toks, i)[j] == rest[j - 1]);
                    }
                }
            },
            None => {},
        }
    }
}

/// A statement fails on a pin only where it meets a `BadPin`.
proof fn lemma_read_statement_bad_pin(
    toks: Seq<TokenModel>,
    i: int,
    words: Seq<Seq<char>>,
    places: Seq<PlaceholderModel>,
)
    ensures
        read_statement(toks, i, words, places) == Err::<
            (Seq<Seq<char>>, Seq<PlaceholderModel>, int),
            StatementError,
        >(StatementError::ExpectedExpression) ==> exists|j: int|
            0 <= i <= j < toks.len() && #[trigger] toks[j] is BadPin,
    decreases toks.len() - i,
{
    if i < 0 || i >= toks.len() {
    } else {
        match toks[i] {
            TokenModel::Word(w) => lemma_read_statement_bad_pin(toks, i + 1, words.push(w), places),
            TokenModel::Slash => {
                if i + 1 < toks.len() && toks[i + 1] is Word && i + 2 < toks.len() && toks[i + 2] is Slash {
                    lemma_read_statement_bad_pin(
                        toks,
                        i + 3,
                        words.push("_"@),
                        places.push(PlaceholderModel::Pos(toks[i + 1]->Word_0)),
                    );
                }
            },
            TokenModel::Pinned(e) => lemma_read_statement_bad_pin(
                toks,
                i + 1,
                words.push("_"@),
                places.push(PlaceholderModel::Pin(e)),
            ),
            TokenModel::BadPin(_) => {
                assert(toks[i] is BadPin);
            },
            _ => {},
        }
    }
}

/// Reading statements fails on a pin only where the tokens hold a `BadPin`.
proof fn lemma_read_statements_bad_pin(
    toks: Seq<TokenModel>,
    i: int,
    acc: Seq<(Seq<char>, Seq<PlaceholderModel>)>,
)
    ensures
        read_statements(toks, i, acc) == Err::<Seq<(Seq<char>, Seq<PlaceholderModel>)>, StatementError>(
            StatementError::ExpectedExpression,
        ) ==> exists|j: int| 0 <= j < toks.len() && #[trigger] toks[j] is BadPin,
    decreases toks.len() - i,
{
    if i < 0 || i >= toks.len() {
    } else {
        lemma_read_statement_bad_pin(toks, i, Seq::empty(), Seq::empty());
        match read_statement(toks, i, Seq::empty(), Seq::empty()) {
            Err(e) => {},
            Ok((words, places, end)) => {
                lemma_read_statement_advances(toks, i, Seq::empty(), Seq::empty());
                if end < toks.len() {
                    lemma_read_statements_bad_pin(toks, end + 1, acc.push((join_words(words), places)));
                }
            },
        }
    }
}

/// The parser's message that a `BadPin` ending the tokens carries.
pub open spec fn bad_pin_message(toks: Seq<TokenModel>) -> Seq<char> {
    if toks.len() > 0 && toks.last() is BadPin {
        toks.last()->BadPin_0
    } else {
        Seq::empty()
    }
}

/// A `when` query: its statements, and the body to run on a match.
pub struct Query {
    pub statements: Vec<QueryStatement>,
    pub body: TokenStream,
}

/// Why a query could not be read.
#[derive(Debug, PartialEq, Eq)]
pub enum QueryError {
    /// The input is empty.
    Empty,
    /// The input does not begin with a parenthesized group.
    ExpectedParentheses,
    /// A statement inside the parentheses could not be read.
    Statement(StatementError),
    /// A pinned expression does not read as one expression; the parser's
    /// message.
    Pin(String),
    /// What follows the parentheses is not one expression; the parser's message.
    Body(String),
}

/// The statement tokens inside the leading parentheses, and the tokens after
/// them, where the input begins with a parenthesized group.
pub open spec fn query_parts(toks: Seq<Seq<char>>) -> Option<(Seq<Seq<char>>, Seq<Seq<char>>)> {
    if toks.len() > 0 && toks[0] == "("@ {
        match group_close(toks, 1, 0) {
            Some(c) => Some((toks.subrange(1, c), toks.subrange(c + 1, toks.len() as int))),
            None => None,
        }
    } else {
        None
    }
}

impl Query {
    /// Reads a query from the whole input `( statements ) body`: a parenthesized
    /// group of comma-separated statements (a trailing comma allowed), then one
    /// expression, the body, with nothing after it.
    pub fn parse(input: &TokenStream) -> (r: Result<Query, QueryError>)
        ensures
            match query_parts(input.tokens_view()) {
                None => r == Err::<Query, QueryError>(
                    if input.tokens_view().len() == 0 {
                        QueryError::Empty
                    } else {
                        QueryError::ExpectedParentheses
                    },
                ),
                Some((content, body)) => match read_statements(classify(content, 0), 0, Seq::empty()) {
                    Err(e) => if e is ExpectedExpression {
                        r matches Err(QueryError::Pin(m)) && m@ == bad_pin_message(classify(content, 0))
                            && classify(content, 0).last() is BadPin
                    } else {
                        r == Err::<Query, QueryError>(QueryError::Statement(e))
                    },
                    Ok(sts) => match expr_parse_error_of(source_text(body)) {
                        Some(m) => r matches Err(QueryError::Body(m2)) && m2@ == m,
                        None => r matches Ok(q) && statements_model(q.statements@) == sts
                            && q.body.tokens_view() == body,
                    },
                },
            },
    {
        let toks = input.tokens();
        let ghost t = texts(toks@);
        if toks.len() == 0 {
            return Err(QueryError::Empty);
        }
        assert(t[0] == toks@[0]@);
        if !str_eq(toks[0].as_str(), "(") {
            return Err(QueryError::ExpectedParentheses);
        }
        let close = match group_end(toks) {
            Some(c) => c,
            None => {
                return Err(QueryError::ExpectedParentheses);
            },
        };
        let content = slice_tokens(toks, 1, close);
        let body = slice_tokens(toks, close + 1, toks.len());
        let classified = classify_tokens(&content);
        let statements = match parse_statements(&classified) {
            Ok(s) => s,
            Err(StatementError::ExpectedExpression) => {
                proof {
                    lemma_read_statements_bad_pin(tokens_model(classified@), 0, Seq::empty());
                    lemma_bad_pin_last(texts(content@), 0);
                    let tm = tokens_model(classified@);
                    let j = choose|j: int| 0 <= j < tm.len() && #[trigger] tm[j] is BadPin;
                    assert(j == tm.len() - 1);
                }
                let last = classified.len() - 1;
                assert(tokens_model(classified@)[last as int] == classified@[last as int]@);
                return match &classified[last] {
                    StatementToken::BadPin(m) => Err(QueryError::Pin(m.clone())),
                    _ => {
                        assert(false);
                        Err(QueryError::Statement(StatementError::ExpectedExpression))
                    },
                };
            },
            Err(e) => {
                return Err(QueryError::Statement(e));
            },
        };
        let body_text = join(&body);
        match expr_parse_error(body_text.as_str()) {
            Some(m) => Err(QueryError::Body(m)),
            None => Ok(Query { statements, body: TokenStream::new(body) }),
        }
    }
}
/// The captured names of the statements, in order, repeats included.
pub open spec fn captured_names(sts: Seq<(Seq<char>, Seq<PlaceholderModel>)>) -> Seq<Seq<char>>
    decreases sts.len(),
{
    if sts.len() == 0 {
        Seq::empty()
    } else {
        captured_names(sts.drop_last()) + names_of(sts.last().1)
    }
}

/// The captured names among the places, in order.
pub open spec fn names_of(places: Seq<PlaceholderModel>) -> Seq<Seq<char>>
    decreases places.len(),
{
    if places.len() == 0 {
        Seq::empty()
    } else {
        names_of(places.drop_last()) + match places.last() {
            PlaceholderModel::Pos(n) => seq![n],
            PlaceholderModel::Pin(_) => Seq::empty(),
        }
    }
}

/// Each name once, at the place where it first appears.
pub open spec fn first_occurrences(names: Seq<Seq<char>>) -> Seq<Seq<char>>
    decreases names.len(),
{
    if names.len() == 0 {
        Seq::empty()
    } else {
        let prev = first_occurrences(names.drop_last());
        if prev.contains(names.last()) {
            prev
        } else {
            prev.push(names.last())
        }
    }
}

fn holds_name(found: &Vec<String>, name: &String) -> (r: bool)
    ensures
        r == texts(found@).contains(name@),
{
    let mut i: usize = 0;
    while i < found.len()
        invariant
            i <= found.len(),
            forall|j: int| 0 <= j < i ==> found@[j]@ != name@,
        decreases found.len() - i,
    {
        if found[i] == *name {
            assert(texts(found@)[i as int] == name@);
            return true;
        }
        i = i + 1;
    }
    proof {
        if texts(found@).contains(name@) {
            let j = choose|j: int| 0 <= j < texts(found@).len() && texts(found@)[j] == name@;
            assert(found@[j]@ == name@);
        }
    }
    false
}


/// The names captured by the statements, each once, numbered by where they first
/// appear: the name at index `k` of the result is bound to the `k`-th value of
/// a match.
pub fn capture_positions(statements: &Vec<QueryStatement>) -> (r: Vec<String>)
    ensures
        texts(r@) == first_occurrences(captured_names(statements_model(statements@))),
{
    let ghost sm = statements_model(statements@);
    let mut found: Vec<String> = Vec::new();
    let mut i: usize = 0;
    assert(texts(found@) =~= first_occurrences(captured_names(sm.take(0))));
    while i < statements.len()
        invariant
            i <= statements.len(),
            sm == statements_model(statements@),
            texts(found@) == first_occurrences(captured_names(sm.take(i as int))),
        decreases statements.len() - i,
    {
        let places = &statements[i].places;
        let ghost pm = placeholders_model(places@);
        let ghost before = captured_names(sm.take(i as int));
        assert(sm[i as int].1 == pm);
        assert(sm.take(i + 1).drop_last() =~= sm.take(i as int));
        assert(captured_names(sm.take(i + 1)) == before + names_of(pm));
        let mut j: usize = 0;
        assert(before + names_of(pm.take(0)) =~= before);
        while j < places.len()
            invariant
                i < statements.len(),
                places == &statements@[i as int].places,
                pm == placeholders_model(places@),
                j <= places.len(),
                texts(found@) == first_occurrences(before + names_of(pm.take(j as int))),
            decreases places.len() - j,
        {
            let ghost prev = before + names_of(pm.take(j as int));
            assert(pm.take(j + 1).drop_last() =~= pm.take(j as int));
            assert(pm[j as int] == places@[j as int]@);
            match &places[j] {
                QueryPlaceholder::Pos(name) => {
                    assert(names_of(pm.take(j + 1)) == names_of(pm.take(j as int)) + seq![name@]);
                    assert(before + names_of(pm.take(j + 1)) =~= prev.push(name@));
                    assert((prev.push(name@)).drop_last() =~= prev);
                    if !holds_name(&found, name) {
                        let ghost f = texts(found@);
                        found.push(name.clone());
                        assert(texts(found@) =~= f.push(name@));
                    }
                },
                QueryPlaceholder::Pin(_) => {
                    assert(names_of(pm.take(j + 1)) =~= names_of(pm.take(j as int)));
                    assert(before + names_of(pm.take(j + 1)) =~= prev);
                },
            }
            j = j + 1;
        }
        assert(pm.take(places.len() as int) =~= pm);
        i = i + 1;
    }
    assert(sm.take(statements.len() as int) =~= sm);
    found
}



impl QueryPlaceholder {
    /// How the placeholder is shown: `Pos(name)`, or `Pin(...)` for a pin.
    pub fn debug_string(&self) -> (r: String)
        ensures
            r@ == match self@ {
                PlaceholderModel::Pos(n) => "Pos("@ + n + ")"@,
                PlaceholderModel::Pin(_) => "Pin(...)"@,
            },
    {
        match self {
            QueryPlaceholder::Pos(n) => {
                let mut r = String::from_str("Pos(");
                r.append(n.as_str());
                r.append(")");
                r
            },
            QueryPlaceholder::Pin(_) => String::from_str("Pin(...)"),
        }
    }
}

/// The check that the expansion is used where a database `db` is in scope.
pub open spec fn db_check_tokens() -> Seq<Seq<char>> {
    seq!["let"@, "_rtdb"@, ":"@, "::"@, "imagine"@, "::"@, "RTVM"@, "="@, "db"@, ";"@]
}

/// The values the expansion hands out, one per captured name.
pub open spec fn result_tokens() -> Seq<Seq<char>> {
    seq![
        "let"@, "mut"@, "__result"@, "="@, "vec"@, "!"@, "["@,
        "\"0\""@, ","@, "\"1\""@, ","@, "\"2\""@, ","@, "\"3\""@, ","@, "\"4\""@, ","@, "\"5\""@,
        "]"@, ";"@,
    ]
}

/// The binding of a captured name to the next value.
pub open spec fn binding_tokens(name: Seq<char>) -> Seq<Seq<char>> {
    seq!["let"@, name, "="@, "__result"@, "."@, "remove"@, "("@, "0"@, ")"@, ";"@]
}

/// The bindings of the captured names, in their order.
pub open spec fn bindings_tokens(names: Seq<Seq<char>>) -> Seq<Seq<char>>
    decreases names.len(),
{
    if names.len() == 0 {
        Seq::empty()
    } else {
        bindings_tokens(names.drop_last()) + binding_tokens(names.last())
    }
}

/// The expansion of a `when` query: a block that checks for the database,
/// binds each captured name, in the order of first appearance, to the next
/// value, and runs the body.
pub open spec fn when_expansion(names: Seq<Seq<char>>, body: Seq<Seq<char>>) -> Seq<Seq<char>> {
    seq!["{"@] + db_check_tokens() + result_tokens() + bindings_tokens(names) + body + seq!["}"@]
}

fn db_check() -> (r: Vec<String>)
    ensures
        texts(r@) == db_check_tokens(),
{
    let r = vec![
        token("let"), token("_rtdb"), token(":"), token("::"), token("imagine"), token("::"),
        token("RTVM"), token("="), token("db"), token(";"),
    ];
    assert(texts(r@) =~= db_check_tokens());
    r
}

fn result_decl() -> (r: Vec<String>)
    ensures
        texts(r@) == result_tokens(),
{
    let r = vec![
        token("let"), token("mut"), token("__result"), token("="), token("vec"), token("!"),
        token("["), token("\"0\""), token(","), token("\"1\""), token(","), token("\"2\""),
        token(","), token("\"3\""), token(","), token("\"4\""), token(","), token("\"5\""),
        token("]"), token(";"),
    ];
    assert(texts(r@) =~= result_tokens());
    r
}

fn binding(name: &String) -> (r: Vec<String>)
    ensures
        texts(r@) == binding_tokens(name@),
{
    let r = vec![
        token("let"), name.clone(), token("="), token("__result"), token("."), token("remove"),
        token("("), token("0"), token(")"), token(";"),
    ];
    assert(texts(r@) =~= binding_tokens(name@));
    r
}

/// The block that a read query expands to: the database check, the bindings of
/// the captured names in the order they first appear, and the body.
pub fn expand(query: &Query) -> (r: TokenStream)
    ensures
        r.tokens_view() == when_expansion(
            first_occurrences(captured_names(statements_model(query.statements@))),
            query.body.tokens_view(),
        ),
{
    let names = capture_positions(&query.statements);
    let ghost ns = texts(names@);
    let mut out = vec![token("{")];
    extend_tokens(&mut out, &db_check());
    extend_tokens(&mut out, &result_decl());
    let ghost head = texts(out@);
    assert(head =~= seq!["{"@] + db_check_tokens() + result_tokens());
    let mut i: usize = 0;
    assert(ns.take(0) =~= Seq::<Seq<char>>::empty());
    while i < names.len()
        invariant
            i <= names.len(),
            ns == texts(names@),
            texts(out@) == head + bindings_tokens(ns.take(i as int)),
        decreases names.len() - i,
    {
        extend_tokens(&mut out, &binding(&names[i]));
        assert(ns.take(i + 1).drop_last() =~= ns.take(i as int));
        assert(ns[i as int] == names@[i as int]@);
        i = i + 1;
    }
    assert(ns.take(names.len() as int) =~= ns);
    extend_tokens(&mut out, query.body.tokens());
    let ghost with_body = texts(out@);
    out.push(token("}"));
    assert(texts(out@) =~= with_body.push("}"@));
    assert(texts(out@) =~= when_expansion(ns, query.body.tokens_view()));
    TokenStream::new(out)
}

/// The message reported for a statement that could not be read.
pub open spec fn statement_error_message(e: StatementError) -> Seq<char> {
    match e {
        StatementError::ExpectedCaptureName => "expected identifier"@,
        StatementError::MissingCaptureName => "unexpected end of input, expected identifier"@,
        StatementError::ExpectedCaptureEnd => "expected `/`"@,
        StatementError::UnexpectedToken => "expected one of: identifier, `/`, parentheses, literal, `,`"@,
        StatementError::ExpectedExpression => "expected an expression"@,
    }
}

/// The message reported for a query that could not be read.
pub open spec fn query_error_message(e: QueryError) -> Seq<char> {
    match e {
        QueryError::Empty => "unexpected end of input, expected parentheses"@,
        QueryError::ExpectedParentheses => "expected parentheses"@,
        QueryError::Statement(s) => statement_error_message(s),
        QueryError::Pin(m) => m@,
        QueryError::Body(m) => m@,
    }
}

/// The message reported for a query that could not be read.
pub fn error_message(e: &QueryError) -> (r: String)
    ensures
        r@ == query_error_message(*e),
{
    match e {
        QueryError::Empty => token("unexpected end of input, expected parentheses"),
        QueryError::ExpectedParentheses => token("expected parentheses"),
        QueryError::Statement(s) => match s {
            StatementError::ExpectedCaptureName => token("expected identifier"),
            StatementError::MissingCaptureName => token(
                "unexpected end of input, expected identifier",
            ),
            StatementError::ExpectedCaptureEnd => token("expected `/`"),
            StatementError::UnexpectedToken => token(
                "expected one of: identifier, `/`, parentheses, literal, `,`",
            ),
            StatementError::ExpectedExpression => token("expected an expression"),
        },
        QueryError::Pin(m) => m.clone(),
        QueryError::Body(m) => m.clone(),
    }
}

/// What `when` gives for the input tokens `toks`: the expansion of the query
/// they hold, or the compile error that reports why they hold none.
pub open spec fn when_output(toks: Seq<Seq<char>>) -> Seq<Seq<char>> {
    match query_parts(toks) {
        None => compile_error_tokens(
            string_literal_text(
                if toks.len() == 0 {
                    "unexpected end of input, expected parentheses"@
                } else {
                    "expected parentheses"@
                },
            ),
        ),
        Some((content, body)) => match read_statements(classify(content, 0), 0, Seq::empty()) {
            Err(e) => compile_error_tokens(
                string_literal_text(
                    if e is ExpectedExpression {
                        bad_pin_message(classify(content, 0))
                    } else {
                        statement_error_message(e)
                    },
                ),
            ),
            Ok(sts) => match expr_parse_error_of(source_text(body)) {
                Some(m) => compile_error_tokens(string_literal_text(m)),
                None => when_expansion(first_occurrences(captured_names(sts)), body),
            },
        },
    }
}

/// Expands `when!(( statements ) body)`: reads the query, numbers the captured
/// names, and gives the block that binds them and runs the body; where the input
/// holds no query, the compile error that says why.
pub fn when(input: &TokenStream) -> (r: TokenStream)
    ensures
        r.tokens_view() == when_output(input.tokens_view()),
{
    match Query::parse(input) {
        Ok(query) => expand(&query),
        Err(e) => {
            let msg = error_message(&e);
            error_stream(string_literal(msg.as_str()))
        },
    }
}

/// What `{:?}` shows for a string: its text quoted, with escapes.
pub uninterp spec fn str_debug_text(s: Seq<char>) -> Seq<char>;

/// Shows a string as `{:?}` does (`format!` with `Debug`); the text is named by
/// `str_debug_text`.
#[verifier::external_body]
fn debug_str(s: &str) -> (r: String)
    ensures
        r@ == str_debug_text(s@),
{
    format!("{:?}", s)
}

/// Parts joined by a separator.
pub open spec fn join_with(parts: Seq<Seq<char>>, sep: Seq<char>) -> Seq<char>
    decreases parts.len(),
{
    if parts.len() == 0 {
        Seq::empty()
    } else if parts.len() == 1 {
        parts[0]
    } else {
        join_with(parts.drop_last(), sep) + sep + parts.last()
    }
}

/// How a placeholder is shown.
pub open spec fn placeholder_debug(p: PlaceholderModel) -> Seq<char> {
    match p {
        PlaceholderModel::Pos(n) => "Pos("@ + n + ")"@,
        PlaceholderModel::Pin(_) => "Pin(...)"@,
    }
}

/// How a statement is shown: its fields, as a derived `Debug` shows them.
pub open spec fn statement_debug(st: (Seq<char>, Seq<PlaceholderModel>)) -> Seq<char> {
    "QueryStatement { relation: "@ + str_debug_text(st.0) + ", places: ["@ + join_with(
        st.1.map_values(|p: PlaceholderModel| placeholder_debug(p)),
        ", "@,
    ) + "] }"@
}

/// The shown statements, each followed by `, `.
pub open spec fn statements_debug(sts: Seq<(Seq<char>, Seq<PlaceholderModel>)>) -> Seq<char>
    decreases sts.len(),
{
    if sts.len() == 0 {
        Seq::empty()
    } else {
        statements_debug(sts.drop_last()) + statement_debug(sts.last()) + ", "@
    }
}

impl QueryStatement {
    /// How the statement is shown for debugging.
    pub fn debug_string(&self) -> (r: String)
        ensures
            r@ == statement_debug(statement_model(*self)),
    {
        let ghost parts = placeholders_model(self.places@).map_values(
            |p: PlaceholderModel| placeholder_debug(p),
        );
        let mut r = String::from_str("QueryStatement { relation: ");
        r.append(debug_str(self.relation.as_str()).as_str());
        r.append(", places: [");
        let ghost head = r@;
        let mut i: usize = 0;
        while i < self.places.len()
            invariant
                i <= self.places.len(),
                parts == placeholders_model(self.places@).map_values(
                    |p: PlaceholderModel| placeholder_debug(p),
                ),
                r@ == head + join_with(parts.take(i as int), ", "@),
            decreases self.places.len() - i,
        {
            if i > 0 {
                r.append(", ");
            }
            r.append(self.places[i].debug_string().as_str());
            assert(parts.take(i + 1).drop_last() =~= parts.take(i as int));
            assert(parts[i as int] == placeholder_debug(self.places@[i as int]@));
            i = i + 1;
        }
        assert(parts.take(self.places.len() as int) =~= parts);
        r.append("] }");
        r
    }
}

impl Query {
    /// How the query is shown for debugging: its statements, and `...` for the
    /// body.
    pub fn debug_string(&self) -> (r: String)
        ensures
            r@ == "Query { stmts: ["@ + statements_debug(statements_model(self.statements@))
                + "], body: ... }"@,
    {
        let ghost sm = statements_model(self.statements@);
        let mut r = String::from_str("Query { stmts: [");
        let ghost head = r@;
        let mut i: usize = 0;
        assert(statements_debug(sm.take(0)) =~= Seq::<char>::empty());
        while i < self.statements.len()
            invariant
                i <= self.statements.len(),
                sm == statements_model(self.statements@),
                r@ == head + statements_debug(sm.take(i as int)),
            decreases self.statements.len() - i,
        {
            r.append(self.statements[i].debug_string().as_str());
            r.append(", ");
            assert(sm.take(i + 1).drop_last() =~= sm.take(i as int));
            assert(sm[i as int] == statement_model(self.statements@[i as int]));
            i = i + 1;
        }
        assert(sm.take(self.statements.len() as int) =~= sm);
        r.append("], body: ... }");
        r
    }
}

/// Every captured name gets exactly one position: the numbered names hold no
/// name twice, and hold exactly the names that the statements capture.
pub proof fn lemma_first_occurrences(names: Seq<Seq<char>>)
    ensures
        first_occurrences(names).no_duplicates(),
        forall|x: Seq<char>| first_occurrences(names).contains(x) <==> names.contains(x),
    decreases names.len(),
{
    if names.len() > 0 {
        let rest = names.drop_last();
        lemma_first_occurrences(rest);
        assert(names =~= rest.push(names.last()));
        let l = names.last();
        let fr = first_occurrences(rest);
        assert forall|x: Seq<char>| names.contains(x) <==> (rest.contains(x) || x == l) by {
            if names.contains(x) {
                let k = choose|k: int| 0 <= k < names.len() && names[k] == x;
                if k < rest.len() {
                    assert(rest[k] == x);
                }
            }
            if rest.contains(x) {
                let k = choose|k: int| 0 <= k < rest.len() && rest[k] == x;
                assert(names[k] == x);
            }
            if x == l {
                assert(names[names.len() - 1] == x);
            }
        }
        assert forall|x: Seq<char>| fr.push(l).contains(x) <==> (fr.contains(x) || x == l) by {
            if fr.push(l).contains(x) {
                let k = choose|k: int| 0 <= k < fr.push(l).len() && fr.push(l)[k] == x;
                if k < fr.len() {
                    assert(fr[k] == x);
                }
            }
            if fr.contains(x) {
                let k = choose|k: int| 0 <= k < fr.len() && fr[k] == x;
                assert(fr.push(l)[k] == x);
            }
            if x == l {
                assert(fr.push(l)[fr.len() as int] == x);
            }
        }
        if !fr.contains(l) {
            assert forall|a: int, b: int| 0 <= a < b < fr.push(l).len() implies fr.push(l)[a]
                != fr.push(l)[b] by {
                if b == fr.len() {
                    assert(fr[a] == fr.push(l)[a]);
                } else {
                    assert(fr[a] == fr.push(l)[a] && fr[b] == fr.push(l)[b]);
                }
            }
        }
    }
}

/// The positions given to captured names: no name twice, and every captured name.
pub proof fn lemma_capture_positions(sts: Seq<(Seq<char>, Seq<PlaceholderModel>)>)
    ensures
        first_occurrences(captured_names(sts)).no_duplicates(),
        forall|x: Seq<char>| #[trigger] first_occurrences(captured_names(sts)).contains(x)
            <==> captured_names(sts).contains(x),
{
    lemma_first_occurrences(captured_names(sts));
}

} // verus!
