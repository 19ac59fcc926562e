//! How the texts of tokens are told apart: identifiers and keywords, literals,
//! and the delimiters of groups.

use vstd::prelude::*;

use crate::macros::{texts, token};
use crate::strings::{chars_of, str_eq};

verus! {

/// A character that can begin an identifier.
pub open spec fn ident_start(c: char) -> bool {
    c == '_' || ('a' <= c && c <= 'z') || ('A' <= c && c <= 'Z') || c > '\u{7f}'
}

/// A decimal digit.
pub open spec fn is_digit(c: char) -> bool {
    '0' <= c && c <= '9'
}

/// A character that can continue an identifier (`#` for a raw identifier).
pub open spec fn ident_char(c: char) -> bool {
    ident_start(c) || is_digit(c) || c == '#'
}

/// The text of an identifier or a keyword.
pub open spec fn is_ident_text(t: Seq<char>) -> bool {
    &&& t.len() > 0
    &&& ident_start(t[0])
    &&& forall|i: int| 0 <= i < t.len() ==> ident_char(#[trigger] t[i])
}

/// The words that are not identifiers (and `_`).
pub open spec fn keywords() -> Seq<Seq<char>> {
    seq![
        "_"@, "abstract"@, "as"@, "async"@, "await"@, "become"@, "box"@, "break"@,
        "const"@, "continue"@, "crate"@, "do"@, "dyn"@, "else"@, "enum"@, "extern"@,
        "false"@, "final"@, "fn"@, "for"@, "if"@, "impl"@, "in"@, "let"@, "loop"@,
        "macro"@, "match"@, "mod"@, "move"@, "mut"@, "override"@, "priv"@, "pub"@,
        "ref"@, "return"@, "Self"@, "self"@, "static"@, "struct"@, "super"@, "trait"@,
        "true"@, "try"@, "type"@, "typeof"@, "unsafe"@, "unsized"@, "use"@, "virtual"@,
        "where"@, "while"@, "yield"@,
    ]
}

/// An identifier that is not a keyword: a word of a statement.
pub open spec fn is_word_text(t: Seq<char>) -> bool {
    is_ident_text(t) && !keywords().contains(t)
}

/// The text of a literal: `true`, `false`, a number, a string or byte string
/// (raw ones included), or a character or byte.
pub open spec fn is_literal_text(t: Seq<char>) -> bool {
    ||| t == "true"@
    ||| t == "false"@
    ||| (t.len() > 0 && is_digit(t[0]))
    ||| t.contains('"')
    ||| (t.len() >= 3 && t.last() == '\'')
}

/// The text of a number literal.
pub open spec fn is_number_text(t: Seq<char>) -> bool {
    t.len() > 0 && is_digit(t[0])
}

/// An opening delimiter.
pub open spec fn opens(t: Seq<char>) -> bool {
    t == "("@ || t == "["@ || t == "{"@
}

/// A closing delimiter.
pub open spec fn closes(t: Seq<char>) -> bool {
    t == ")"@ || t == "]"@ || t == "}"@
}

/// Where the group that is open at token `i`, with `depth` groups opened inside
/// it so far, closes: the first closing delimiter that meets no open group.
pub open spec fn group_close(toks: Seq<Seq<char>>, i: int, depth: nat) -> Option<int>
    decreases toks.len() - i,
{
    if i < 0 || i >= toks.len() {
        None
    } else if opens(toks[i]) {
        group_close(toks, i + 1, depth + 1)
    } else if closes(toks[i]) {
        if depth == 0 {
            Some(i)
        } else {
            group_close(toks, i + 1, (depth - 1) as nat)
        }
    } else {
        group_close(toks, i + 1, depth)
    }
}

/// Statement words are exactly the identifiers outside Rust's strict and
/// reserved keywords and `_`: a text of ASCII letters, digits and `_` that does
/// not begin with a digit is a word unless it is one of those keywords, and
/// none of those keywords is a word.
pub proof fn lemma_words_are_non_keyword_identifiers(t: Seq<char>)
    requires
        t.len() > 0,
        ('a' <= t[0] && t[0] <= 'z') || ('A' <= t[0] && t[0] <= 'Z') || t[0] == '_',
        forall|i: int|
            0 <= i < t.len() ==> ('a' <= #[trigger] t[i] && t[i] <= 'z') || ('A' <= t[i] && t[i]
                <= 'Z') || ('0' <= t[i] && t[i] <= '9') || t[i] == '_',
    ensures
        is_word_text(t) <==> !seq![
            "_"@, "abstract"@, "as"@, "async"@, "await"@, "become"@, "box"@, "break"@,
            "const"@, "continue"@, "crate"@, "do"@, "dyn"@, "else"@, "enum"@, "extern"@,
            "false"@, "final"@, "fn"@, "for"@, "if"@, "impl"@, "in"@, "let"@, "loop"@,
            "macro"@, "match"@, "mod"@, "move"@, "mut"@, "override"@, "priv"@, "pub"@,
            "ref"@, "return"@, "Self"@, "self"@, "static"@, "struct"@, "super"@, "trait"@,
            "true"@, "try"@, "type"@, "typeof"@, "unsafe"@, "unsized"@, "use"@, "virtual"@,
            "where"@, "while"@, "yield"@,
        ].contains(t),
{
    assert forall|i: int| 0 <= i < t.len() implies ident_char(#[trigger] t[i]) by {
        assert(('a' <= t[i] && t[i] <= 'z') || ('A' <= t[i] && t[i] <= 'Z') || ('0' <= t[i]
            && t[i] <= '9') || t[i] == '_');
    }
    assert(is_ident_text(t));
}

/// A number literal is any token text that begins with a decimal digit, and
/// every such text is a literal.
pub proof fn lemma_numbers_begin_with_a_digit(t: Seq<char>)
    ensures
        is_number_text(t) <==> (t.len() > 0 && '0' <= t[0] && t[0] <= '9'),
        (t.len() > 0 && '0' <= t[0] && t[0] <= '9') ==> is_literal_text(t),
{
}

/// Strings, characters and `true`/`false` are literals; a lifetime such as `'a`
/// is not.
pub proof fn lemma_literal_forms(t: Seq<char>)
    ensures
        t.contains('"') ==> is_literal_text(t),
        t == "true"@ || t == "false"@ ==> is_literal_text(t),
        (t.len() >= 3 && t[0] == '\'' && t.last() == '\'') ==> is_literal_text(t),
        (t.len() == 2 && t[0] == '\'' && 'a' <= t[1] && t[1] <= 'z') ==> !is_literal_text(t),
{
    if t.len() == 2 && t[0] == '\'' && 'a' <= t[1] && t[1] <= 'z' {
        reveal_strlit("true");
        reveal_strlit("false");
        assert(t != "true"@ && t != "false"@);
        assert(!t.contains('"')) by {
            if t.contains('"') {
                let j = choose|j: int| 0 <= j < t.len() && t[j] == '"';
                assert(j == 0 || j == 1);
            }
        }
    }
}

/// A group with no delimiter inside closes at the first closing delimiter; a
/// group holding one inner group closes at the closing delimiter after the
/// inner one's.
pub proof fn lemma_group_closes(toks: Seq<Seq<char>>, a: int, b: int, c: int)
    requires
        1 <= a < b < c < toks.len(),
        toks[a] == "("@ || toks[a] == "["@ || toks[a] == "{"@,
        toks[b] == ")"@ || toks[b] == "]"@ || toks[b] == "}"@,
        toks[c] == ")"@ || toks[c] == "]"@ || toks[c] == "}"@,
        forall|j: int| 1 <= j < c && j != a && j != b ==> !(#[trigger] toks[j] == "("@ || toks[j] == "["@
            || toks[j] == "{"@ || toks[j] == ")"@ || toks[j] == "]"@ || toks[j] == "}"@),
    ensures
        group_close(toks, 1, 0) == Some(c),
        group_close(toks, b + 1, 0) == Some(c),
        group_close(toks, a + 1, 0) == Some(b),
{
    reveal_strlit("(");
    reveal_strlit("[");
    reveal_strlit("{");
    reveal_strlit(")");
    reveal_strlit("]");
    reveal_strlit("}");
    assert("("@[0] == '(' && "["@[0] == '[' && "{"@[0] == '{');
    assert(")"@[0] == ')' && "]"@[0] == ']' && "}"@[0] == '}');
    assert(opens(toks[a]) && !closes(toks[a]));
    assert(closes(toks[b]) && !opens(toks[b]));
    assert(closes(toks[c]) && !opens(toks[c]));
    assert forall|j: int| 1 <= j < c && j != a && j != b implies !opens(#[trigger] toks[j]) && !closes(
        toks[j],
    ) by {
        assert(!(toks[j] == "("@ || toks[j] == "["@ || toks[j] == "{"@ || toks[j] == ")"@ || toks[j]
            == "]"@ || toks[j] == "}"@));
    }
    lemma_group_flat(toks, b + 1, c, 0);
    lemma_group_flat(toks, a + 1, b, 1);
    lemma_group_flat(toks, a + 1, b, 0);
    lemma_group_flat(toks, 1, a, 0);
    assert(group_close(toks, b, 1) == group_close(toks, b + 1, 0));
    assert(group_close(toks, a, 0) == group_close(toks, a + 1, 1));
}

proof fn lemma_group_flat(toks: Seq<Seq<char>>, k: int, end: int, depth: nat)
    requires
        0 <= k <= end < toks.len(),
        forall|j: int| k <= j < end ==> !opens(#[trigger] toks[j]) && !closes(toks[j]),
    ensures
        group_close(toks, k, depth) == group_close(toks, end, depth),
    decreases end - k,
{
    if k < end {
        assert(!opens(toks[k]) && !closes(toks[k]));
        lemma_group_flat(toks, k + 1, end, depth);
    }
}

fn char_ident_start(c: char) -> (r: bool)
    ensures
        r == ident_start(c),
{
    c == '_' || ('a' <= c && c <= 'z') || ('A' <= c && c <= 'Z') || c > '\u{7f}'
}

fn char_digit(c: char) -> (r: bool)
    ensures
        r == is_digit(c),
{
    '0' <= c && c <= '9'
}

fn char_ident(c: char) -> (r: bool)
    ensures
        r == ident_char(c),
{
    char_ident_start(c) || char_digit(c) || c == '#'
}

/// Whether `t` is the text of an identifier or a keyword.
pub fn is_ident(t: &str) -> (r: bool)
    ensures
        r == is_ident_text(t@),
{
    let cs = chars_of(t);
    if cs.len() == 0 || !char_ident_start(cs[0]) {
        return false;
    }
    let mut i: usize = 0;
    while i < cs.len()
        invariant
            i <= cs.len(),
            cs@ == t@,
            forall|j: int| 0 <= j < i ==> ident_char(#[trigger] cs@[j]),
        decreases cs.len() - i,
    {
        if !char_ident(cs[i]) {
            return false;
        }
        i = i + 1;
    }
    true
}

fn keyword_list() -> (r: Vec<String>)
    ensures
        texts(r@) == keywords(),
{
    let r = vec![
        token("_"), token("abstract"), token("as"), token("async"), token("await"),
        token("become"), token("box"), token("break"), token("const"), token("continue"),
        token("crate"), token("do"), token("dyn"), token("else"), token("enum"),
        token("extern"), token("false"), token("final"), token("fn"), token("for"),
        token("if"), token("impl"), token("in"), token("let"), token("loop"),
        token("macro"), token("match"), token("mod"), token("move"), token("mut"),
        token("override"), token("priv"), token("pub"), token("ref"), token("return"),
        token("Self"), token("self"), token("static"), token("struct"), token("super"),
        token("trait"), token("true"), token("try"), token("type"), token("typeof"),
        token("unsafe"), token("unsized"), token("use"), token("virtual"), token("where"),
        token("while"), token("yield"),
    ];
    assert(texts(r@) =~= keywords());
    r
}

/// Whether `t` is a keyword.
pub fn is_keyword(t: &str) -> (r: bool)
    ensures
        r == keywords().contains(t@),
{
    let kws = keyword_list();
    let ghost k = texts(kws@);
    let mut i: usize = 0;
    while i < kws.len()
        invariant
            i <= kws.len(),
            k == texts(kws@),
            k == keywords(),
            forall|j: int| 0 <= j < i ==> k[j] != t@,
        decreases kws.len() - i,
    {
        if str_eq(kws[i].as_str(), t) {
            assert(k[i as int] == t@);
            return true;
        }
        i = i + 1;
    }
    false
}

/// Whether `t` is a word of a statement: an identifier that is not a keyword.
pub fn is_word(t: &str) -> (r: bool)
    ensures
        r == is_word_text(t@),
{
    is_ident(t) && !is_keyword(t)
}

/// Whether `t` is the text of a literal.
pub fn is_literal(t: &str) -> (r: bool)
    ensures
        r == is_literal_text(t@),
{
    if str_eq(t, "true") || str_eq(t, "false") {
        return true;
    }
    let cs = chars_of(t);
    if cs.len() > 0 && char_digit(cs[0]) {
        return true;
    }
    if cs.len() >= 3 && cs[cs.len() - 1] == '\'' {
        return true;
    }
    let mut i: usize = 0;
    while i < cs.len()
        invariant
            i <= cs.len(),
            cs@ == t@,
            forall|j: int| 0 <= j < i ==> cs@[j] != '"',
        decreases cs.len() - i,
    {
        if cs[i] == '"' {
            assert(t@[i as int] == '"');
            return true;
        }
        i = i + 1;
    }
    false
}

/// Whether `t` is the text of a number literal.
pub fn is_number(t: &str) -> (r: bool)
    ensures
        r == is_number_text(t@),
{
    let cs = chars_of(t);
    cs.len() > 0 && char_digit(cs[0])
}

fn is_open(t: &str) -> (r: bool)
    ensures
        r == opens(t@),
{
    str_eq(t, "(") || str_eq(t, "[") || str_eq(t, "{")
}

fn is_close(t: &str) -> (r: bool)
    ensures
        r == closes(t@),
{
    str_eq(t, ")") || str_eq(t, "]") || str_eq(t, "}")
}

/// Where the group opened by the first token closes.
pub fn group_end(toks: &Vec<String>) -> (r: Option<usize>)
    ensures
        match group_close(texts(toks@), 1, 0) {
            Some(c) => r == Some(c as usize) && 1 <= c < toks.len(),
            None => r is None,
        },
{
    let ghost t = texts(toks@);
    let mut i: usize = 1;
    let mut depth: usize = 0;
    while i < toks.len()
        invariant
            1 <= i,
            depth < i,
            t == texts(toks@),
            group_close(t, 1, 0) == group_close(t, i as int, depth as nat),
        decreases toks.len() - i,
    {
        assert(t[i as int] == toks@[i as int]@);
        if is_open(toks[i].as_str()) {
            depth = depth + 1;
        } else if is_close(toks[i].as_str()) {
            if depth == 0 {
                return Some(i);
            }
            depth = depth - 1;
        }
        i = i + 1;
    }
    None
}

} // verus!
