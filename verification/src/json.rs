//! JSON values come from `serde_json`; this module holds the trusted contracts of
//! the few `serde_json` functions the library calls.

use vstd::prelude::*;

pub use serde_json::Value as JsonValue;

verus! {

/// A JSON document as `serde_json` represents it; the library carries it through
/// without looking inside.
#[verifier::external_type_specification]
#[verifier::external_body]
pub struct ExJsonValue(serde_json::Value);

/// `Clone` of a JSON value (derived in `serde_json`) copies it: the copy is the
/// same value.
pub assume_specification[ <serde_json::Value as Clone>::clone ](v: &serde_json::Value) -> (r:
    serde_json::Value)
    ensures
        r == *v,
;

/// A hexadecimal digit, lower case.
pub open spec fn hex_digit(d: nat) -> char {
    if d < 10 {
        ((d + 48) as u8) as char
    } else {
        ((d + 87) as u8) as char
    }
}

/// How `serde_json` writes a character inside a JSON string: `"` and `\` and
/// the control characters below U+0020 escaped (`\b`, `\t`, `\n`, `\f`, `\r`,
/// else `\u00XX` in lower case), every other character as it is.
pub open spec fn json_escape_char(c: char) -> Seq<char> {
    let u = c as u32;
    if c == '"' {
        seq!['\\', '"']
    } else if c == '\\' {
        seq!['\\', '\\']
    } else if u == 8 {
        seq!['\\', 'b']
    } else if u == 9 {
        seq!['\\', 't']
    } else if u == 10 {
        seq!['\\', 'n']
    } else if u == 12 {
        seq!['\\', 'f']
    } else if u == 13 {
        seq!['\\', 'r']
    } else if u < 32 {
        seq!['\\', 'u', '0', '0', hex_digit((u / 16) as nat), hex_digit((u % 16) as nat)]
    } else {
        seq![c]
    }
}

/// The characters of a text as they stand inside a JSON string.
pub open spec fn json_escaped(text: Seq<char>) -> Seq<char>
    decreases text.len(),
{
    if text.len() == 0 {
        Seq::empty()
    } else {
        json_escaped(text.drop_last()) + json_escape_char(text.last())
    }
}

/// The JSON text of a string: the escaped characters in double quotes.
pub open spec fn json_string_text(text: Seq<char>) -> Seq<char> {
    seq!['"'] + json_escaped(text) + seq!['"']
}

/// A character that stands for itself inside a JSON string.
pub open spec fn is_plain_json_char(c: char) -> bool {
    c != '"' && c != '\\' && (c as u32) >= 32
}

/// A text of characters that all stand for themselves inside a JSON string.
pub open spec fn is_plain_json_text(text: Seq<char>) -> bool {
    forall|i: int| 0 <= i < text.len() ==> is_plain_json_char(#[trigger] text[i])
}

/// `serde_json` reads the text in double quotes as the value `v`.
pub open spec fn reads_quoted_as(text: Seq<char>, v: JsonValue) -> bool {
    json_from_text(json_string_text(text)) == Ok::<JsonValue, Seq<char>>(v)
}

/// What `serde_json::from_str::<JsonValue>` gives for a text: the value,
/// or the error's message.
pub uninterp spec fn json_from_text(text: Seq<char>) -> Result<JsonValue, Seq<char>>;

/// Parses `text` with `serde_json::from_str::<JsonValue>`; an error is
/// turned into its display text. The contract only says that the result is the
/// one named by `json_from_text` for this text: which texts parse is left unsaid
/// here (see `string_value` for JSON strings without escapes).
#[verifier::external_body]
pub fn parse_json(text: &str) -> (r: Result<JsonValue, String>)
    ensures
        match r {
            Ok(v) => json_from_text(text@) == Ok::<serde_json::Value, Seq<char>>(v),
            Err(e) => json_from_text(text@) == Err::<serde_json::Value, Seq<char>>(e@),
        },
{
    serde_json::from_str::<JsonValue>(text).map_err(|e| e.to_string())
}

/// What `serde_json::Value::from(&str)` gives for a text: a JSON string value.
pub uninterp spec fn json_string_value(text: Seq<char>) -> JsonValue;

/// Makes a JSON string value of `text` with `serde_json::Value::from(&str)`; the
/// contract names the result by `json_string_value`, and says that its JSON text
/// (as `Display` writes it) is `text` escaped in double quotes, and that where no
/// character of `text` needs an escape, `serde_json::from_str` reads `text` in
/// double quotes as this same value.
#[verifier::external_body]
pub fn string_value(text: &str) -> (v: JsonValue)
    ensures
        v == json_string_value(text@),
        json_text_of(v) == json_string_text(text@),
        is_plain_json_text(text@) ==> reads_quoted_as(text@, v),
{
    JsonValue::from(text)
}

/// The JSON text `serde_json` displays for a value (`Display`, compact form).
pub uninterp spec fn json_text_of(v: serde_json::Value) -> Seq<char>;

/// Writes out a JSON value with `ToString::to_string` (its `Display`); the
/// contract names the text by `json_text_of`.
#[verifier::external_body]
pub fn json_text(v: &serde_json::Value) -> (s: String)
    ensures
        s@ == json_text_of(*v),
{
    v.to_string()
}

} // verus!
