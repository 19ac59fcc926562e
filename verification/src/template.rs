//! Mixed templates: a claim written in words, with placeholders that are either
//! ignored (`_`), pinned to a JSON value (`(json)` or `"text"`) or captured by
//! name (`/name/`). Parsing yields the template with every placeholder replaced by
//! `_`, and the placeholders in order.

use vstd::prelude::*;
use vstd::utf8::*;
use vstd::string::*;

use crate::json::{
    is_plain_json_char, is_plain_json_text, json_escape_char, json_escaped, json_from_text,
    json_string_text, json_string_value, parse_json, reads_quoted_as, string_value, JsonValue,
};
use crate::strings::{chars_of, decimal, decimal_string, push_char, str_get};

verus! {

broadcast use vstd::string::group_string_axioms;

/// One placeholder of a template.
#[derive(PartialEq, Debug)]
pub enum TemplatePlace {
    /// `_`: any value.
    Any,
    /// A fixed JSON value.
    Pin(JsonValue),
    /// `/name/`: a value bound to a name.
    Capture(String),
}

/// A placeholder as the contracts see it.
pub enum PlaceModel {
    Any,
    Pin(JsonValue),
    Capture(Seq<char>),
}

impl View for TemplatePlace {
    type V = PlaceModel;

    open spec fn view(&self) -> PlaceModel {
        match self {
            TemplatePlace::Any => PlaceModel::Any,
            TemplatePlace::Pin(v) => PlaceModel::Pin(*v),
            TemplatePlace::Capture(name) => PlaceModel::Capture(name@),
        }
    }
}

/// The placeholders of a sequence, as the contracts see them.
pub open spec fn places_model(places: Seq<TemplatePlace>) -> Seq<PlaceModel> {
    places.map_values(|p: TemplatePlace| p@)
}

/// A parsed template: the words with `_` for each placeholder, and the
/// placeholders in order.
#[derive(PartialEq, Debug)]
pub struct TemplateAndPlaces {
    template: String,
    places: Vec<TemplatePlace>,
}

impl TemplateAndPlaces {
    /// The template text, with `_` for each placeholder.
    pub closed spec fn template_view(&self) -> Seq<char> {
        self.template@
    }

    /// The placeholders, in order.
    pub closed spec fn places_view(&self) -> Seq<PlaceModel> {
        places_model(self.places@)
    }

    pub fn new(template: &str, places: Vec<TemplatePlace>) -> (r: Self)
        ensures
            r.template_view() == template@,
            r.places_view() == places_model(places@),
    {
        TemplateAndPlaces { template: template.to_owned(), places }
    }

    pub fn template(&self) -> (r: &String)
        ensures
            r@ == self.template_view(),
    {
        &self.template
    }

    pub fn places(&self) -> (r: &Vec<TemplatePlace>)
        ensures
            places_model(r@) == self.places_view(),
    {
        &self.places
    }
}

/// Where the scanner stands: at the top level, or inside a placeholder that
/// started at the given character position.
pub enum ScanMode {
    Top,
    /// Inside `( .. )`, outside any quoted string.
    Group(usize),
    /// Inside a quoted string within `( .. )`.
    GroupQuote(usize),
    /// Inside `/ .. /`.
    Capture(usize),
    /// Inside `" .. "` at the top level.
    Quote(usize),
}

/// How parsing a template ends.
pub enum TemplateOutcome {
    Parsed(Seq<char>, Seq<PlaceModel>),
    Failed(Seq<char>),
    /// The text between two delimiters is cut at positions that split a
    /// character (positions are counted in characters and applied to bytes).
    Panics,
}

/// Characters that stand for themselves in a template.
pub open spec fn is_word_char(c: char) -> bool {
    ('a' <= c && c <= 'z') || ('A' <= c && c <= 'Z') || c == ' '
}

/// The text of `s` between byte positions `from` and `to`, where both fall on
/// character boundaries of its UTF-8 encoding.
pub open spec fn byte_slice(s: Seq<char>, from: int, to: int) -> Option<Seq<char>> {
    let bytes = encode_utf8(s);
    if from <= to && is_char_boundary(bytes, from) && is_char_boundary(bytes, to) {
        Some(decode_utf8(bytes.subrange(from, to)))
    } else {
        None
    }
}

pub open spec fn json_error_message(i: nat, j: nat, e: Seq<char>) -> Seq<char> {
    "Error parsing template's JSON ("@ + decimal(i) + ", "@ + decimal(j) + "): "@ + e
}

pub open spec fn nested_paren_message(i: nat, j: nat) -> Seq<char> {
    "Unexpected '(' in template while skimming JSON from position "@ + decimal(i) + " to "@
        + decimal(j)
}

pub open spec fn close_paren_message(i: nat) -> Seq<char> {
    "Unexpected ')' in template at position: "@ + decimal(i)
}

pub open spec fn unexpected_char_message(c: char, i: nat) -> Seq<char> {
    "Unexpected '"@.push(c) + "' in template at position: "@ + decimal(i)
}

/// The template scanner, from character position `k` in mode `mode`, with the
/// template text `tpl` and the placeholders `places` gathered so far.
pub open spec fn scan(
    s: Seq<char>,
    k: int,
    mode: ScanMode,
    tpl: Seq<char>,
    places: Seq<PlaceModel>,
) -> TemplateOutcome
    decreases s.len() + 1 - k,
{
    if k < 0 || k >= s.len() {
        TemplateOutcome::Parsed(tpl, places)
    } else {
        let c = s[k];
        match mode {
            ScanMode::Top => {
                if c == '(' {
                    scan(s, k + 1, ScanMode::Group(k as usize), tpl.push('_'), places)
                } else if c == '/' {
                    scan(s, k + 1, ScanMode::Capture(k as usize), tpl.push('_'), places)
                } else if c == '_' {
                    scan(s, k + 1, ScanMode::Top, tpl.push('_'), places.push(PlaceModel::Any))
                } else if c == '"' {
                    scan(s, k + 1, ScanMode::Quote(k as usize), tpl.push('_'), places)
                } else if c == ')' {
                    TemplateOutcome::Failed(close_paren_message(k as nat))
                } else if is_word_char(c) {
                    scan(s, k + 1, ScanMode::Top, tpl.push(c), places)
                } else {
                    TemplateOutcome::Failed(unexpected_char_message(c, k as nat))
                }
            },
            ScanMode::Group(i) => {
                if c == '"' {
                    scan(s, k + 1, ScanMode::GroupQuote(i), tpl, places)
                } else if c == ')' {
                    match byte_slice(s, i + 1, k) {
                        None => TemplateOutcome::Panics,
                        Some(text) => match json_from_text(text) {
                            Ok(v) => scan(
                                s,
                                k + 1,
                                ScanMode::Top,
                                tpl,
                                places.push(PlaceModel::Pin(v)),
                            ),
                            Err(e) => TemplateOutcome::Failed(
                                json_error_message(i as nat, k as nat, e),
                            ),
                        },
                    }
                } else if c == '(' {
                    TemplateOutcome::Failed(nested_paren_message(i as nat, k as nat))
                } else {
                    scan(s, k + 1, ScanMode::Group(i), tpl, places)
                }
            },
            ScanMode::GroupQuote(i) => {
                if c == '\\' {
                    scan(s, k + 2, ScanMode::GroupQuote(i), tpl, places)
                } else if c == '"' {
                    scan(s, k + 1, ScanMode::Group(i), tpl, places)
                } else {
                    scan(s, k + 1, ScanMode::GroupQuote(i), tpl, places)
                }
            },
            ScanMode::Capture(i) => {
                if c == '/' {
                    match byte_slice(s, i + 1, k) {
                        None => TemplateOutcome::Panics,
                        Some(name) => scan(
                            s,
                            k + 1,
                            ScanMode::Top,
                            tpl,
                            places.push(PlaceModel::Capture(name)),
                        ),
                    }
                } else {
                    scan(s, k + 1, ScanMode::Capture(i), tpl, places)
                }
            },
            ScanMode::Quote(i) => {
                if c == '\\' {
                    scan(s, k + 2, ScanMode::Quote(i), tpl, places)
                } else if c == '"' {
                    match byte_slice(s, i + 1, k) {
                        None => TemplateOutcome::Panics,
                        Some(text) => scan(
                            s,
                            k + 1,
                            ScanMode::Top,
                            tpl,
                            places.push(PlaceModel::Pin(json_string_value(text))),
                        ),
                    }
                } else {
                    scan(s, k + 1, ScanMode::Quote(i), tpl, places)
                }
            },
        }
    }
}

/// How parsing the template `s` ends.
pub open spec fn template_outcome(s: Seq<char>) -> TemplateOutcome {
    scan(s, 0, ScanMode::Top, Seq::empty(), Seq::empty())
}


/// The text of `s` between byte positions `from` and `to`, which the template
/// scanner reaches only when the cut is on character boundaries.
fn cut<'a>(s: &'a str, from: usize, to: usize) -> (r: Option<&'a str>)
    ensures
        match r {
            Some(t) => byte_slice(s@, from as int, to as int) == Some(t@),
            None => byte_slice(s@, from as int, to as int) is None,
        },
{
    let r = str_get(s, from, to);
    proof {
        broadcast use encode_utf8_decode_utf8;

        assert(s.spec_bytes() == encode_utf8(s@));
        if let Some(t) = r {
            assert(t.spec_bytes() == encode_utf8(t@));
            assert(decode_utf8(encode_utf8(t@)) == t@);
        }
    }
    r
}

fn json_error_string(i: usize, j: usize, e: &str) -> (r: String)
    ensures
        r@ == json_error_message(i as nat, j as nat, e@),
{
    let mut m = String::from_str("Error parsing template's JSON (");
    m.append(decimal_string(i).as_str());
    m.append(", ");
    m.append(decimal_string(j).as_str());
    m.append("): ");
    m.append(e);
    m
}

fn nested_paren_string(i: usize, j: usize) -> (r: String)
    ensures
        r@ == nested_paren_message(i as nat, j as nat),
{
    let mut m = String::from_str("Unexpected '(' in template while skimming JSON from position ");
    m.append(decimal_string(i).as_str());
    m.append(" to ");
    m.append(decimal_string(j).as_str());
    m
}

fn close_paren_string(i: usize) -> (r: String)
    ensures
        r@ == close_paren_message(i as nat),
{
    let mut m = String::from_str("Unexpected ')' in template at position: ");
    m.append(decimal_string(i).as_str());
    m
}

fn unexpected_char_string(c: char, i: usize) -> (r: String)
    ensures
        r@ == unexpected_char_message(c, i as nat),
{
    let mut m = String::from_str("Unexpected '");
    push_char(&mut m, c);
    m.append("' in template at position: ");
    m.append(decimal_string(i).as_str());
    m
}

/// What a `( .. )` placeholder holding `text` adds, given what parsing `text` as
/// JSON gave: the pinned value, or the error message for the placeholder that
/// runs from character `i` to character `j`.
pub fn json_place(parsed: Result<JsonValue, String>, i: usize, j: usize) -> (r: Result<
    TemplatePlace,
    String,
>)
    ensures
        match parsed {
            Ok(v) => r == Ok::<TemplatePlace, String>(TemplatePlace::Pin(v)),
            Err(e) => r matches Err(m) && m@ == json_error_message(i as nat, j as nat, e@),
        },
{
    match parsed {
        Ok(v) => Ok(TemplatePlace::Pin(v)),
        Err(e) => Err(json_error_string(i, j, e.as_str())),
    }
}

/// Parses a mixed template. Words (`a`-`z`, `A`-`Z`, spaces) stay as they are;
/// each placeholder becomes `_` in the template and adds a place: `_` is any
/// value, `(json)` pins the JSON value it holds, `"text"` pins the string
/// `text` as it stands (escapes kept), and `/name/` captures `name`. A `)` at the
/// top level, a `(` inside `( .. )`, invalid JSON and any other character are
/// errors. A placeholder left open at the end of the text adds its `_` only.
pub fn parse_template_and_values(s: &str) -> (r: Result<TemplateAndPlaces, String>)
    requires
        !(template_outcome(s@) is Panics),
    ensures
        match template_outcome(s@) {
            TemplateOutcome::Parsed(tpl, places) => r matches Ok(t) && t.template_view() == tpl
                && t.places_view() == places,
            TemplateOutcome::Failed(m) => r matches Err(e) && e@ == m,
            TemplateOutcome::Panics => false,
        },
{
    match parse_template_checked(s) {
        Some(r) => r,
        None => {
            assert(false);
            Err(String::new())
        },
    }
}

/// Parses a mixed template as `parse_template_and_values` does, where the text
/// between a placeholder's delimiters can be cut out; none where a cut would
/// split a character (which happens only on text that is not ASCII).
pub fn parse_template_checked(s: &str) -> (r: Option<Result<TemplateAndPlaces, String>>)
    ensures
        match template_outcome(s@) {
            TemplateOutcome::Parsed(tpl, places) => r matches Some(Ok(t)) && t.template_view()
                == tpl && t.places_view() == places,
            TemplateOutcome::Failed(m) => r matches Some(Err(e)) && e@ == m,
            TemplateOutcome::Panics => r is None,
        },
{
    let cs = chars_of(s);
    let n = cs.len();
    let mut k: usize = 0;
    let mut mode = ScanMode::Top;
    let mut template = String::new();
    let mut places: Vec<TemplatePlace> = Vec::new();
    assert(places_model(places@) =~= Seq::<PlaceModel>::empty());
    while k < n
        invariant
            cs@ == s@,
            n == cs.len(),
            k <= n,
            scan(s@, k as int, mode, template@, places_model(places@)) == template_outcome(s@),
            match mode {
                ScanMode::Top => true,
                ScanMode::Group(i) => i < k,
                ScanMode::GroupQuote(i) => i < k,
                ScanMode::Capture(i) => i < k,
                ScanMode::Quote(i) => i < k,
            },
        decreases n - k,
    {
        let c = cs[k];
        let ghost pm = places_model(places@);
        match mode {
            ScanMode::Top => {
                if c == '(' {
                    push_char(&mut template, '_');
                    mode = ScanMode::Group(k);
                } else if c == '/' {
                    push_char(&mut template, '_');
                    mode = ScanMode::Capture(k);
                } else if c == '_' {
                    push_char(&mut template, '_');
                    places.push(TemplatePlace::Any);
                    assert(places_model(places@) =~= pm.push(PlaceModel::Any));
                } else if c == '"' {
                    push_char(&mut template, '_');
                    mode = ScanMode::Quote(k);
                } else if c == ')' {
                    return Some(Err(close_paren_string(k)));
                } else if ('a' <= c && c <= 'z') || ('A' <= c && c <= 'Z') || c == ' ' {
                    push_char(&mut template, c);
                } else {
                    return Some(Err(unexpected_char_string(c, k)));
                }
                k = k + 1;
                assert(scan(s@, k as int, mode, template@, places_model(places@)) == template_outcome(s@));
            },
            ScanMode::Group(i) => {
                if c == '"' {
                    mode = ScanMode::GroupQuote(i);
                } else if c == ')' {
                    match cut(s, i + 1, k) {
                        Some(text) => {
                            let parsed = parse_json(text);
                            match json_place(parsed, i, k) {
                                Ok(place) => {
                                    places.push(place);
                                    assert(places_model(places@) =~= pm.push(place@));
                                    mode = ScanMode::Top;
                                },
                                Err(e) => {
                                    return Some(Err(e));
                                },
                            }
                        },
                        None => {
                            return None;
                        },
                    }
                } else if c == '(' {
                    return Some(Err(nested_paren_string(i, k)));
                }
                k = k + 1;
                assert(scan(s@, k as int, mode, template@, places_model(places@)) == template_outcome(s@));
            },
            ScanMode::GroupQuote(i) => {
                if c == '\\' {
                    if k + 1 < n {
                        k = k + 2;
                    } else {
                        assert(scan(s@, k + 2, mode, template@, places_model(places@))
                            == scan(s@, n as int, mode, template@, places_model(places@)));
                        k = n;
                    }
                } else {
                    if c == '"' {
                        mode = ScanMode::Group(i);
                    }
                    k = k + 1;
                }
            },
            ScanMode::Capture(i) => {
                if c == '/' {
                    match cut(s, i + 1, k) {
                        Some(name) => {
                            let place = TemplatePlace::Capture(name.to_owned());
                            places.push(place);
                            assert(places_model(places@) =~= pm.push(place@));
                            mode = ScanMode::Top;
                        },
                        None => {
                            return None;
                        },
                    }
                }
                k = k + 1;
                assert(scan(s@, k as int, mode, template@, places_model(places@)) == template_outcome(s@));
            },
            ScanMode::Quote(i) => {
                if c == '\\' {
                    if k + 1 < n {
                        k = k + 2;
                    } else {
                        assert(scan(s@, k + 2, mode, template@, places_model(places@))
                            == scan(s@, n as int, mode, template@, places_model(places@)));
                        k = n;
                    }
                } else {
                    if c == '"' {
                        match cut(s, i + 1, k) {
                            Some(text) => {
                                let place = TemplatePlace::Pin(string_value(text));
                                places.push(place);
                                assert(places_model(places@) =~= pm.push(place@));
                                mode = ScanMode::Top;
                            },
                            None => {
                                return None;
                            },
                        }
                    }
                    k = k + 1;
                }
            },
        }
    }
    Some(Ok(TemplateAndPlaces { template, places }))
}


/// On ASCII text, byte positions are character positions: every cut between
/// two positions within the text is the plain subrange.
pub proof fn lemma_ascii_byte_slice(s: Seq<char>, from: int, to: int)
    requires
        is_ascii_chars(s),
        0 <= from <= to <= s.len(),
    ensures
        byte_slice(s, from, to) == Some(s.subrange(from, to)),
{
    let bytes = encode_utf8(s);
    is_ascii_chars_encode_utf8(s);
    encode_utf8_valid_utf8(s);
    assert forall|idx: int| 0 <= idx <= bytes.len() implies is_char_boundary(bytes, idx) by {
        if idx == bytes.len() {
            is_char_boundary_start_end_of_seq(bytes);
        } else {
            is_char_boundary_iff_is_leading_byte(bytes, idx);
            assert('\0' <= s[idx] <= '\u{7f}');
            assert(s[idx] as u8 == bytes[idx]);
        }
    }
    let sub = s.subrange(from, to);
    assert(is_ascii_chars(sub));
    is_ascii_chars_encode_utf8(sub);
    assert(encode_utf8(sub) =~= bytes.subrange(from, to));
    encode_utf8_decode_utf8(sub);
}

proof fn lemma_ascii_scan_never_panics(
    s: Seq<char>,
    k: int,
    mode: ScanMode,
    tpl: Seq<char>,
    places: Seq<PlaceModel>,
)
    requires
        is_ascii_chars(s),
        match mode {
            ScanMode::Top => true,
            ScanMode::Group(i) => i < k,
            ScanMode::GroupQuote(i) => i < k,
            ScanMode::Capture(i) => i < k,
            ScanMode::Quote(i) => i < k,
        },
    ensures
        !(scan(s, k, mode, tpl, places) is Panics),
    decreases s.len() + 1 - k,
{
    if k < 0 || k >= s.len() {
    } else {
        let c = s[k];
        match mode {
            ScanMode::Top => {
                if c == '(' {
                    lemma_ascii_scan_never_panics(s, k + 1, ScanMode::Group(k as usize), tpl.push('_'), places);
                } else if c == '/' {
                    lemma_ascii_scan_never_panics(s, k + 1, ScanMode::Capture(k as usize), tpl.push('_'), places);
                } else if c == '_' {
                    lemma_ascii_scan_never_panics(s, k + 1, ScanMode::Top, tpl.push('_'), places.push(PlaceModel::Any));
                } else if c == '"' {
                    lemma_ascii_scan_never_panics(s, k + 1, ScanMode::Quote(k as usize), tpl.push('_'), places);
                } else if c == ')' {
                } else if is_word_char(c) {
                    lemma_ascii_scan_never_panics(s, k + 1, ScanMode::Top, tpl.push(c), places);
                }
            },
            ScanMode::Group(i) => {
                if c == '"' {
                    lemma_ascii_scan_never_panics(s, k + 1, ScanMode::GroupQuote(i), tpl, places);
                } else if c == ')' {
                    lemma_ascii_byte_slice(s, i + 1, k);
                    let text = s.subrange(i + 1, k);
                    if let Ok(v) = json_from_text(text) {
                        lemma_ascii_scan_never_panics(s, k + 1, ScanMode::Top, tpl, places.push(PlaceModel::Pin(v)));
                    }
                } else if c == '(' {
                } else {
                    lemma_ascii_scan_never_panics(s, k + 1, ScanMode::Group(i), tpl, places);
                }
            },
            ScanMode::GroupQuote(i) => {
                if c == '\\' {
                    lemma_ascii_scan_never_panics(s, k + 2, ScanMode::GroupQuote(i), tpl, places);
                } else if c == '"' {
                    lemma_ascii_scan_never_panics(s, k + 1, ScanMode::Group(i), tpl, places);
                } else {
                    lemma_ascii_scan_never_panics(s, k + 1, ScanMode::GroupQuote(i), tpl, places);
                }
            },
            ScanMode::Capture(i) => {
                if c == '/' {
                    lemma_ascii_byte_slice(s, i + 1, k);
                    lemma_ascii_scan_never_panics(s, k + 1, ScanMode::Top, tpl, places.push(PlaceModel::Capture(s.subrange(i + 1, k))));
                } else {
                    lemma_ascii_scan_never_panics(s, k + 1, ScanMode::Capture(i), tpl, places);
                }
            },
            ScanMode::Quote(i) => {
                if c == '\\' {
                    lemma_ascii_scan_never_panics(s, k + 2, ScanMode::Quote(i), tpl, places);
                } else if c == '"' {
                    lemma_ascii_byte_slice(s, i + 1, k);
                    lemma_ascii_scan_never_panics(s, k + 1, ScanMode::Top, tpl, places.push(PlaceModel::Pin(json_string_value(s.subrange(i + 1, k)))));
                } else {
                    lemma_ascii_scan_never_panics(s, k + 1, ScanMode::Quote(i), tpl, places);
                }
            },
        }
    }
}

/// A template written in ASCII can always be parsed: the parser reaches a
/// result or an error on it, and every placeholder's text is the plain text
/// between its delimiters.
pub proof fn lemma_ascii_templates_never_panic(s: Seq<char>)
    requires
        is_ascii_chars(s),
    ensures
        !(template_outcome(s) is Panics),
{
    lemma_ascii_scan_never_panics(s, 0, ScanMode::Top, Seq::empty(), Seq::empty());
}


/// How many `_` a text holds.
pub open spec fn underscores(t: Seq<char>) -> nat
    decreases t.len(),
{
    if t.len() == 0 {
        0
    } else {
        underscores(t.drop_last()) + if t.last() == '_' { 1nat } else { 0nat }
    }
}

/// A template text: words and `_` only.
pub open spec fn template_chars(t: Seq<char>) -> bool {
    forall|i: int| 0 <= i < t.len() ==> is_word_char(#[trigger] t[i]) || t[i] == '_'
}

proof fn lemma_push_shape(t: Seq<char>, c: char)
    requires
        template_chars(t),
        is_word_char(c) || c == '_',
    ensures
        template_chars(t.push(c)),
        underscores(t.push(c)) == underscores(t) + if c == '_' { 1nat } else { 0nat },
{
    assert(t.push(c).drop_last() =~= t);
}

proof fn lemma_scan_shape(
    s: Seq<char>,
    k: int,
    mode: ScanMode,
    tpl: Seq<char>,
    places: Seq<PlaceModel>,
)
    requires
        template_chars(tpl),
        underscores(tpl) == places.len() + if mode is Top { 0nat } else { 1nat },
    ensures
        scan(s, k, mode, tpl, places) matches TemplateOutcome::Parsed(t, p) ==> template_chars(t)
            && p.len() <= underscores(t) <= p.len() + 1,
    decreases s.len() + 1 - k,
{
    if k < 0 || k >= s.len() {
    } else {
        let c = s[k];
        match mode {
            ScanMode::Top => {
                if c == '(' || c == '/' || c == '"' {
                    lemma_push_shape(tpl, '_');
                    let m = if c == '(' {
                        ScanMode::Group(k as usize)
                    } else if c == '/' {
                        ScanMode::Capture(k as usize)
                    } else {
                        ScanMode::Quote(k as usize)
                    };
                    lemma_scan_shape(s, k + 1, m, tpl.push('_'), places);
                } else if c == '_' {
                    lemma_push_shape(tpl, '_');
                    lemma_scan_shape(s, k + 1, ScanMode::Top, tpl.push('_'), places.push(PlaceModel::Any));
                } else if c == ')' {
                } else if is_word_char(c) {
                    lemma_push_shape(tpl, c);
                    lemma_scan_shape(s, k + 1, ScanMode::Top, tpl.push(c), places);
                }
            },
            ScanMode::Group(i) => {
                if c == '"' {
                    lemma_scan_shape(s, k + 1, ScanMode::GroupQuote(i), tpl, places);
                } else if c == ')' {
                    if let Some(text) = byte_slice(s, i + 1, k) {
                        if let Ok(v) = json_from_text(text) {
                            lemma_scan_shape(s, k + 1, ScanMode::Top, tpl, places.push(PlaceModel::Pin(v)));
                        }
                    }
                } else if c == '(' {
                } else {
                    lemma_scan_shape(s, k + 1, ScanMode::Group(i), tpl, places);
                }
            },
            ScanMode::GroupQuote(i) => {
                if c == '\\' {
                    lemma_scan_shape(s, k + 2, ScanMode::GroupQuote(i), tpl, places);
                } else if c == '"' {
                    lemma_scan_shape(s, k + 1, ScanMode::Group(i), tpl, places);
                } else {
                    lemma_scan_shape(s, k + 1, ScanMode::GroupQuote(i), tpl, places);
                }
            },
            ScanMode::Capture(i) => {
                if c == '/' {
                    if let Some(name) = byte_slice(s, i + 1, k) {
                        lemma_scan_shape(s, k + 1, ScanMode::Top, tpl, places.push(PlaceModel::Capture(name)));
                    }
                } else {
                    lemma_scan_shape(s, k + 1, ScanMode::Capture(i), tpl, places);
                }
            },
            ScanMode::Quote(i) => {
                if c == '\\' {
                    lemma_scan_shape(s, k + 2, ScanMode::Quote(i), tpl, places);
                } else if c == '"' {
                    if let Some(text) = byte_slice(s, i + 1, k) {
                        lemma_scan_shape(s, k + 1, ScanMode::Top, tpl, places.push(PlaceModel::Pin(json_string_value(text))));
                    }
                } else {
                    lemma_scan_shape(s, k + 1, ScanMode::Quote(i), tpl, places);
                }
            },
        }
    }
}

/// A parsed template holds only words and `_`, and every place stands as one
/// `_` in it; one more `_` is there when the text ends inside a placeholder.
pub proof fn lemma_parsed_template_shape(s: Seq<char>)
    ensures
        template_outcome(s) matches TemplateOutcome::Parsed(t, p) ==> template_chars(t)
            && p.len() <= underscores(t) <= p.len() + 1,
{
    lemma_scan_shape(s, 0, ScanMode::Top, Seq::empty(), Seq::empty());
}


/// Every placeholder the scanner is inside started before position `k`.
pub open spec fn starts_before(mode: ScanMode, k: int) -> bool {
    match mode {
        ScanMode::Top => true,
        ScanMode::Group(i) => i < k,
        ScanMode::GroupQuote(i) => i < k,
        ScanMode::Capture(i) => i < k,
        ScanMode::Quote(i) => i < k,
    }
}

/// Scanning `a + b` takes the same steps as scanning `a` while it stays within
/// `a`: an error in `a` is the error of `a + b`, and where `a` ends at the top
/// level, the scan of `a + b` goes on from the end of `a` with what `a` gave.
proof fn lemma_scan_prefix(
    a: Seq<char>,
    b: Seq<char>,
    k: int,
    mode: ScanMode,
    tpl: Seq<char>,
    places: Seq<PlaceModel>,
)
    requires
        is_ascii_chars(a + b),
        0 <= k <= a.len(),
        starts_before(mode, k),
        template_chars(tpl),
        underscores(tpl) == places.len() + if mode is Top { 0nat } else { 1nat },
    ensures
        scan(a, k, mode, tpl, places) matches TemplateOutcome::Failed(e) ==> scan(a + b, k, mode, tpl, places)
            == TemplateOutcome::Failed(e),
        scan(a, k, mode, tpl, places) matches TemplateOutcome::Parsed(t, p) ==> (underscores(t) == p.len()
            ==> scan(a + b, k, mode, tpl, places) == scan(a + b, a.len() as int, ScanMode::Top, t, p)),
    decreases a.len() + 1 - k,
{
    let ab = a + b;
    if k == a.len() {
    } else {
        let c = a[k];
        assert(ab[k] == c);
        match mode {
            ScanMode::Top => {
                if c == '(' || c == '/' || c == '"' {
                    lemma_push_shape(tpl, '_');
                    let m = if c == '(' {
                        ScanMode::Group(k as usize)
                    } else if c == '/' {
                        ScanMode::Capture(k as usize)
                    } else {
                        ScanMode::Quote(k as usize)
                    };
                    lemma_scan_prefix(a, b, k + 1, m, tpl.push('_'), places);
                } else if c == '_' {
                    lemma_push_shape(tpl, '_');
                    lemma_scan_prefix(a, b, k + 1, ScanMode::Top, tpl.push('_'), places.push(PlaceModel::Any));
                } else if c == ')' {
                } else if is_word_char(c) {
                    lemma_push_shape(tpl, c);
                    lemma_scan_prefix(a, b, k + 1, ScanMode::Top, tpl.push(c), places);
                }
            },
            ScanMode::Group(i) => {
                if c == '"' {
                    lemma_scan_prefix(a, b, k + 1, ScanMode::GroupQuote(i), tpl, places);
                } else if c == ')' {
                    lemma_cut_within_prefix(a, b, i + 1, k);
                    let text = a.subrange(i + 1, k);
                    if let Ok(v) = json_from_text(text) {
                        lemma_scan_prefix(a, b, k + 1, ScanMode::Top, tpl, places.push(PlaceModel::Pin(v)));
                    }
                } else if c == '(' {
                } else {
                    lemma_scan_prefix(a, b, k + 1, ScanMode::Group(i), tpl, places);
                }
            },
            ScanMode::GroupQuote(i) => {
                if c == '\\' {
                    if k + 2 <= a.len() {
                        lemma_scan_prefix(a, b, k + 2, ScanMode::GroupQuote(i), tpl, places);
                    }
                } else if c == '"' {
                    lemma_scan_prefix(a, b, k + 1, ScanMode::Group(i), tpl, places);
                } else {
                    lemma_scan_prefix(a, b, k + 1, ScanMode::GroupQuote(i), tpl, places);
                }
            },
            ScanMode::Capture(i) => {
                if c == '/' {
                    lemma_cut_within_prefix(a, b, i + 1, k);
                    lemma_scan_prefix(a, b, k + 1, ScanMode::Top, tpl, places.push(PlaceModel::Capture(a.subrange(i + 1, k))));
                } else {
                    lemma_scan_prefix(a, b, k + 1, ScanMode::Capture(i), tpl, places);
                }
            },
            ScanMode::Quote(i) => {
                if c == '\\' {
                    if k + 2 <= a.len() {
                        lemma_scan_prefix(a, b, k + 2, ScanMode::Quote(i), tpl, places);
                    }
                } else if c == '"' {
                    lemma_cut_within_prefix(a, b, i + 1, k);
                    lemma_scan_prefix(a, b, k + 1, ScanMode::Top, tpl, places.push(PlaceModel::Pin(json_string_value(a.subrange(i + 1, k)))));
                } else {
                    lemma_scan_prefix(a, b, k + 1, ScanMode::Quote(i), tpl, places);
                }
            },
        }
    }
}

/// A cut of `a + b` that lies within `a` is the same cut of `a`.
proof fn lemma_cut_within_prefix(a: Seq<char>, b: Seq<char>, from: int, to: int)
    requires
        is_ascii_chars(a + b),
        0 <= from <= to <= a.len(),
    ensures
        byte_slice(a + b, from, to) == Some(a.subrange(from, to)),
        byte_slice(a, from, to) == Some(a.subrange(from, to)),
{
    let ab = a + b;
    assert(is_ascii_chars(a)) by {
        assert forall|i: int| 0 <= i < a.len() implies '\0' <= #[trigger] a[i] <= '\u{7f}' by {
            assert(ab[i] == a[i]);
        }
    }
    lemma_ascii_byte_slice(ab, from, to);
    lemma_ascii_byte_slice(a, from, to);
    assert(ab.subrange(from, to) =~= a.subrange(from, to));
}


/// A scanner mode whose placeholder start is moved `n` characters on.
pub open spec fn shift_mode(mode: ScanMode, n: int) -> ScanMode {
    match mode {
        ScanMode::Top => ScanMode::Top,
        ScanMode::Group(i) => ScanMode::Group((i + n) as usize),
        ScanMode::GroupQuote(i) => ScanMode::GroupQuote((i + n) as usize),
        ScanMode::Capture(i) => ScanMode::Capture((i + n) as usize),
        ScanMode::Quote(i) => ScanMode::Quote((i + n) as usize),
    }
}

/// Scanning `b` after `a` as part of `a + b` takes the same steps as scanning
/// `b` alone: what `b` adds is added after what came before, and where `b` has
/// an error, so has `a + b` (at positions moved by the length of `a`).
proof fn lemma_scan_suffix(
    a: Seq<char>,
    b: Seq<char>,
    k: int,
    mode: ScanMode,
    t: Seq<char>,
    p: Seq<PlaceModel>,
    pre_t: Seq<char>,
    pre_p: Seq<PlaceModel>,
)
    requires
        is_ascii_chars(a + b),
        a.len() + b.len() <= usize::MAX,
        0 <= k,
        starts_before(mode, k),
    ensures
        scan(b, k, mode, t, p) matches TemplateOutcome::Parsed(t2, p2) ==> scan(
            a + b,
            a.len() + k,
            shift_mode(mode, a.len() as int),
            pre_t + t,
            pre_p + p,
        ) == TemplateOutcome::Parsed(pre_t + t2, pre_p + p2),
        scan(b, k, mode, t, p) is Failed ==> scan(
            a + b,
            a.len() + k,
            shift_mode(mode, a.len() as int),
            pre_t + t,
            pre_p + p,
        ) is Failed,
    decreases b.len() + 1 - k,
{
    let ab = a + b;
    let n = a.len() as int;
    if k >= b.len() {
    } else {
        let c = b[k];
        assert(ab[n + k] == c);
        let sm = shift_mode(mode, n);
        match mode {
            ScanMode::Top => {
                if c == '(' || c == '/' || c == '"' || c == '_' || (c != ')' && is_word_char(c)) {
                    let m = if c == '(' {
                        ScanMode::Group(k as usize)
                    } else if c == '/' {
                        ScanMode::Capture(k as usize)
                    } else if c == '"' {
                        ScanMode::Quote(k as usize)
                    } else {
                        ScanMode::Top
                    };
                    let ch = if is_word_char(c) { c } else { '_' };
                    let p1 = if c == '_' { p.push(PlaceModel::Any) } else { p };
                    lemma_scan_suffix(a, b, k + 1, m, t.push(ch), p1, pre_t, pre_p);
                    assert(pre_t + t.push(ch) =~= (pre_t + t).push(ch));
                    assert(pre_p + p.push(PlaceModel::Any) =~= (pre_p + p).push(PlaceModel::Any));
                    assert(shift_mode(m, n) == if c == '(' {
                        ScanMode::Group((n + k) as usize)
                    } else if c == '/' {
                        ScanMode::Capture((n + k) as usize)
                    } else if c == '"' {
                        ScanMode::Quote((n + k) as usize)
                    } else {
                        ScanMode::Top
                    });
                }
            },
            ScanMode::Group(i) => {
                if c == '"' {
                    lemma_scan_suffix(a, b, k + 1, ScanMode::GroupQuote(i), t, p, pre_t, pre_p);
                } else if c == ')' {
                    lemma_cut_within_suffix(a, b, i + 1, k);
                    let text = b.subrange(i + 1, k);
                    if let Ok(v) = json_from_text(text) {
                        lemma_scan_suffix(a, b, k + 1, ScanMode::Top, t, p.push(PlaceModel::Pin(v)), pre_t, pre_p);
                        assert(pre_p + p.push(PlaceModel::Pin(v)) =~= (pre_p + p).push(PlaceModel::Pin(v)));
                    }
                } else if c == '(' {
                } else {
                    lemma_scan_suffix(a, b, k + 1, ScanMode::Group(i), t, p, pre_t, pre_p);
                }
            },
            ScanMode::GroupQuote(i) => {
                if c == '\\' {
                    lemma_scan_suffix(a, b, k + 2, ScanMode::GroupQuote(i), t, p, pre_t, pre_p);
                } else if c == '"' {
                    lemma_scan_suffix(a, b, k + 1, ScanMode::Group(i), t, p, pre_t, pre_p);
                } else {
                    lemma_scan_suffix(a, b, k + 1, ScanMode::GroupQuote(i), t, p, pre_t, pre_p);
                }
            },
            ScanMode::Capture(i) => {
                if c == '/' {
                    lemma_cut_within_suffix(a, b, i + 1, k);
                    let name = b.subrange(i + 1, k);
                    lemma_scan_suffix(a, b, k + 1, ScanMode::Top, t, p.push(PlaceModel::Capture(name)), pre_t, pre_p);
                    assert(pre_p + p.push(PlaceModel::Capture(name)) =~= (pre_p + p).push(PlaceModel::Capture(name)));
                } else {
                    lemma_scan_suffix(a, b, k + 1, ScanMode::Capture(i), t, p, pre_t, pre_p);
                }
            },
            ScanMode::Quote(i) => {
                if c == '\\' {
                    lemma_scan_suffix(a, b, k + 2, ScanMode::Quote(i), t, p, pre_t, pre_p);
                } else if c == '"' {
                    lemma_cut_within_suffix(a, b, i + 1, k);
                    let pin = PlaceModel::Pin(json_string_value(b.subrange(i + 1, k)));
                    lemma_scan_suffix(a, b, k + 1, ScanMode::Top, t, p.push(pin), pre_t, pre_p);
                    assert(pre_p + p.push(pin) =~= (pre_p + p).push(pin));
                } else {
                    lemma_scan_suffix(a, b, k + 1, ScanMode::Quote(i), t, p, pre_t, pre_p);
                }
            },
        }
    }
}

/// A cut of `b` is the cut of `a + b` moved by the length of `a`.
proof fn lemma_cut_within_suffix(a: Seq<char>, b: Seq<char>, from: int, to: int)
    requires
        is_ascii_chars(a + b),
        0 <= from <= to <= b.len(),
    ensures
        byte_slice(a + b, a.len() + from, a.len() + to) == Some(b.subrange(from, to)),
        byte_slice(b, from, to) == Some(b.subrange(from, to)),
{
    let ab = a + b;
    let n = a.len() as int;
    assert(is_ascii_chars(b)) by {
        assert forall|i: int| 0 <= i < b.len() implies '\0' <= #[trigger] b[i] <= '\u{7f}' by {
            assert(ab[n + i] == b[i]);
        }
    }
    lemma_ascii_byte_slice(ab, n + from, n + to);
    lemma_ascii_byte_slice(b, from, to);
    assert(ab.subrange(n + from, n + to) =~= b.subrange(from, to));
}


/// Parsing two ASCII templates one after the other: an error in the first is
/// the error of both; where the first parses and closes every placeholder it
/// opens, both together parse to the two templates and their places one after
/// the other, and fail where the second fails.
pub proof fn lemma_template_concatenation(a: Seq<char>, b: Seq<char>)
    requires
        is_ascii_chars(a),
        is_ascii_chars(b),
        a.len() + b.len() <= usize::MAX,
    ensures
        match template_outcome(a) {
            TemplateOutcome::Failed(e) => template_outcome(a + b) == TemplateOutcome::Failed(e),
            TemplateOutcome::Parsed(ta, pa) => underscores(ta) == pa.len() ==> match template_outcome(b) {
                TemplateOutcome::Parsed(tb, pb) => template_outcome(a + b) == TemplateOutcome::Parsed(
                    ta + tb,
                    pa + pb,
                ),
                TemplateOutcome::Failed(_) => template_outcome(a + b) is Failed,
                TemplateOutcome::Panics => false,
            },
            TemplateOutcome::Panics => false,
        },
{
    let ab = a + b;
    assert(is_ascii_chars(ab)) by {
        assert forall|i: int| 0 <= i < ab.len() implies '\0' <= #[trigger] ab[i] <= '\u{7f}' by {
            if i < a.len() {
                assert(ab[i] == a[i]);
            } else {
                assert(ab[i] == b[i - a.len()]);
            }
        }
    }
    lemma_ascii_templates_never_panic(a);
    lemma_ascii_templates_never_panic(b);
    let e: Seq<char> = Seq::empty();
    let ep: Seq<PlaceModel> = Seq::empty();
    assert(underscores(e) == 0);
    lemma_scan_prefix(a, b, 0, ScanMode::Top, e, ep);
    if let TemplateOutcome::Parsed(ta, pa) = template_outcome(a) {
        lemma_scan_suffix(a, b, 0, ScanMode::Top, e, ep, ta, pa);
        assert(ta + e =~= ta);
        assert(pa + ep =~= pa);
        assert(a.len() + 0 == a.len());
    }
}


/// Text made of words only (letters and spaces).
pub open spec fn is_words(s: Seq<char>) -> bool {
    forall|i: int| 0 <= i < s.len() ==> is_word_char(#[trigger] s[i])
}

proof fn lemma_scan_words(s: Seq<char>, k: int, tpl: Seq<char>, places: Seq<PlaceModel>)
    requires
        is_words(s),
        0 <= k <= s.len(),
    ensures
        scan(s, k, ScanMode::Top, tpl, places) == TemplateOutcome::Parsed(tpl + s.subrange(k, s.len() as int), places),
    decreases s.len() - k,
{
    if k < s.len() {
        let c = s[k];
        assert(is_word_char(c));
        lemma_scan_words(s, k + 1, tpl.push(c), places);
        assert(tpl.push(c) + s.subrange(k + 1, s.len() as int) =~= tpl + s.subrange(k, s.len() as int));
    } else {
        assert(tpl + s.subrange(k, s.len() as int) =~= tpl);
    }
}

proof fn lemma_words_underscores(s: Seq<char>)
    requires
        is_words(s),
    ensures
        underscores(s) == 0,
    decreases s.len(),
{
    if s.len() > 0 {
        assert(is_words(s.drop_last()));
        lemma_words_underscores(s.drop_last());
        assert(is_word_char(s[s.len() - 1]));
    }
}

/// Inside a quoted string, characters other than `\` and `"` are passed over.
proof fn lemma_scan_plain_run(
    s: Seq<char>,
    k: int,
    end: int,
    mode: ScanMode,
    tpl: Seq<char>,
    places: Seq<PlaceModel>,
)
    requires
        mode is Quote || mode is GroupQuote,
        0 <= k <= end <= s.len(),
        forall|j: int| k <= j < end ==> #[trigger] s[j] != '\\' && s[j] != '"',
    ensures
        scan(s, k, mode, tpl, places) == scan(s, end, mode, tpl, places),
    decreases end - k,
{
    if k < end {
        assert(s[k] != '\\' && s[k] != '"');
        lemma_scan_plain_run(s, k + 1, end, mode, tpl, places);
    }
}

proof fn lemma_plain_escaped(x: Seq<char>)
    requires
        is_plain_json_text(x),
    ensures
        json_escaped(x) == x,
    decreases x.len(),
{
    if x.len() > 0 {
        let c = x[x.len() - 1];
        assert(is_plain_json_char(c));
        assert(json_escape_char(c) == seq![c]);
        assert(is_plain_json_text(x.drop_last()));
        lemma_plain_escaped(x.drop_last());
        assert(x.drop_last().push(c) =~= x);
    }
}

proof fn lemma_ascii_concat(a: Seq<char>, b: Seq<char>)
    requires
        is_ascii_chars(a),
        is_ascii_chars(b),
    ensures
        is_ascii_chars(a + b),
{
    assert forall|i: int| 0 <= i < (a + b).len() implies '\0' <= #[trigger] (a + b)[i] <= '\u{7f}' by {
        if i < a.len() {
            assert((a + b)[i] == a[i]);
        } else {
            assert((a + b)[i] == b[i - a.len()]);
        }
    }
}

/// A pin written as a quoted string, with no character that needs an escape.
proof fn lemma_quoted_pin(x: Seq<char>)
    requires
        is_ascii_chars(x),
        is_plain_json_text(x),
        x.len() + 2 <= usize::MAX,
    ensures
        template_outcome(seq!['"'] + x + seq!['"']) == TemplateOutcome::Parsed(
            seq!['_'],
            seq![PlaceModel::Pin(json_string_value(x))],
        ),
{
    let quoted = seq!['"'] + x + seq!['"'];
    let n = x.len() as int;
    let e: Seq<char> = Seq::empty();
    let ep: Seq<PlaceModel> = Seq::empty();
    assert(quoted[0] == '"');
    assert(quoted[n + 1] == '"');
    assert forall|j: int| 1 <= j < n + 1 implies #[trigger] quoted[j] != '\\' && quoted[j] != '"' by {
        assert(quoted[j] == x[j - 1]);
        assert(is_plain_json_char(x[j - 1]));
    }
    lemma_scan_plain_run(quoted, 1, n + 1, ScanMode::Quote(0), e.push('_'), ep);
    assert(is_ascii_chars(quoted)) by {
        lemma_ascii_concat(seq!['"'], x);
        lemma_ascii_concat(seq!['"'] + x, seq!['"']);
    }
    lemma_ascii_byte_slice(quoted, 1, n + 1);
    assert(quoted.subrange(1, n + 1) =~= x);
    let pl = ep.push(PlaceModel::Pin(json_string_value(x)));
    assert(scan(quoted, n + 2, ScanMode::Top, e.push('_'), pl) == TemplateOutcome::Parsed(e.push('_'), pl));
    assert(scan(quoted, n + 1, ScanMode::Quote(0), e.push('_'), ep) == scan(quoted, n + 2, ScanMode::Top, e.push('_'), pl));
    assert(template_outcome(quoted) == scan(quoted, 1, ScanMode::Quote(0), e.push('_'), ep));
    assert(e.push('_') =~= seq!['_']);
    assert(ep.push(PlaceModel::Pin(json_string_value(x))) =~= seq![PlaceModel::Pin(json_string_value(x))]);
}

/// A pin written as a quoted string in parentheses, with no character that
/// needs an escape, where `serde_json` reads the quoted string as the string
/// value of `x`.
proof fn lemma_parenthesised_pin(x: Seq<char>)
    requires
        is_ascii_chars(x),
        is_plain_json_text(x),
        x.len() + 4 <= usize::MAX,
        reads_quoted_as(x, json_string_value(x)),
    ensures
        template_outcome(seq!['(', '"'] + x + seq!['"', ')']) == TemplateOutcome::Parsed(
            seq!['_'],
            seq![PlaceModel::Pin(json_string_value(x))],
        ),
{
    let s = seq!['(', '"'] + x + seq!['"', ')'];
    let n = x.len() as int;
    let e: Seq<char> = Seq::empty();
    let ep: Seq<PlaceModel> = Seq::empty();
    assert(s[0] == '(');
    assert(s[1] == '"');
    assert(s[n + 2] == '"');
    assert(s[n + 3] == ')');
    assert forall|j: int| 2 <= j < n + 2 implies #[trigger] s[j] != '\\' && s[j] != '"' by {
        assert(s[j] == x[j - 2]);
        assert(is_plain_json_char(x[j - 2]));
    }
    lemma_scan_plain_run(s, 2, n + 2, ScanMode::GroupQuote(0), e.push('_'), ep);
    assert(is_ascii_chars(s)) by {
        lemma_ascii_concat(seq!['(', '"'], x);
        lemma_ascii_concat(seq!['(', '"'] + x, seq!['"', ')']);
    }
    lemma_ascii_byte_slice(s, 1, n + 3);
    lemma_plain_escaped(x);
    assert(s.subrange(1, n + 3) =~= json_string_text(x));
    let pl = ep.push(PlaceModel::Pin(json_string_value(x)));
    assert(scan(s, n + 4, ScanMode::Top, e.push('_'), pl) == TemplateOutcome::Parsed(e.push('_'), pl));
    assert(scan(s, n + 3, ScanMode::Group(0), e.push('_'), ep) == scan(s, n + 4, ScanMode::Top, e.push('_'), pl));
    assert(scan(s, n + 2, ScanMode::GroupQuote(0), e.push('_'), ep) == scan(s, n + 3, ScanMode::Group(0), e.push('_'), ep));
    assert(scan(s, 1, ScanMode::Group(0), e.push('_'), ep) == scan(s, 2, ScanMode::GroupQuote(0), e.push('_'), ep));
    assert(template_outcome(s) == scan(s, 1, ScanMode::Group(0), e.push('_'), ep));
    assert(e.push('_') =~= seq!['_']);
    assert(ep.push(PlaceModel::Pin(json_string_value(x))) =~= seq![PlaceModel::Pin(json_string_value(x))]);
}

/// Inside `( .. )`, outside quoted strings, characters other than `(`, `)` and
/// `"` are passed over.
proof fn lemma_scan_group_run(
    s: Seq<char>,
    k: int,
    end: int,
    i: usize,
    tpl: Seq<char>,
    places: Seq<PlaceModel>,
)
    requires
        0 <= k <= end <= s.len(),
        forall|j: int| k <= j < end ==> #[trigger] s[j] != '(' && s[j] != ')' && s[j] != '"',
    ensures
        scan(s, k, ScanMode::Group(i), tpl, places) == scan(s, end, ScanMode::Group(i), tpl, places),
    decreases end - k,
{
    if k < end {
        assert(s[k] != '(' && s[k] != ')' && s[k] != '"');
        lemma_scan_group_run(s, k + 1, end, i, tpl, places);
    }
}

/// Inside `( .. )`, outside quoted strings, only `(` and `)` are special: the
/// template `(x)`, where `x` holds no parenthesis and no quote, is one `_` that
/// pins the value `serde_json` reads from `x`, whatever else `x` holds
/// (brackets, braces, commas, digits, spaces).
pub proof fn lemma_group_pins_json(x: Seq<char>)
    requires
        is_ascii_chars(x),
        forall|j: int| 0 <= j < x.len() ==> #[trigger] x[j] != '(' && x[j] != ')' && x[j] != '"',
        json_from_text(x) is Ok,
    ensures
        template_outcome(seq!['('] + x + seq![')']) == TemplateOutcome::Parsed(
            seq!['_'],
            seq![PlaceModel::Pin(json_from_text(x)->Ok_0)],
        ),
{
    let s = seq!['('] + x + seq![')'];
    let n = x.len() as int;
    let e: Seq<char> = Seq::empty();
    let ep: Seq<PlaceModel> = Seq::empty();
    assert(s[0] == '(');
    assert(s[n + 1] == ')');
    assert forall|j: int| 1 <= j < n + 1 implies #[trigger] s[j] != '(' && s[j] != ')' && s[j] != '"' by {
        assert(s[j] == x[j - 1]);
    }
    lemma_scan_group_run(s, 1, n + 1, 0, e.push('_'), ep);
    assert(is_ascii_chars(s)) by {
        lemma_ascii_concat(seq!['('], x);
        lemma_ascii_concat(seq!['('] + x, seq![')']);
    }
    lemma_ascii_byte_slice(s, 1, n + 1);
    assert(s.subrange(1, n + 1) =~= x);
    let pl = ep.push(PlaceModel::Pin(json_from_text(x)->Ok_0));
    assert(scan(s, n + 2, ScanMode::Top, e.push('_'), pl) == TemplateOutcome::Parsed(e.push('_'), pl));
    assert(scan(s, n + 1, ScanMode::Group(0), e.push('_'), ep) == scan(s, n + 2, ScanMode::Top, e.push('_'), pl));
    assert(template_outcome(s) == scan(s, 1, ScanMode::Group(0), e.push('_'), ep));
    assert(e.push('_') =~= seq!['_']);
    assert(pl =~= seq![PlaceModel::Pin(json_from_text(x)->Ok_0)]);
}

/// A pin between words reads the same written as `"x"` or as `("x")`: the
/// template holds `_` in its place and the one place pins the string `x`. For
/// the parenthesised form this rests on `serde_json` reading `"x"` as that
/// string, which `string_value` states of every text it is given.
pub proof fn lemma_pin_forms_agree(p: Seq<char>, x: Seq<char>, q: Seq<char>)
    requires
        is_words(p),
        is_words(q),
        is_ascii_chars(x),
        is_plain_json_text(x),
        p.len() + x.len() + q.len() + 4 <= usize::MAX,
        reads_quoted_as(x, json_string_value(x)),
    ensures
        template_outcome(p + (seq!['"'] + x + seq!['"']) + q) == TemplateOutcome::Parsed(
            p + seq!['_'] + q,
            seq![PlaceModel::Pin(json_string_value(x))],
        ),
        template_outcome(p + (seq!['(', '"'] + x + seq!['"', ')']) + q) == TemplateOutcome::Parsed(
            p + seq!['_'] + q,
            seq![PlaceModel::Pin(json_string_value(x))],
        ),
{
    let e: Seq<char> = Seq::empty();
    let ep: Seq<PlaceModel> = Seq::empty();
    let pin = seq![PlaceModel::Pin(json_string_value(x))];
    assert forall|i: int| 0 <= i < p.len() implies '\0' <= #[trigger] p[i] <= '\u{7f}' by {
        assert(is_word_char(p[i]));
    }
    assert forall|i: int| 0 <= i < q.len() implies '\0' <= #[trigger] q[i] <= '\u{7f}' by {
        assert(is_word_char(q[i]));
    }
    lemma_scan_words(p, 0, e, ep);
    lemma_scan_words(q, 0, e, ep);
    assert(e + p.subrange(0, p.len() as int) =~= p);
    assert(e + q.subrange(0, q.len() as int) =~= q);
    lemma_words_underscores(p);
    assert(underscores(seq!['_']) == 1) by {
        assert(seq!['_'].drop_last() =~= Seq::<char>::empty());
        assert(underscores(Seq::<char>::empty()) == 0);
    }
    lemma_quoted_pin(x);
    lemma_parenthesised_pin(x);
    let quoted = seq!['"'] + x + seq!['"'];
    let paren = seq!['(', '"'] + x + seq!['"', ')'];
    assert(is_ascii_chars(quoted)) by {
        lemma_ascii_concat(seq!['"'], x);
        lemma_ascii_concat(seq!['"'] + x, seq!['"']);
    }
    assert(is_ascii_chars(paren)) by {
        lemma_ascii_concat(seq!['(', '"'], x);
        lemma_ascii_concat(seq!['(', '"'] + x, seq!['"', ')']);
    }
    lemma_template_concatenation(quoted, q);
    lemma_template_concatenation(paren, q);
    lemma_ascii_concat(quoted, q);
    lemma_ascii_concat(paren, q);
    lemma_template_concatenation(p, quoted + q);
    lemma_template_concatenation(p, paren + q);
    assert(p + (quoted + q) =~= p + quoted + q);
    assert(p + (paren + q) =~= p + paren + q);
    assert(p + (seq!['_'] + q) =~= p + seq!['_'] + q);
    assert(ep + (pin + ep) =~= pin);
}

} // verus!
