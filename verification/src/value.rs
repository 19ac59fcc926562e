//! Values of claims: a JSON value together with the hash of its JSON text.
//! Two values are equal exactly when their hashes are.

use vstd::prelude::*;
use vstd::std_specs::cmp::{PartialEqSpec, PartialEqSpecImpl};
use vstd::std_specs::convert::FromSpecImpl;

use crate::json::{json_string_text, json_string_value, json_text, json_text_of, string_value, JsonValue};

verus! {

/// What `std::hash::BuildHasher::hash_one` gives for a text with the hasher
/// that `std::collections::hash_map::DefaultHasher::new` makes.
pub uninterp spec fn default_hash_of(text: Seq<char>) -> u64;

/// Hashes `text` with `BuildHasher::hash_one` on a default builder of
/// `DefaultHasher` (which starts from fixed keys, so equal texts give equal
/// hashes within one build). Which number comes out is left unsaid.
#[verifier::external_body]
fn hash_text(text: &str) -> (h: u64)
    ensures
        h == default_hash_of(text@),
{
    std::hash::BuildHasher::hash_one(
        &std::hash::BuildHasherDefault::<std::collections::hash_map::DefaultHasher>::default(),
        text,
    )
}

/// The hash of a text, as values are hashed.
pub fn calculate_hash(text: &str) -> (h: u64)
    ensures
        h == default_hash_of(text@),
{
    hash_text(text)
}

/// A claim value: the hash of the JSON text and the JSON value itself.
#[derive(Clone, Debug)]
pub struct ClaimValue(u64, JsonValue);

impl ClaimValue {
    /// The hash by which values are compared.
    pub closed spec fn hash_view(&self) -> u64 {
        self.0
    }

    /// The JSON value held.
    pub closed spec fn json_view(&self) -> JsonValue {
        self.1
    }

    /// The hash by which values are compared.
    pub fn hash_value(&self) -> (h: u64)
        ensures
            h == self.hash_view(),
    {
        self.0
    }

    /// The JSON value held.
    pub fn json(&self) -> (v: &JsonValue)
        ensures
            *v == self.json_view(),
    {
        &self.1
    }

    /// The JSON text of the value, as it is displayed.
    pub fn to_string(&self) -> (s: String)
        ensures
            s@ == json_text_of(self.json_view()),
    {
        json_text(&self.1)
    }
}

impl From<JsonValue> for ClaimValue {
    fn from(value: JsonValue) -> (r: ClaimValue)
        ensures
            r.hash_view() == default_hash_of(json_text_of(value)),
            r.json_view() == value,
    {
        let text = json_text(&value);
        ClaimValue(calculate_hash(text.as_str()), value)
    }
}

impl FromSpecImpl<JsonValue> for ClaimValue {
    open spec fn obeys_from_spec() -> bool {
        true
    }

    closed spec fn from_spec(v: JsonValue) -> ClaimValue {
        ClaimValue(default_hash_of(json_text_of(v)), v)
    }
}

impl PartialEq for ClaimValue {
    fn eq(&self, other: &ClaimValue) -> (r: bool) {
        self.0 == other.0
    }
}

impl PartialEqSpecImpl for ClaimValue {
    open spec fn obeys_eq_spec() -> bool {
        true
    }

    open spec fn eq_spec(&self, other: &ClaimValue) -> bool {
        self.hash_view() == other.hash_view()
    }
}

impl Eq for ClaimValue {
}

impl std::hash::Hash for ClaimValue {
    /// Feeds the value's hash to `state` with `std::hash::Hasher::write_u64`;
    /// nothing is stated of it.
    #[verifier::external_body]
    fn hash<H: std::hash::Hasher>(&self, state: &mut H) {
        state.write_u64(self.0)
    }
}

/// The value of a JSON string holding `t`: its JSON text is `t` escaped in
/// double quotes, as `serde_json::to_string` writes a string.
pub fn text(t: &str) -> (v: ClaimValue)
    ensures
        v.json_view() == json_string_value(t@),
        json_text_of(v.json_view()) == json_string_text(t@),
        v.hash_view() == default_hash_of(json_string_text(t@)),
{
    ClaimValue::from(string_value(t))
}

/// Values made from JSON values with the same JSON text are equal.
pub proof fn lemma_same_text_same_value(a: JsonValue, b: JsonValue, va: ClaimValue, vb: ClaimValue)
    requires
        va.hash_view() == default_hash_of(json_text_of(a)),
        vb.hash_view() == default_hash_of(json_text_of(b)),
        json_text_of(a) == json_text_of(b),
    ensures
        PartialEqSpec::eq_spec(&va, &vb),
{
}

} // verus!
