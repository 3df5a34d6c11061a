//! JSON through `serde_json`: the text it writes for strings and string maps, and
//! whether it accepts a request body as JSON.
use crate::string_map::StringMap;
use crate::string_map::keys_distinct;
use crate::text::{concat, join_with};
use vstd::prelude::*;

verus! {

#[verifier::external_type_specification]
#[verifier::external_body]
pub struct ExJsonError(serde_json::Error);

#[verifier::external_type_specification]
#[verifier::external_body]
pub struct ExJsonValue(serde_json::Value);

/// Whether `serde_json::from_str` accepts `text` as one JSON value (JSON
/// grammar, surrounding whitespace allowed, nesting within its recursion limit).
pub uninterp spec fn json_parses(text: Seq<char>) -> bool;

/// Why JSON text could not be produced.
#[derive(Debug)]
pub enum JsonError {
    /// `serde_json` refused to serialise the value.
    Serialize,
}

/// The lower-case hexadecimal digit of `n` (below 16).
pub open spec fn hex_lower(n: u32) -> char {
    if n < 10 {
        (48 + n) as char
    } else {
        (87 + n) as char
    }
}

/// How `serde_json` writes one character inside a string literal: `"` and `\`
/// behind a backslash, the control characters with a short escape where JSON
/// has one and as `\u00xx` otherwise, everything else as it is.
pub open spec fn json_escape(c: char) -> Seq<char> {
    if c == '"' {
        seq!['\\', '"']
    } else if c == '\\' {
        seq!['\\', '\\']
    } else if c == '\u{8}' {
        seq!['\\', 'b']
    } else if c == '\t' {
        seq!['\\', 't']
    } else if c == '\n' {
        seq!['\\', 'n']
    } else if c == '\u{c}' {
        seq!['\\', 'f']
    } else if c == '\r' {
        seq!['\\', 'r']
    } else if (c as u32) < 32 {
        seq!['\\', 'u', '0', '0', hex_lower((c as u32) / 16), hex_lower((c as u32) % 16)]
    } else {
        seq![c]
    }
}

/// The characters of `s`, each escaped.
pub open spec fn json_escaped(s: Seq<char>) -> Seq<char>
    decreases s.len(),
{
    if s.len() == 0 {
        Seq::empty()
    } else {
        json_escaped(s.drop_last()) + json_escape(s.last())
    }
}

/// The JSON string literal `serde_json::to_string` writes for a text: the
/// escaped characters between double quotes.
pub open spec fn json_string_text(s: Seq<char>) -> Seq<char> {
    seq!['"'] + json_escaped(s) + seq!['"']
}

/// `a` sorts before `b` as `String`s compare: by their UTF-8 bytes, which is
/// the order of their characters' code points, a proper prefix first.
pub open spec fn key_before(a: Seq<char>, b: Seq<char>) -> bool
    decreases a.len(),
{
    if a.len() == 0 {
        b.len() > 0
    } else if b.len() == 0 {
        false
    } else if a[0] != b[0] {
        (a[0] as u32) < (b[0] as u32)
    } else {
        key_before(a.drop_first(), b.drop_first())
    }
}

/// The entries are in ascending key order.
pub open spec fn sorted_by_key(es: Seq<(Seq<char>, Seq<char>)>) -> bool {
    forall|i: int, j: int| 0 <= i < j < es.len() ==> key_before(es[i].0, es[j].0)
}

/// One member of a JSON object with string values: `"key":"value"`.
pub open spec fn member_text(e: (Seq<char>, Seq<char>)) -> Seq<char> {
    json_string_text(e.0) + seq![':'] + json_string_text(e.1)
}

/// `{`, the members of `es` in order separated by `,`, then `}`.
pub open spec fn object_text(es: Seq<(Seq<char>, Seq<char>)>) -> Seq<char> {
    seq!['{'] + join_with(es.map_values(|e: (Seq<char>, Seq<char>)| member_text(e)), ',') + seq![
        '}',
    ]
}

/// The JSON object `serde_json` writes for entries with distinct keys
/// collected into a `serde_json::Map` (a `BTreeMap` by default): the members
/// in ascending key order.
pub open spec fn json_object_text(entries: Seq<(Seq<char>, Seq<char>)>) -> Seq<char> {
    object_text(
        choose|s: Seq<(Seq<char>, Seq<char>)>|
            s.to_multiset() == entries.to_multiset() && sorted_by_key(s),
    )
}

/// The entries, viewed.
pub open spec fn entry_views(es: Seq<(String, String)>) -> Seq<(Seq<char>, Seq<char>)> {
    es.map_values(|e: (String, String)| (e.0@, e.1@))
}

/// `serde_json::to_string` of a string. Its serializer writes into a `Vec`,
/// which cannot fail, so the result is always `Ok`.
#[verifier::external_body]
fn encode_str(s: &str) -> (r: Result<String, serde_json::Error>)
    ensures
        r is Ok,
        r is Ok ==> r->Ok_0@ == json_string_text(s@),
{
    serde_json::to_string(s)
}

/// `serde_json::to_string` of the entries, whose keys are distinct, collected
/// into a `serde_json::Map<String, Value>` of string values. Serialising
/// strings into a `Vec` cannot fail, so the result is always `Ok`.
#[verifier::external_body]
fn encode_object(entries: &Vec<(String, String)>) -> (r: Result<String, serde_json::Error>)
    requires
        keys_distinct(entries@),
    ensures
        r is Ok,
        r is Ok ==> r->Ok_0@ == json_object_text(entry_views(entries@)),
{
    let map: serde_json::Map<String, serde_json::Value> = entries.iter().map(
        |(k, v)| (k.clone(), serde_json::Value::String(v.clone())),
    ).collect();
    serde_json::to_string(&map)
}

/// `serde_json::from_str::<serde_json::Value>`, with the error dropped: a
/// value exactly when the text parses as JSON. What the value holds is left
/// unsaid here; the library only hands it on.
#[verifier::external_body]
pub(crate) fn parse_json_text(text: &str) -> (r: Option<serde_json::Value>)
    ensures
        r is Some <==> json_parses(text@),
{
    serde_json::from_str::<serde_json::Value>(text).ok()
}

/// The JSON string literal of `s`; should serialisation fail, `s` between
/// double quotes.
pub fn json_string_literal(s: &str) -> (r: String)
    ensures
        r@ == json_string_text(s@),
{
    match encode_str(s) {
        Ok(t) => t,
        Err(_) => {
            let quoted = concat("\"", s);
            concat(quoted.as_str(), "\"")
        },
    }
}

/// The JSON object holding the entries of `m` (keys sorted, as `serde_json::Map`
/// orders them).
pub fn json_object(m: &StringMap<String>) -> (r: Result<String, JsonError>)
    ensures
        r matches Ok(t) && t@ == json_object_text(entry_views(m.spec_entries())),
{
    match encode_object(m.entries()) {
        Ok(t) => Ok(t),
        Err(_) => Err(JsonError::Serialize),
    }
}

} // verus!
