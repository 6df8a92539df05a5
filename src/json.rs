use vstd::prelude::*;
use crate::store::opt_view;

verus! {

/// Hexadecimal digits in lower case.
pub open spec fn hex_digits() -> Seq<char> {
    seq!['0', '1', '2', '3', '4', '5', '6', '7', '8', '9', 'a', 'b', 'c', 'd', 'e', 'f']
}

/// How serde_json writes one character inside a string literal: `"` and `\`
/// escaped with a backslash, the controls with a short form (`\b`, `\t`,
/// `\n`, `\f`, `\r`) written so, the other controls below `0x20` as `\u00`
/// and two hexadecimal digits, every other character as itself.
pub open spec fn json_char_escape(c: char) -> Seq<char> {
    let n = c as u32;
    if c == '"' {
        seq!['\\', '"']
    } else if c == '\\' {
        seq!['\\', '\\']
    } else if n == 8 {
        seq!['\\', 'b']
    } else if n == 9 {
        seq!['\\', 't']
    } else if n == 10 {
        seq!['\\', 'n']
    } else if n == 12 {
        seq!['\\', 'f']
    } else if n == 13 {
        seq!['\\', 'r']
    } else if n < 32 {
        seq!['\\', 'u', '0', '0', hex_digits()[(n / 16) as int], hex_digits()[(n % 16) as int]]
    } else {
        seq![c]
    }
}

/// Every character of `s` as serde_json writes it inside a string literal.
pub open spec fn json_escaped(s: Seq<char>) -> Seq<char>
    decreases s.len(),
{
    if s.len() == 0 {
        Seq::<char>::empty()
    } else {
        json_escaped(s.drop_last()) + json_char_escape(s.last())
    }
}

/// The JSON string literal that serde_json writes for `s`: the escaped
/// characters between double quotes.
pub open spec fn json_string_literal(s: Seq<char>) -> Seq<char> {
    seq!['"'] + json_escaped(s) + seq!['"']
}

/// The member `key` of the JSON object that `doc` holds, written out again by
/// serde_json; none when `doc` is not an object or has no such member.
pub uninterp spec fn json_member(doc: Seq<char>, key: Seq<char>) -> Option<Seq<char>>;

/// The JSON value that `text` holds, written out again by serde_json; none
/// when `text` is not JSON.
pub uninterp spec fn json_normal(text: Seq<char>) -> Option<Seq<char>>;

/// The characters of the JSON string that `text` holds; none when `text` is
/// not a JSON string.
pub uninterp spec fn json_string_content(text: Seq<char>) -> Option<Seq<char>>;

/// The text serde_json writes for the object whose members are `members`:
/// each value parsed from its JSON text, a later key replacing an earlier one;
/// none when some value is not JSON.
pub uninterp spec fn json_object_text(members: Seq<(Seq<char>, Seq<char>)>) -> Option<Seq<char>>;

/// Keys and values of a list of members.
pub open spec fn member_views(v: Seq<(String, String)>) -> Seq<(Seq<char>, Seq<char>)> {
    v.map_values(|m: (String, String)| (m.0@, m.1@))
}

/// Relies on `serde_json::from_str` into a `serde_json::Value` for each value,
/// on `serde_json::Map::insert` and on `Value::to_string`.
#[verifier::external_body]
pub(crate) fn object_text_of(members: &Vec<(String, String)>) -> (r: Option<String>)
    ensures
        opt_view(r) == json_object_text(member_views(members@)),
{
    let mut m = serde_json::Map::new();
    for (k, v) in members.iter() {
        match serde_json::from_str::<serde_json::Value>(v) {
            Ok(x) => {
                m.insert(k.clone(), x);
            },
            Err(_) => return None,
        }
    }
    Some(serde_json::Value::Object(m).to_string())
}

/// Relies on `serde_json::to_string` for a `str` (`format_escaped_str` with its
/// `ESCAPE` table): the quoted, escaped literal.
#[verifier::external_body]
pub(crate) fn quote(s: &str) -> (r: String)
    ensures
        r@ == json_string_literal(s@),
{
    serde_json::to_string(s).unwrap_or_default()
}

/// Relies on `serde_json::from_str` into a `serde_json::Map`, on `Map::get`
/// and on `Value::to_string`.
#[verifier::external_body]
pub(crate) fn member(doc: &str, key: &str) -> (r: Option<String>)
    ensures
        opt_view(r) == json_member(doc@, key@),
{
    serde_json::from_str::<serde_json::Map<String, serde_json::Value>>(doc)
        .ok()
        .and_then(|m| m.get(key).map(|v| v.to_string()))
}

/// Relies on `serde_json::from_str` into a `serde_json::Value` and on
/// `Value::to_string`.
#[verifier::external_body]
pub(crate) fn normal(text: &str) -> (r: Option<String>)
    ensures
        opt_view(r) == json_normal(text@),
{
    serde_json::from_str::<serde_json::Value>(text).ok().map(|v| v.to_string())
}

/// Relies on `serde_json::from_str` into a `String`.
#[verifier::external_body]
pub(crate) fn string_content(text: &str) -> (r: Option<String>)
    ensures
        opt_view(r) == json_string_content(text@),
{
    serde_json::from_str::<String>(text).ok()
}

} // verus!
