use vstd::prelude::*;

verus! {

/// The string member `key` of the JSON document `text`: `Some` when `text`
/// parses as JSON, is an object, has the member `key` and that member is a
/// string; the member's contents then.
pub uninterp spec fn json_string_member(text: Seq<char>, key: Seq<char>) -> Option<Seq<char>>;

/// The characters of an optional string.
pub open spec fn opt_chars(o: Option<String>) -> Option<Seq<char>> {
    match o {
        Some(s) => Some(s@),
        None => None,
    }
}

/// Parses `text` with `serde_json::from_str` into a `serde_json::Value` and
/// reads the member `key` with `Value::get` and `Value::as_str`. The contract
/// names the result; it says nothing of how JSON is parsed.
#[verifier::external_body]
pub(crate) fn json_str_member(text: &str, key: &str) -> (r: Option<String>)
    ensures
        opt_chars(r) == json_string_member(text@, key@),
{
    let parsed: Result<serde_json::Value, serde_json::Error> = serde_json::from_str(text);
    match parsed {
        Ok(v) => v.get(key).and_then(serde_json::Value::as_str).map(String::from),
        Err(_) => None,
    }
}

} // verus!

verus! {

/// The lower-case hexadecimal digit of `n`, for `n` below 16.
pub open spec fn hex_digit(n: nat) -> char {
    seq!['0', '1', '2', '3', '4', '5', '6', '7', '8', '9', 'a', 'b', 'c', 'd', 'e', 'f'][n as int]
}

/// How JSON text writes the character `c` inside a string: a quote, a
/// backslash and the control characters are escaped, the five with a short
/// form by it, the others as `\u00` and two hexadecimal digits; every
/// other character stands as it is.
pub open spec fn json_escaped_char(c: char) -> Seq<char> {
    if c == '"' {
        seq!['\\', '"']
    } else if c == '\\' {
        seq!['\\', '\\']
    } else if c == '\u{8}' {
        seq!['\\', 'b']
    } else if c == '\t' {
        seq!['\\', 't']
    } else if c == '\n' {
        seq!['\\', 'n']
    } else if c == '\u{c}' {
        seq!['\\', 'f']
    } else if c == '\r' {
        seq!['\\', 'r']
    } else if (c as nat) < 0x20 {
        seq!['\\', 'u', '0', '0', hex_digit((c as nat) / 16), hex_digit((c as nat) % 16)]
    } else {
        seq![c]
    }
}

/// The characters of `s`, each as JSON writes it inside a string.
pub open spec fn json_escaped(s: Seq<char>) -> Seq<char>
    decreases s.len(),
{
    if s.len() == 0 {
        seq![]
    } else {
        json_escaped_char(s[0]) + json_escaped(s.drop_first())
    }
}

/// `s` as a JSON string: escaped, between double quotes.
pub open spec fn json_quoted(s: Seq<char>) -> Seq<char> {
    seq!['"'] + json_escaped(s) + seq!['"']
}

/// `a` comes before `b` in the order of strings: the first character where
/// they differ is smaller in `a`, or `a` is a proper prefix of `b`.
pub open spec fn sorts_before(a: Seq<char>, b: Seq<char>) -> bool
    decreases a.len(),
{
    if a.len() == 0 {
        b.len() > 0
    } else if b.len() == 0 {
        false
    } else if a[0] != b[0] {
        (a[0] as nat) < (b[0] as nat)
    } else {
        sorts_before(a.drop_first(), b.drop_first())
    }
}

/// The member `key: value` of a JSON object, written without spaces.
pub open spec fn json_member(key: Seq<char>, value: Seq<char>) -> Seq<char> {
    json_quoted(key) + seq![':'] + json_quoted(value)
}

/// The compact JSON text of an object with the string members
/// `key1: value1` and `key2: value2`: the members in the order of their
/// keys, separated by a comma; one key given twice keeps the second value.
pub open spec fn json_object_text(
    key1: Seq<char>,
    value1: Seq<char>,
    key2: Seq<char>,
    value2: Seq<char>,
) -> Seq<char> {
    if key1 == key2 {
        seq!['{'] + json_member(key1, value2) + seq!['}']
    } else if sorts_before(key1, key2) {
        seq!['{'] + json_member(key1, value1) + seq![','] + json_member(key2, value2) + seq!['}']
    } else {
        seq!['{'] + json_member(key2, value2) + seq![','] + json_member(key1, value1) + seq!['}']
    }
}

/// Builds a `serde_json::Map` with the members `key1: value1` and
/// `key2: value2` as `serde_json::Value::String`s and renders the
/// `serde_json::Value::Object` with `to_string`. The contract claims what
/// serde_json's source shows: the map is a `BTreeMap` (the `preserve_order`
/// feature is off), so keys come out in the order of strings, and a second
/// insert under the same key replaces the value; the compact formatter
/// writes `{`, `:`, `,` and `}` with no spaces; a string is escaped by the
/// table of `format_escaped_str_contents`.
#[verifier::external_body]
pub(crate) fn json_object_of(key1: &str, value1: &str, key2: &str, value2: &str) -> (r: String)
    ensures
        r@ == json_object_text(key1@, value1@, key2@, value2@),
{
    let mut m = serde_json::Map::new();
    m.insert(key1.to_owned(), serde_json::Value::String(value1.to_owned()));
    m.insert(key2.to_owned(), serde_json::Value::String(value2.to_owned()));
    serde_json::Value::Object(m).to_string()
}

} // verus!
