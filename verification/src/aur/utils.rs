//! URL encoding of AUR request parameters, and readers of fields of AUR JSON payloads.
use vstd::prelude::*;

verus! {

/// Whether a byte is unreserved in URLs (RFC 3986): `A-Z`, `a-z`, `0-9`, `-`, `.`, `_`, `~`.
pub open spec fn is_unreserved(b: u8) -> bool {
    (65 <= b <= 90) || (97 <= b <= 122) || (48 <= b <= 57) || b == 45 || b == 46 || b == 95 || b
        == 126
}

/// Uppercase hexadecimal digit of `n` (0 to 15).
pub open spec fn hex_digit(n: int) -> char {
    if n < 10 {
        (48 + n) as char
    } else {
        (55 + n) as char
    }
}

/// Encoding of one byte: itself when unreserved, `%20` for a space, otherwise `%` and two
/// uppercase hexadecimal digits.
pub open spec fn encode_byte(b: u8) -> Seq<char> {
    if is_unreserved(b) {
        seq![b as char]
    } else if b == 32 {
        seq!['%', '2', '0']
    } else {
        seq!['%', hex_digit(b as int / 16), hex_digit(b as int % 16)]
    }
}

/// Percent-encoding of a byte sequence, byte by byte.
pub open spec fn percent_encoded(bytes: Seq<u8>) -> Seq<char>
    decreases bytes.len(),
{
    if bytes.len() == 0 {
        seq![]
    } else {
        percent_encoded(bytes.drop_last()) + encode_byte(bytes.last())
    }
}

/// Hexadecimal digit character of `n` (below 16).
fn hex_char(n: u8) -> (c: char)
    requires
        n < 16,
    ensures
        c == hex_digit(n as int),
{
    if n < 10 {
        (48 + n) as char
    } else {
        (55 + n) as char
    }
}

/// Percent-encodes a string for a URL: the bytes of its UTF-8 encoding, each kept when
/// unreserved and written as `%` and two uppercase hexadecimal digits otherwise (a space as
/// `%20`).
pub fn percent_encode(input: &str) -> (r: String)
    ensures
        r@ == percent_encoded(vstd::utf8::encode_utf8(input@)),
{
    let bytes = input.as_bytes();
    let mut out: Vec<char> = Vec::new();
    let mut i: usize = 0;
    while i < bytes.len()
        invariant
            i <= bytes@.len(),
            bytes@ == vstd::utf8::encode_utf8(input@),
            out@ == percent_encoded(bytes@.take(i as int)),
        decreases bytes@.len() - i,
    {
        let b = bytes[i];
        assert(bytes@.take(i + 1).drop_last() =~= bytes@.take(i as int));
        assert(bytes@.take(i + 1).last() == b);
        if (65 <= b && b <= 90) || (97 <= b && b <= 122) || (48 <= b && b <= 57) || b == 45 || b
            == 46 || b == 95 || b == 126 {
            out.push(b as char);
        } else if b == 32 {
            out.push('%');
            out.push('2');
            out.push('0');
        } else {
            out.push('%');
            out.push(hex_char(b / 16));
            out.push(hex_char(b % 16));
        }
        assert(out@ =~= percent_encoded(bytes@.take(i + 1)));
        i += 1;
    }
    assert(bytes@.take(bytes@.len() as int) =~= bytes@);
    crate::text::chars_to_string(out.as_slice())
}

/// A JSON number, as far as the payload readers look at it: a non-negative integer, a negative
/// integer, or a number with a fraction or exponent.
#[derive(Clone, Debug, PartialEq)]
pub enum JsonNumber {
    PosInt(u64),
    NegInt(i64),
    Float,
}

/// A JSON value. An object keeps its members in document order, each key once.
#[derive(Debug)]
pub enum JsonValue {
    Null,
    Bool(bool),
    Number(JsonNumber),
    Str(String),
    Array(Vec<JsonValue>),
    Object(Vec<(String, JsonValue)>),
}

/// The value of the first member named `key`.
pub open spec fn member_value(members: Seq<(String, JsonValue)>, key: Seq<char>) -> Option<JsonValue>
    decreases members.len(),
{
    if members.len() == 0 {
        None
    } else if members[0].0@ == key {
        Some(members[0].1)
    } else {
        member_value(members.drop_first(), key)
    }
}

/// The value stored under `key` when `v` is an object.
pub open spec fn json_get(v: JsonValue, key: Seq<char>) -> Option<JsonValue> {
    match v {
        JsonValue::Object(members) => member_value(members@, key),
        _ => None,
    }
}

/// The text of a JSON string.
pub open spec fn json_str(v: Option<JsonValue>) -> Option<Seq<char>> {
    match v {
        Some(JsonValue::Str(t)) => Some(t@),
        _ => None,
    }
}

/// The text under the first key of `keys` whose value is a string.
pub open spec fn first_str(v: JsonValue, keys: Seq<&str>) -> Option<Seq<char>>
    decreases keys.len(),
{
    if keys.len() == 0 {
        None
    } else {
        match json_str(json_get(v, keys[0]@)) {
            Some(t) => Some(t),
            None => first_str(v, keys.drop_first()),
        }
    }
}

/// The string items of an array, in order; other items are left out.
pub open spec fn string_items(items: Seq<JsonValue>) -> Seq<Seq<char>>
    decreases items.len(),
{
    if items.len() == 0 {
        Seq::empty()
    } else {
        let before = string_items(items.drop_last());
        match items.last() {
            JsonValue::Str(t) => before.push(t@),
            _ => before,
        }
    }
}

/// The string items of the array under the first key of `keys` whose value is an array.
pub open spec fn first_array_strings(v: JsonValue, keys: Seq<&str>) -> Option<Seq<Seq<char>>>
    decreases keys.len(),
{
    if keys.len() == 0 {
        None
    } else {
        match json_get(v, keys[0]@) {
            Some(JsonValue::Array(items)) => Some(string_items(items@)),
            _ => first_array_strings(v, keys.drop_first()),
        }
    }
}

/// The count a value stands for: a non-negative integer; a negative integer never gives one
/// (its conversion to `u64` fails); a string that reads as a `u64`.
pub open spec fn count_of(v: JsonValue) -> Option<u64> {
    match v {
        JsonValue::Number(JsonNumber::PosInt(u)) => Some(u),
        JsonValue::Number(JsonNumber::NegInt(i)) => if i > 0 {
            Some(i as u64)
        } else {
            None
        },
        JsonValue::Str(t) => crate::text::parse_u64(t@),
        _ => None,
    }
}

/// The count under the first key of `keys` whose value gives one.
pub open spec fn first_count(v: JsonValue, keys: Seq<&str>) -> Option<u64>
    decreases keys.len(),
{
    if keys.len() == 0 {
        None
    } else {
        match json_get(v, keys[0]@) {
            Some(x) if count_of(x) is Some => count_of(x),
            _ => first_count(v, keys.drop_first()),
        }
    }
}

/// The value stored under `key` in an object.
pub(crate) fn get_member<'a>(v: &'a JsonValue, key: &str) -> (r: Option<&'a JsonValue>)
    ensures
        match r {
            Some(x) => json_get(*v, key@) == Some(*x),
            None => json_get(*v, key@) is None,
        },
{
    match v {
        JsonValue::Object(members) => {
            let mut i: usize = 0;
            assert(members@.skip(0) =~= members@);
            while i < members.len()
                invariant
                    i <= members@.len(),
                    json_get(*v, key@) == member_value(members@, key@),
                    member_value(members@, key@) == member_value(members@.skip(i as int), key@),
                decreases members@.len() - i,
            {
                assert(members@.skip(i as int)[0] == members@[i as int]);
                assert(members@.skip(i as int).drop_first() =~= members@.skip(i + 1));
                if crate::text::str_eq(members[i].0.as_str(), key) {
                    return Some(&members[i].1);
                }
                i += 1;
            }
            assert(members@.skip(i as int) =~= Seq::<(String, JsonValue)>::empty());
            None
        },
        _ => None,
    }
}

/// A string field of an AUR object: its text, or empty when missing or not a string.
pub fn s(v: &JsonValue, key: &str) -> (r: String)
    ensures
        r@ == match json_str(json_get(*v, key@)) {
            Some(t) => t,
            None => Seq::empty(),
        },
{
    match get_member(v, key) {
        Some(JsonValue::Str(t)) => t.clone(),
        _ => String::new(),
    }
}

/// The first string found under `keys`, tried in order; empty when none holds a string.
pub fn ss(v: &JsonValue, keys: &[&str]) -> (r: String)
    ensures
        r@ == match first_str(*v, keys@) {
            Some(t) => t,
            None => Seq::empty(),
        },
{
    let mut i: usize = 0;
    assert(keys@.skip(0) =~= keys@);
    while i < keys.len()
        invariant
            i <= keys@.len(),
            first_str(*v, keys@) == first_str(*v, keys@.skip(i as int)),
        decreases keys@.len() - i,
    {
        assert(keys@.skip(i as int)[0] == keys@[i as int]);
        assert(keys@.skip(i as int).drop_first() =~= keys@.skip(i + 1));
        if let Some(JsonValue::Str(t)) = get_member(v, keys[i]) {
            return t.clone();
        }
        i += 1;
    }
    assert(keys@.skip(i as int) =~= Seq::<&str>::empty());
    String::new()
}

/// The string items of the first array found under `keys`, tried in order; empty when none
/// holds an array.
pub fn arrs(v: &JsonValue, keys: &[&str]) -> (r: Vec<String>)
    ensures
        crate::text::sv(r@) == match first_array_strings(*v, keys@) {
            Some(t) => t,
            None => Seq::empty(),
        },
{
    let mut i: usize = 0;
    assert(keys@.skip(0) =~= keys@);
    while i < keys.len()
        invariant
            i <= keys@.len(),
            first_array_strings(*v, keys@) == first_array_strings(*v, keys@.skip(i as int)),
        decreases keys@.len() - i,
    {
        assert(keys@.skip(i as int)[0] == keys@[i as int]);
        assert(keys@.skip(i as int).drop_first() =~= keys@.skip(i + 1));
        if let Some(JsonValue::Array(items)) = get_member(v, keys[i]) {
            let mut out: Vec<String> = Vec::new();
            let mut k: usize = 0;
            while k < items.len()
                invariant
                    k <= items@.len(),
                    crate::text::sv(out@) == string_items(items@.take(k as int)),
                decreases items@.len() - k,
            {
                assert(items@.take(k + 1).drop_last() =~= items@.take(k as int));
                assert(items@.take(k + 1).last() == items@[k as int]);
                let ghost before = out@;
                if let JsonValue::Str(t) = &items[k] {
                    out.push(t.clone());
                    assert(crate::text::sv(out@) =~= crate::text::sv(before).push(t@));
                }
                k += 1;
            }
            assert(items@.take(items@.len() as int) =~= items@);
            return out;
        }
        i += 1;
    }
    assert(keys@.skip(i as int) =~= Seq::<&str>::empty());
    Vec::new()
}

/// The count a single value gives (see `count_of`).
fn count_value(x: &JsonValue) -> (r: Option<u64>)
    ensures
        r == count_of(*x),
{
    match x {
        JsonValue::Number(JsonNumber::PosInt(u)) => Some(*u),
        JsonValue::Number(JsonNumber::NegInt(i)) => if *i > 0 {
            Some(*i as u64)
        } else {
            None
        },
        JsonValue::Str(t) => {
            let c = crate::text::to_chars(t.as_str());
            crate::text::parse_u64_chars(c.as_slice())
        },
        _ => None,
    }
}

/// The first count found under `keys`, tried in order: a non-negative integer, or a string of
/// decimal digits within the range of `u64`.
pub fn u64_of(v: &JsonValue, keys: &[&str]) -> (r: Option<u64>)
    ensures
        r == first_count(*v, keys@),
{
    let mut i: usize = 0;
    assert(keys@.skip(0) =~= keys@);
    while i < keys.len()
        invariant
            i <= keys@.len(),
            first_count(*v, keys@) == first_count(*v, keys@.skip(i as int)),
        decreases keys@.len() - i,
    {
        assert(keys@.skip(i as int)[0] == keys@[i as int]);
        assert(keys@.skip(i as int).drop_first() =~= keys@.skip(i + 1));
        if let Some(x) = get_member(v, keys[i]) {
            if let Some(n) = count_value(x) {
                return Some(n);
            }
        }
        i += 1;
    }
    assert(keys@.skip(i as int) =~= Seq::<&str>::empty());
    None
}

#[verifier::external_type_specification]
#[verifier::external_body]
pub struct ExSerdeJsonValue(serde_json::Value);

/// The document that a JSON text holds, or the reader's account of why it holds none, as
/// `serde_json` reads it.
pub uninterp spec fn json_document(text: Seq<char>) -> Result<JsonValue, Seq<char>>;

/// Rebuilds a `serde_json` value as a `JsonValue`, member for member and item for item.
#[verifier::external_body]
fn json_value_from(v: serde_json::Value) -> JsonValue {
    match v {
        serde_json::Value::Null => JsonValue::Null,
        serde_json::Value::Bool(b) => JsonValue::Bool(b),
        serde_json::Value::Number(n) => JsonValue::Number(match (n.as_u64(), n.as_i64()) {
            (Some(u), _) => JsonNumber::PosInt(u),
            (None, Some(i)) => JsonNumber::NegInt(i),
            (None, None) => JsonNumber::Float,
        }),
        serde_json::Value::String(t) => JsonValue::Str(t),
        serde_json::Value::Array(a) => JsonValue::Array(a.into_iter().map(json_value_from).collect()),
        serde_json::Value::Object(m) => JsonValue::Object(
            m.into_iter().map(|(k, x)| (k, json_value_from(x))).collect(),
        ),
    }
}

/// Reads a JSON text with `serde_json::from_str`: the document, or the text of the error.
#[verifier::external_body]
pub(crate) fn parse_json_text(text: &str) -> (r: Result<JsonValue, String>)
    ensures
        match r {
            Ok(v) => json_document(text@) == Ok::<JsonValue, Seq<char>>(v),
            Err(e) => json_document(text@) == Err::<JsonValue, Seq<char>>(e@),
        },
{
    match serde_json::from_str::<serde_json::Value>(text) {
        Ok(v) => Ok(json_value_from(v)),
        Err(e) => Err(e.to_string()),
    }
}

} // verus!
