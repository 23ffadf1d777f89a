//! A JSON value as the library reads it, and the member access the readers
//! of glTF documents are built from.
use vstd::prelude::*;

verus! {

/// A JSON number: a non-negative integer, a negative integer, or any other
/// number (one with a fraction or exponent), whose value no reader uses.
#[derive(Debug, Clone)]
pub enum JsonNumber {
    PosInt(u64),
    NegInt(i64),
    Other,
}

/// A JSON value. Object members keep the order the parser yields them in.
#[derive(Debug)]
pub enum JsonValue {
    Null,
    Bool(bool),
    Number(JsonNumber),
    Str(String),
    Array(Vec<JsonValue>),
    Object(Vec<(String, JsonValue)>),
}

/// serde_json's dynamically typed JSON value, carried opaquely.
#[verifier::external_type_specification]
#[verifier::external_body]
pub struct ExJsonValue(serde_json::Value);

/// What serde_json's `from_str::<serde_json::Value>` gives for `text`, as a
/// `JsonValue`; `None` when it reports an error.
pub uninterp spec fn json_parse(text: Seq<char>) -> Option<JsonValue>;

/// Converts a parsed `serde_json::Value` into a `JsonValue`, variant for
/// variant: numbers become `PosInt` when `as_u64` gives a value, else
/// `NegInt` when `as_i64` does, else `Other`; arrays and objects are
/// converted element by element, in the order the value yields them.
#[verifier::external_body]
fn json_of(v: serde_json::Value) -> JsonValue {
    match v {
        serde_json::Value::Null => JsonValue::Null,
        serde_json::Value::Bool(b) => JsonValue::Bool(b),
        serde_json::Value::Number(n) => JsonValue::Number(match n.as_u64() {
            Some(u) => JsonNumber::PosInt(u),
            None => match n.as_i64() {
                Some(i) => JsonNumber::NegInt(i),
                None => JsonNumber::Other,
            },
        }),
        serde_json::Value::String(s) => JsonValue::Str(s),
        serde_json::Value::Array(a) => JsonValue::Array(a.into_iter().map(json_of).collect()),
        serde_json::Value::Object(m) => JsonValue::Object(m.into_iter().map(|(k, x)| (k, json_of(x))).collect()),
    }
}

/// Parses `text` with serde_json's `from_str::<serde_json::Value>`.
/// Claimed: it succeeds exactly when `json_parse(text)` is a value, and then
/// gives that value; on failure it gives serde_json's error text.
#[verifier::external_body]
pub(crate) fn parse_json(text: &str) -> (r: Result<JsonValue, String>)
    ensures
        r is Ok <==> json_parse(text@) is Some,
        r is Ok ==> json_parse(text@) == Some(r->Ok_0),
{
    match serde_json::from_str::<serde_json::Value>(text) {
        Ok(v) => Ok(json_of(v)),
        Err(e) => Err(e.to_string()),
    }
}

/// The value of the first member named `key` among `m`.
pub open spec fn lookup_member(m: Seq<(String, JsonValue)>, key: Seq<char>) -> Option<JsonValue>
    decreases m.len(),
{
    if m.len() == 0 {
        None
    } else if m[0].0@ == key {
        Some(m[0].1)
    } else {
        lookup_member(m.drop_first(), key)
    }
}

/// Member `key` of `v`, when `v` is an object that has it.
pub open spec fn member(v: Option<JsonValue>, key: Seq<char>) -> Option<JsonValue> {
    match v {
        Some(JsonValue::Object(m)) => lookup_member(m@, key),
        _ => None,
    }
}

/// `v` as a non-negative integer.
pub open spec fn as_u64(v: Option<JsonValue>) -> Option<u64> {
    match v {
        Some(JsonValue::Number(JsonNumber::PosInt(n))) => Some(n),
        _ => None,
    }
}

/// `v` as a string.
pub open spec fn as_str(v: Option<JsonValue>) -> Option<String> {
    match v {
        Some(JsonValue::Str(s)) => Some(s),
        _ => None,
    }
}

/// `v` as an array.
pub open spec fn as_array(v: Option<JsonValue>) -> Option<Seq<JsonValue>> {
    match v {
        Some(JsonValue::Array(a)) => Some(a@),
        _ => None,
    }
}

/// `v` as an object.
pub open spec fn as_object(v: Option<JsonValue>) -> Option<Seq<(String, JsonValue)>> {
    match v {
        Some(JsonValue::Object(m)) => Some(m@),
        _ => None,
    }
}

/// The first element of the array `v`.
pub open spec fn first_of(v: Option<JsonValue>) -> Option<JsonValue> {
    match as_array(v) {
        Some(a) => if a.len() > 0 {
            Some(a[0])
        } else {
            None
        },
        None => None,
    }
}

/// The elements of the array member `key` of `v` (empty when it is absent
/// or not an array).
pub open spec fn array_member(v: Option<JsonValue>, key: Seq<char>) -> Seq<JsonValue> {
    match as_array(member(v, key)) {
        Some(a) => a,
        None => Seq::empty(),
    }
}

/// The string elements of `a`, in order.
pub open spec fn string_elems(a: Seq<JsonValue>) -> Seq<Seq<char>>
    decreases a.len(),
{
    if a.len() == 0 {
        Seq::empty()
    } else {
        let rest = string_elems(a.drop_last());
        match a.last() {
            JsonValue::Str(s) => rest.push(s@),
            _ => rest,
        }
    }
}

/// Member `key` of `v`.
pub fn get_member<'a>(v: Option<&'a JsonValue>, key: &str) -> (r: Option<&'a JsonValue>)
    ensures
        match r {
            Some(x) => member(opt_ref(v), key@) == Some(*x),
            None => member(opt_ref(v), key@) is None,
        },
{
    match v {
        Some(JsonValue::Object(m)) => {
            let mut i: usize = 0;
            assert(m@.subrange(0, m@.len() as int) == m@);
            assert(member(opt_ref(v), key@) == lookup_member(m@, key@));
            while i < m.len()
                invariant
                    i <= m@.len(),
                    member(opt_ref(v), key@) == lookup_member(m@, key@),
                    lookup_member(m@, key@) == lookup_member(m@.subrange(i as int, m@.len() as int), key@),
                decreases m@.len() - i,
            {
                let ghost rest = m@.subrange(i as int, m@.len() as int);
                assert(rest[0] == m@[i as int]);
                assert(rest.drop_first() == m@.subrange(i + 1, m@.len() as int));
                if crate::text::str_eq(m[i].0.as_str(), key) {
                    assert(lookup_member(rest, key@) == Some(m@[i as int].1));
                    return Some(&m[i].1);
                }
                i += 1;
            }
            None
        },
        _ => None,
    }
}

/// The value an optional reference points to.
pub open spec fn opt_ref(v: Option<&JsonValue>) -> Option<JsonValue> {
    match v {
        Some(x) => Some(*x),
        None => None,
    }
}

/// `v` as a non-negative integer.
pub fn get_u64(v: Option<&JsonValue>) -> (r: Option<u64>)
    ensures
        r == as_u64(opt_ref(v)),
{
    match v {
        Some(JsonValue::Number(JsonNumber::PosInt(n))) => Some(*n),
        _ => None,
    }
}

/// `v` as a string (copied).
pub fn get_string(v: Option<&JsonValue>) -> (r: Option<String>)
    ensures
        match (r, as_str(opt_ref(v))) {
            (Some(a), Some(b)) => a@ == b@,
            (None, None) => true,
            _ => false,
        },
{
    match v {
        Some(JsonValue::Str(s)) => Some(crate::text::lit(s.as_str())),
        _ => None,
    }
}

/// `v` as an array.
pub fn get_array<'a>(v: Option<&'a JsonValue>) -> (r: Option<&'a Vec<JsonValue>>)
    ensures
        match r {
            Some(a) => as_array(opt_ref(v)) == Some(a@),
            None => as_array(opt_ref(v)) is None,
        },
{
    match v {
        Some(JsonValue::Array(a)) => Some(a),
        _ => None,
    }
}

/// `v` as an object.
pub fn get_object<'a>(v: Option<&'a JsonValue>) -> (r: Option<&'a Vec<(String, JsonValue)>>)
    ensures
        match r {
            Some(m) => as_object(opt_ref(v)) == Some(m@),
            None => as_object(opt_ref(v)) is None,
        },
{
    match v {
        Some(JsonValue::Object(m)) => Some(m),
        _ => None,
    }
}

/// The first element of the array `v`.
pub fn get_first<'a>(v: Option<&'a JsonValue>) -> (r: Option<&'a JsonValue>)
    ensures
        opt_ref(r) == first_of(opt_ref(v)),
{
    match get_array(v) {
        Some(a) => if a.len() > 0 {
            Some(&a[0])
        } else {
            None
        },
        None => None,
    }
}

/// The string elements of the array member `key` of `v`, in order.
pub fn string_members(v: Option<&JsonValue>, key: &str) -> (r: Vec<String>)
    ensures
        crate::text::strs_view(r@) == string_elems(array_member(opt_ref(v), key@)),
{
    let empty: Vec<JsonValue> = Vec::new();
    let a = match get_array(get_member(v, key)) {
        Some(a) => a,
        None => &empty,
    };
    assert(a@ == array_member(opt_ref(v), key@));
    let mut out: Vec<String> = Vec::new();
    let mut i: usize = 0;
    while i < a.len()
        invariant
            i <= a@.len(),
            a@ == array_member(opt_ref(v), key@),
            crate::text::strs_view(out@) == string_elems(a@.subrange(0, i as int)),
        decreases a@.len() - i,
    {
        let ghost sub = a@.subrange(0, i + 1);
        assert(sub.drop_last() == a@.subrange(0, i as int));
        assert(sub.last() == a@[i as int]);
        match &a[i] {
            JsonValue::Str(s) => {
                let ghost before = out@;
                out.push(crate::text::lit(s.as_str()));
                assert(crate::text::strs_view(out@) =~= crate::text::strs_view(before).push(s@));
            },
            _ => {},
        }
        i += 1;
    }
    assert(a@.subrange(0, a@.len() as int) == a@);
    out
}

} // verus!
