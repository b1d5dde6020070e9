//! JSON values as plain data, parsed by `serde_json`, and the lookups the
//! handlers make on them.
use vstd::prelude::*;

verus! {

/// A JSON number: what `as_u64` gives and the text `serde_json` writes for
/// it (which reads back as the same number).
pub struct JsonNumber {
    pub unsigned: Option<u64>,
    pub text: String,
}

/// A JSON value; an object keeps its entries in the order `serde_json`
/// hands them out.
pub enum Json {
    Null,
    Bool(bool),
    Number(JsonNumber),
    Str(String),
    Array(Vec<Json>),
    Object(Vec<(String, Json)>),
}

/// The value `serde_json::from_str::<serde_json::Value>` parses from a
/// text, `None` when the text is not JSON.
pub uninterp spec fn json_parse(text: Seq<char>) -> Option<Json>;

#[verifier::external_type_specification]
#[verifier::external_body]
pub struct ExValue(serde_json::Value);

/// A `serde_json::Value` as a `Json`, field by field.
#[verifier::external_body]
fn json_from_value(v: &serde_json::Value) -> Json {
    match v {
        serde_json::Value::Null => Json::Null,
        serde_json::Value::Bool(b) => Json::Bool(*b),
        serde_json::Value::Number(n) => Json::Number(JsonNumber {
            unsigned: n.as_u64(),
            text: n.to_string(),
        }),
        serde_json::Value::String(s) => Json::Str(s.clone()),
        serde_json::Value::Array(a) => Json::Array(a.iter().map(json_from_value).collect()),
        serde_json::Value::Object(o) => Json::Object(o.iter().map(|(k, x)| (k.clone(), json_from_value(x))).collect()),
    }
}

/// Calls `serde_json::from_str::<serde_json::Value>(text)` and converts the
/// value. Claims only that the result is `json_parse(text)`: which texts
/// parse, and to what, is left to `serde_json`.
#[verifier::external_body]
pub(crate) fn parse_json(text: &str) -> (r: Option<Json>)
    ensures
        r == json_parse(text@),
{
    serde_json::from_str::<serde_json::Value>(text).ok().map(|v| json_from_value(&v))
}

/// Index of the first entry with the key, or `es.len()`.
pub open spec fn key_index(es: Seq<(String, Json)>, key: Seq<char>) -> int
    decreases es.len(),
{
    if es.len() == 0 {
        0
    } else if es[0].0@ == key {
        0
    } else {
        1 + key_index(es.drop_first(), key)
    }
}

/// The value of the first entry with the key.
pub open spec fn obj_lookup(es: Seq<(String, Json)>, key: Seq<char>) -> Option<Json> {
    let k = key_index(es, key);
    if 0 <= k < es.len() {
        Some(es[k].1)
    } else {
        None
    }
}

/// `Value::get(key)`: the value of the key in an object.
pub open spec fn get(v: Json, key: Seq<char>) -> Option<Json> {
    match v {
        Json::Object(es) => obj_lookup(es@, key),
        _ => None,
    }
}

/// `Value::as_str`.
pub open spec fn as_str(v: Option<Json>) -> Option<Seq<char>> {
    match v {
        Some(Json::Str(s)) => Some(s@),
        _ => None,
    }
}

/// `Value::as_u64`.
pub open spec fn as_u64(v: Option<Json>) -> Option<u64> {
    match v {
        Some(Json::Number(n)) => n.unsigned,
        _ => None,
    }
}

/// `Value::as_bool`.
pub open spec fn as_bool(v: Option<Json>) -> Option<bool> {
    match v {
        Some(Json::Bool(b)) => Some(b),
        _ => None,
    }
}

/// `Value::as_array`.
pub open spec fn as_array(v: Option<Json>) -> Option<Seq<Json>> {
    match v {
        Some(Json::Array(a)) => Some(a@),
        _ => None,
    }
}

/// The text of a string field, or `default` when it is absent or no string.
pub open spec fn str_or(v: Json, key: Seq<char>, default: Seq<char>) -> Seq<char> {
    match as_str(get(v, key)) {
        Some(s) => s,
        None => default,
    }
}

/// The number of a field, or 0.
pub open spec fn u64_or_zero(v: Json, key: Seq<char>) -> u64 {
    match as_u64(get(v, key)) {
        Some(n) => n,
        None => 0,
    }
}

pub proof fn lemma_key_index_props(es: Seq<(String, Json)>, key: Seq<char>)
    ensures
        0 <= key_index(es, key) <= es.len(),
        forall|j: int| 0 <= j < key_index(es, key) ==> (#[trigger] es[j]).0@ != key,
        key_index(es, key) < es.len() ==> es[key_index(es, key)].0@ == key,
    decreases es.len(),
{
    if es.len() > 0 && es[0].0@ != key {
        let d = es.drop_first();
        lemma_key_index_props(d, key);
        assert forall|j: int| 0 <= j < key_index(es, key) implies (#[trigger] es[j]).0@ != key by {
            if j > 0 {
                assert(es[j] == d[j - 1]);
            }
        }
        if key_index(es, key) < es.len() {
            assert(es[key_index(es, key)] == d[key_index(d, key)]);
        }
    }
}

/// Entries with the same keys in the same places find a key at the same
/// place.
pub proof fn lemma_key_index_same_keys(a: Seq<(String, Json)>, b: Seq<(String, Json)>, key: Seq<char>)
    requires
        a.len() == b.len(),
        forall|i: int| 0 <= i < a.len() ==> (#[trigger] a[i]).0@ == b[i].0@,
    ensures
        key_index(a, key) == key_index(b, key),
{
    lemma_key_index_props(a, key);
    let k = key_index(a, key);
    assert forall|j: int| 0 <= j < k implies (#[trigger] b[j]).0@ != key by {
        assert(a[j].0@ == b[j].0@);
    }
    if k < a.len() {
        assert(a[k].0@ == b[k].0@);
    }
    lemma_key_index(b, key, k);
}

/// Replacing the entry at `k` by one with the same key changes only the
/// lookup of the key it holds, when `k` is where that key is found.
pub proof fn lemma_lookup_update(es: Seq<(String, Json)>, k: int, e: (String, Json), key: Seq<char>)
    requires
        0 <= k < es.len(),
        e.0@ == es[k].0@,
    ensures
        key != es[k].0@ ==> obj_lookup(es.update(k, e), key) == obj_lookup(es, key),
        k == key_index(es, key) ==> obj_lookup(es.update(k, e), key) == Some(e.1),
{
    let u = es.update(k, e);
    assert forall|i: int| 0 <= i < es.len() implies (#[trigger] es[i]).0@ == u[i].0@ by {}
    lemma_key_index_same_keys(es, u, key);
    lemma_key_index_props(es, key);
}

/// An entry added at the end changes no lookup of another key, and is found
/// when its key was absent.
pub proof fn lemma_lookup_push(es: Seq<(String, Json)>, e: (String, Json), key: Seq<char>)
    ensures
        key != e.0@ ==> obj_lookup(es.push(e), key) == obj_lookup(es, key),
        key == e.0@ && key_index(es, key) == es.len() ==> obj_lookup(es.push(e), key) == Some(e.1),
{
    let b = es.push(e);
    lemma_key_index_props(es, key);
    let m = key_index(es, key);
    assert forall|j: int| 0 <= j < m implies (#[trigger] b[j]).0@ != key by {
        assert(b[j] == es[j]);
    }
    if m < es.len() {
        assert(b[m] == es[m]);
        lemma_key_index(b, key, m);
    } else if e.0@ == key {
        lemma_key_index(b, key, m);
    } else {
        assert forall|j: int| 0 <= j < m + 1 implies (#[trigger] b[j]).0@ != key by {
            if j < m {
                assert(b[j] == es[j]);
            }
        }
        lemma_key_index(b, key, m + 1);
    }
}

/// Where the key is first found in the entries.
pub fn key_position(es: &Vec<(String, Json)>, key: &str) -> (k: usize)
    ensures
        k as int == key_index(es@, key@),
        k <= es.len(),
{
    let kv = crate::text::chars_of(key);
    let mut j: usize = 0;
    while j < es.len()
        invariant
            j <= es.len(),
            kv@ == key@,
            forall|q: int| 0 <= q < j ==> (#[trigger] es@[q]).0@ != key@,
        decreases es.len() - j,
    {
        let name = crate::text::chars_of(es[j].0.as_str());
        if crate::text::eq_chars(name.as_slice(), kv.as_slice()) {
            proof {
                lemma_key_index(es@, key@, j as int);
            }
            return j;
        }
        j += 1;
    }
    proof {
        lemma_key_index(es@, key@, j as int);
    }
    j
}

proof fn lemma_key_index(es: Seq<(String, Json)>, key: Seq<char>, k: int)
    requires
        0 <= k <= es.len(),
        forall|j: int| 0 <= j < k ==> (#[trigger] es[j]).0@ != key,
        k < es.len() ==> es[k].0@ == key,
    ensures
        key_index(es, key) == k,
    decreases k,
{
    if k > 0 {
        let d = es.drop_first();
        assert forall|j: int| 0 <= j < k - 1 implies (#[trigger] d[j]).0@ != key by {
            assert(d[j] == es[j + 1]);
        }
        if k - 1 < d.len() {
            assert(d[k - 1] == es[k]);
        }
        lemma_key_index(d, key, k - 1);
        assert(es[0].0@ != key);
    }
}

/// `Value::get(key)`.
pub fn get_field<'a>(v: &'a Json, key: &str) -> (r: Option<&'a Json>)
    ensures
        match r {
            Some(x) => get(*v, key@) == Some(*x),
            None => get(*v, key@) is None,
        },
{
    match v {
        Json::Object(es) => {
            let kv = crate::text::chars_of(key);
            let mut j: usize = 0;
            while j < es.len()
                invariant
                    j <= es.len(),
                    kv@ == key@,
                    *v == Json::Object(*es),
                    forall|q: int| 0 <= q < j ==> (#[trigger] es@[q]).0@ != key@,
                decreases es.len() - j,
            {
                let name = crate::text::chars_of(es[j].0.as_str());
                if crate::text::eq_chars(name.as_slice(), kv.as_slice()) {
                    proof {
                        lemma_key_index(es@, key@, j as int);
                    }
                    return Some(&es[j].1);
                }
                j += 1;
            }
            proof {
                lemma_key_index(es@, key@, j as int);
            }
            None
        },
        _ => None,
    }
}

/// `Value::as_str`.
pub fn str_of(v: Option<&Json>) -> (r: Option<&str>)
    ensures
        match r {
            Some(s) => as_str(opt_val(v)) == Some(s@),
            None => as_str(opt_val(v)) is None,
        },
{
    match v {
        Some(Json::Str(s)) => Some(s.as_str()),
        _ => None,
    }
}

/// `Value::as_u64`.
pub fn u64_of(v: Option<&Json>) -> (r: Option<u64>)
    ensures
        r == as_u64(opt_val(v)),
{
    match v {
        Some(Json::Number(n)) => n.unsigned,
        _ => None,
    }
}

/// `Value::as_bool`.
pub fn bool_of(v: Option<&Json>) -> (r: Option<bool>)
    ensures
        r == as_bool(opt_val(v)),
{
    match v {
        Some(Json::Bool(b)) => Some(*b),
        _ => None,
    }
}

/// `Value::as_array`.
pub fn array_of(v: Option<&Json>) -> (r: Option<&Vec<Json>>)
    ensures
        match r {
            Some(a) => as_array(opt_val(v)) == Some(a@),
            None => as_array(opt_val(v)) is None,
        },
{
    match v {
        Some(Json::Array(a)) => Some(a),
        _ => None,
    }
}

pub open spec fn opt_val(v: Option<&Json>) -> Option<Json> {
    match v {
        Some(x) => Some(*x),
        None => None,
    }
}

/// The text of a string field, or `default`.
pub fn field_str(v: &Json, key: &str, default: &str) -> (r: String)
    ensures
        r@ == str_or(*v, key@, default@),
{
    match str_of(get_field(v, key)) {
        Some(s) => s.to_owned(),
        None => default.to_owned(),
    }
}

/// The number of a field, or 0.
pub fn field_u64(v: &Json, key: &str) -> (r: u64)
    ensures
        r == u64_or_zero(*v, key@),
{
    match u64_of(get_field(v, key)) {
        Some(n) => n,
        None => 0,
    }
}

} // verus!
