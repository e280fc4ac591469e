//! Reading the members of a node's metadata, a JSON object kept as text.
//!
//! `serde_json` parses the text; what it finds under a key is named here, and
//! everything the library decides from it is stated over those names.

use vstd::prelude::*;

#[allow(unused_imports)]
use crate::text::texts;

verus! {

/// The integer that the JSON object `text` holds under `key`: a number that
/// `serde_json` reads as an integer and an `i64` can hold. Nothing for other values,
/// other documents and text that is no JSON.
pub uninterp spec fn member_i64(text: Seq<char>, key: Seq<char>) -> Option<i64>;

/// Reads an integer member with `serde_json::from_str`, `Value::get` and
/// `Value::as_i64`.
#[verifier::external_body]
pub(crate) fn read_i64(text: &str, key: &str) -> (r: Option<i64>)
    ensures
        r == member_i64(text@, key@),
{
    let value: serde_json::Value = serde_json::from_str(text).ok()?;
    value.get(key)?.as_i64()
}

/// The string that the JSON object `text` holds under `key`.
pub uninterp spec fn member_str(text: Seq<char>, key: Seq<char>) -> Option<Seq<char>>;

/// Reads a string member with `serde_json::from_str`, `Value::get` and
/// `Value::as_str`.
#[verifier::external_body]
pub(crate) fn read_str(text: &str, key: &str) -> (r: Option<String>)
    ensures
        opt_view(r) == member_str(text@, key@),
{
    let value: serde_json::Value = serde_json::from_str(text).ok()?;
    Some(value.get(key)?.as_str()?.to_owned())
}

/// The array that the JSON object `text` holds under `key`, element by element:
/// a string, or nothing where the element is another value.
pub uninterp spec fn member_list(text: Seq<char>, key: Seq<char>) -> Option<
    Seq<Option<Seq<char>>>,
>;

/// Reads an array member with `serde_json::from_str`, `Value::get`,
/// `Value::as_array` and, on each element, `Value::as_str`.
#[verifier::external_body]
pub(crate) fn read_list(text: &str, key: &str) -> (r: Option<Vec<Option<String>>>)
    ensures
        match r {
            Some(v) => member_list(text@, key@) == Some(opt_views(v@)),
            None => member_list(text@, key@) is None,
        },
{
    let value: serde_json::Value = serde_json::from_str(text).ok()?;
    let list = value.get(key)?.as_array()?;
    Some(list.iter().map(|v| v.as_str().map(str::to_owned)).collect())
}

/// The boolean that the JSON object `text` holds under `key`.
pub uninterp spec fn member_bool(text: Seq<char>, key: Seq<char>) -> Option<bool>;

/// Reads a boolean member with `serde_json::from_str`, `Value::get` and
/// `Value::as_bool`.
#[verifier::external_body]
pub(crate) fn read_bool(text: &str, key: &str) -> (r: Option<bool>)
    ensures
        r == member_bool(text@, key@),
{
    let value: serde_json::Value = serde_json::from_str(text).ok()?;
    value.get(key)?.as_bool()
}

/// What the JSON object `text` holds under `key`, as `serde_json` writes it: a string
/// in quotes, a number in decimal, `true`, `false` or `null` by name, and an array or
/// object in its brackets, without blanks.
pub uninterp spec fn member_json(text: Seq<char>, key: Seq<char>) -> Option<Seq<char>>;

/// Reads a member of any type with `serde_json::from_str` and `Value::get`, and writes
/// it with `Value::to_string`.
#[verifier::external_body]
pub(crate) fn read_json(text: &str, key: &str) -> (r: Option<String>)
    ensures
        opt_view(r) == member_json(text@, key@),
{
    let value: serde_json::Value = serde_json::from_str(text).ok()?;
    Some(value.get(key)?.to_string())
}

/// Whether the JSON object `text` holds anything but null under `key`.
pub open spec fn is_set(text: Seq<char>, key: Seq<char>) -> bool {
    match member_json(text, key) {
        Some(j) => j != "null"@,
        None => false,
    }
}

/// The JSON text of an array of strings.
pub uninterp spec fn json_of_strings(list: Seq<Seq<char>>) -> Seq<char>;

/// Writes an array of strings as a `serde_json::Value`.
#[verifier::external_body]
pub(crate) fn write_strings(list: &Vec<String>) -> (r: String)
    ensures
        r@ == json_of_strings(texts(list@)),
{
    serde_json::Value::from(list.to_vec()).to_string()
}

/// The view of an optional string.
pub open spec fn opt_view(s: Option<String>) -> Option<Seq<char>> {
    match s {
        Some(t) => Some(t@),
        None => None,
    }
}

/// The views of a list of optional strings.
pub open spec fn opt_views(v: Seq<Option<String>>) -> Seq<Option<Seq<char>>> {
    Seq::new(v.len(), |i: int| opt_view(v[i]))
}

/// The strings of a list, without the elements that are none.
pub open spec fn only_strings(v: Seq<Option<Seq<char>>>) -> Seq<Seq<char>>
    decreases v.len(),
{
    if v.len() == 0 {
        Seq::empty()
    } else {
        match v.last() {
            Some(s) => only_strings(v.drop_last()).push(s),
            None => only_strings(v.drop_last()),
        }
    }
}

/// The strings of a list, without the elements that are none.
pub fn keep_strings(v: &Vec<Option<String>>) -> (r: Vec<String>)
    ensures
        texts(r@) == only_strings(opt_views(v@)),
{
    let mut out: Vec<String> = Vec::new();
    let mut i: usize = 0;
    assert(opt_views(v@).take(0) =~= Seq::empty());
    assert(texts(out@) =~= Seq::empty());
    while i < v.len()
        invariant
            i <= v@.len(),
            texts(out@) == only_strings(opt_views(v@).take(i as int)),
        decreases v@.len() - i,
    {
        let ghost all = opt_views(v@);
        assert(all.take(i + 1).drop_last() =~= all.take(i as int));
        assert(all.take(i + 1).last() == opt_view(v@[i as int]));
        let ghost before = texts(out@);
        match &v[i] {
            Some(s) => {
                let t = s.clone();
                out.push(t);
                assert(texts(out@) =~= before.push(t@));
            },
            None => {},
        }
        i += 1;
    }
    assert(opt_views(v@).take(v@.len() as int) =~= opt_views(v@));
    out
}

} // verus!
