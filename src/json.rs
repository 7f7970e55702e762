use vstd::prelude::*;

use crate::order::str_eq;

verus! {

/// The members of a JSON object, each as its key and the exact text of its
/// value; `None` when the text is not a JSON object. Members come in document
/// order; a repeated key keeps its first place and takes its last value.
pub uninterp spec fn json_object_of(text: Seq<char>) -> Option<Seq<(Seq<char>, Seq<char>)>>;

/// The JSON string that the text denotes, unescaped.
pub uninterp spec fn json_string_of(text: Seq<char>) -> Option<Seq<char>>;

/// The unsigned 64-bit integer that the text denotes.
pub uninterp spec fn json_u64_of(text: Seq<char>) -> Option<u64>;

/// The array of JSON strings that the text denotes.
pub uninterp spec fn json_string_list_of(text: Seq<char>) -> Option<Seq<Seq<char>>>;

/// The view of a list of object members.
pub open spec fn members_view(v: Seq<(String, String)>) -> Seq<(Seq<char>, Seq<char>)> {
    v.map_values(|m: (String, String)| (m.0@, m.1@))
}

/// The view of a list of strings.
pub open spec fn strings_view(v: Seq<String>) -> Seq<Seq<char>> {
    v.map_values(|s: String| s@)
}

/// Relies on `serde_json::from_str` into an `indexmap::IndexMap<String, &RawValue>`:
/// the members of an object in the order `IndexMap::insert` keeps them, each
/// value kept as raw text.
#[verifier::external_body]
pub(crate) fn json_object(text: &str) -> (r: Option<Vec<(String, String)>>)
    ensures
        match r {
            Some(v) => json_object_of(text@) == Some(members_view(v@)),
            None => json_object_of(text@) is None,
        },
{
    serde_json::from_str::<indexmap::IndexMap<String, &serde_json::value::RawValue>>(text)
        .ok()
        .map(|m| m.into_iter().map(|(k, v)| (k, v.get().to_owned())).collect())
}

/// Relies on `serde_json::from_str::<String>`: decodes a JSON string.
#[verifier::external_body]
pub(crate) fn json_string(text: &str) -> (r: Option<String>)
    ensures
        match r {
            Some(s) => json_string_of(text@) == Some(s@),
            None => json_string_of(text@) is None,
        },
{
    serde_json::from_str::<String>(text).ok()
}

/// Relies on `serde_json::from_str::<u64>`: decodes a non-negative JSON integer.
#[verifier::external_body]
pub(crate) fn json_u64(text: &str) -> (r: Option<u64>)
    ensures
        r == json_u64_of(text@),
{
    serde_json::from_str::<u64>(text).ok()
}

/// Relies on `serde_json::from_str::<Vec<String>>`: decodes an array of JSON strings.
#[verifier::external_body]
pub(crate) fn json_string_list(text: &str) -> (r: Option<Vec<String>>)
    ensures
        match r {
            Some(v) => json_string_list_of(text@) == Some(strings_view(v@)),
            None => json_string_list_of(text@) is None,
        },
{
    serde_json::from_str::<Vec<String>>(text).ok()
}

/// The raw value of the first member named `key`.
pub open spec fn field_of(ms: Seq<(Seq<char>, Seq<char>)>, key: Seq<char>) -> Option<Seq<char>>
    decreases ms.len(),
{
    if ms.len() == 0 {
        None
    } else if ms[0].0 == key {
        Some(ms[0].1)
    } else {
        field_of(ms.drop_first(), key)
    }
}

/// The position of the first member named `key`.
pub(crate) fn find_field(ms: &Vec<(String, String)>, key: &str) -> (r: Option<usize>)
    ensures
        match r {
            Some(i) => i < ms@.len() && field_of(members_view(ms@), key@) == Some(
                ms@[i as int].1@,
            ),
            None => field_of(members_view(ms@), key@) is None,
        },
{
    let ghost all = members_view(ms@);
    let mut i: usize = 0;
    assert(all.subrange(0, all.len() as int) =~= all);
    while i < ms.len()
        invariant
            i <= ms@.len(),
            all == members_view(ms@),
            field_of(all, key@) == field_of(all.subrange(i as int, all.len() as int), key@),
        decreases ms@.len() - i,
    {
        let ghost rest = all.subrange(i as int, all.len() as int);
        assert(rest[0] == all[i as int]);
        if str_eq(ms[i].0.as_str(), key) {
            return Some(i);
        }
        assert(rest.drop_first() =~= all.subrange(i + 1, all.len() as int));
        i = i + 1;
    }
    None
}

} // verus!
