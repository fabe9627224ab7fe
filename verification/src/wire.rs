//! Structured response bodies: `poll` and `list-committed-offsets` answers
//! travel as JSON text. Rendering and parsing are done by serde_json; each
//! call sits behind a trusted wrapper whose result is named, since spelling
//! out JSON text takes pages.

use vstd::prelude::*;
use crate::store::pairs_view;

verus! {

/// The view of poll response entries: each key with its (offset, message)
/// pairs.
pub open spec fn poll_entries_view(v: Seq<(String, Vec<(usize, usize)>)>) -> Seq<
    (Seq<char>, Seq<(usize, usize)>),
> {
    v.map(|i: int, p: (String, Vec<(usize, usize)>)| (p.0@, p.1@))
}

/// The JSON object text that a poll response with these entries is
/// rendered as.
pub uninterp spec fn poll_json_of(entries: Seq<(Seq<char>, Seq<(usize, usize)>)>) -> Seq<char>;

/// Relies on serde_json::to_string over a BTreeMap<String, Vec<(usize, usize)>>:
/// renders the entries as one JSON object mapping each key to its array of
/// [offset, message] pairs, members sorted by key, a later duplicate key
/// replacing an earlier one. The text depends on the entries alone.
#[verifier::external_body]
pub fn poll_response_json(entries: &Vec<(String, Vec<(usize, usize)>)>) -> (r: String)
    ensures
        r@ == poll_json_of(poll_entries_view(entries@)),
{
    let map: std::collections::BTreeMap<String, Vec<(usize, usize)>> =
        entries.iter().cloned().collect();
    serde_json::to_string(&map).unwrap_or_default()
}

/// The JSON object text that a list-committed-offsets response with these
/// entries is rendered as.
pub uninterp spec fn list_json_of(entries: Seq<(Seq<char>, usize)>) -> Seq<char>;

/// Relies on serde_json::to_string over a BTreeMap<String, usize>: renders
/// the entries as one JSON object mapping each key to its offset, members
/// sorted by key, a later duplicate key replacing an earlier one. The text
/// depends on the entries alone.
#[verifier::external_body]
pub fn list_response_json(entries: &Vec<(String, usize)>) -> (r: String)
    ensures
        r@ == list_json_of(pairs_view(entries@)),
{
    let map: std::collections::BTreeMap<String, usize> = entries.iter().cloned().collect();
    serde_json::to_string(&map).unwrap_or_default()
}

/// What a poll response body parses into, when it is a JSON object mapping
/// keys to arrays of [offset, message] pairs, and nothing otherwise.
pub uninterp spec fn poll_json_value(s: Seq<char>) -> Option<Seq<(Seq<char>, Seq<(usize, usize)>)>>;

/// Relies on serde_json::from_str to a BTreeMap<String, Vec<(usize, usize)>>:
/// parses the text as that JSON object, entries coming back sorted by key,
/// or fails on any other text. The outcome depends on the text alone.
#[verifier::external_body]
pub fn parse_poll_response(s: &str) -> (r: Option<Vec<(String, Vec<(usize, usize)>)>>)
    ensures
        match r {
            Some(v) => poll_json_value(s@) == Some(poll_entries_view(v@)),
            None => poll_json_value(s@) is None,
        },
{
    match serde_json::from_str::<std::collections::BTreeMap<String, Vec<(usize, usize)>>>(s) {
        Ok(m) => Some(m.into_iter().collect()),
        Err(_) => None,
    }
}

/// What a list-committed-offsets response body parses into, when it is a
/// JSON object mapping keys to offsets, and nothing otherwise.
pub uninterp spec fn list_json_value(s: Seq<char>) -> Option<Seq<(Seq<char>, usize)>>;

/// Relies on serde_json::from_str to a BTreeMap<String, usize>: parses the
/// text as that JSON object, entries coming back sorted by key, or fails
/// on any other text. The outcome depends on the text alone.
#[verifier::external_body]
pub fn parse_list_response(s: &str) -> (r: Option<Vec<(String, usize)>>)
    ensures
        match r {
            Some(v) => list_json_value(s@) == Some(pairs_view(v@)),
            None => list_json_value(s@) is None,
        },
{
    match serde_json::from_str::<std::collections::BTreeMap<String, usize>>(s) {
        Ok(m) => Some(m.into_iter().collect()),
        Err(_) => None,
    }
}

} // verus!
