use vstd::prelude::*;

use crate::json::JsonValue;
use crate::text::{contains_folded, lower_of, occurs_in, to_lower};

verus! {

broadcast use vstd::std_specs::vec::axiom_vec_index_decreases;

/// Whether some text inside `v` contains `q` once that text is lower-cased.
///
/// Strings are searched; arrays and objects match when one of their elements
/// (for an object, one of its values, never a key) matches; numbers, booleans
/// and null never match.
pub open spec fn value_matches(v: JsonValue, q: Seq<char>) -> bool
    decreases v,
{
    match v {
        JsonValue::Str(s) => occurs_in(q, lower_of(s@)),
        JsonValue::Array(items) => exists|i: int|
            0 <= i < items.len() && value_matches(#[trigger] items@[i], q),
        JsonValue::Object(fields) => exists|i: int|
            0 <= i < fields.len() && value_matches(#[trigger] fields@[i].1, q),
        _ => false,
    }
}

/// Whether some text inside `value` contains `query`, which the caller has
/// already lower-cased.
pub fn value_contains_string(value: &JsonValue, query: &str) -> (r: bool)
    ensures
        r == value_matches(*value, query@),
    decreases value,
{
    match value {
        JsonValue::Str(s) => {
            let folded = to_lower(s.as_str());
            contains_folded(folded.as_str(), query)
        },
        JsonValue::Array(items) => {
            let mut i: usize = 0;
            while i < items.len()
                invariant
                    i <= items.len(),
                    *value == JsonValue::Array(*items),
                    forall|k: int| 0 <= k < i ==> !value_matches(#[trigger] items@[k], query@),
                decreases items.len() - i,
            {
                assert(decreases_to!(*value => value->Array_0));
                assert(decreases_to!(*items => items[i as int]));
                if value_contains_string(&items[i], query) {
                    return true;
                }
                i = i + 1;
            }
            false
        },
        JsonValue::Object(fields) => {
            let mut i: usize = 0;
            while i < fields.len()
                invariant
                    i <= fields.len(),
                    *value == JsonValue::Object(*fields),
                    forall|k: int| 0 <= k < i ==> !value_matches(#[trigger] fields@[k].1, query@),
                decreases fields.len() - i,
            {
                assert(decreases_to!(*value => value->Object_0));
                assert(decreases_to!(*fields => fields[i as int]));
                assert(decreases_to!(fields[i as int] => fields[i as int].1));
                if value_contains_string(&fields[i].1, query) {
                    return true;
                }
                i = i + 1;
            }
            false
        },
        _ => false,
    }
}

/// The items that [`fuzzy_search`] keeps for a query: all of them for an
/// empty query, else those in which the lower-cased query occurs.
pub open spec fn search_result(items: Seq<JsonValue>, query: Seq<char>) -> Seq<JsonValue> {
    if query.len() == 0 {
        items
    } else {
        search_folded_result(items, lower_of(query))
    }
}

/// The items in which the already lower-cased `folded` occurs, in their order.
pub open spec fn search_folded_result(items: Seq<JsonValue>, folded: Seq<char>) -> Seq<JsonValue> {
    items.filter(|v: JsonValue| value_matches(v, folded))
}

/// Keeps the items in which the already lower-cased `folded_query` occurs,
/// in their order.
pub fn search_folded(items: Vec<JsonValue>, folded_query: &str) -> (r: Vec<JsonValue>)
    ensures
        r@ == search_folded_result(items@, folded_query@),
{
    let ghost all = items@;
    let ghost keep = |v: JsonValue| value_matches(v, folded_query@);
    let mut rest = items;
    let mut out: Vec<JsonValue> = Vec::new();
    let ghost mut done: int = 0;
    while rest.len() > 0
        invariant
            0 <= done <= all.len(),
            rest@ == all.subrange(done, all.len() as int),
            out@ == all.subrange(0, done).filter(keep),
            keep == (|v: JsonValue| value_matches(v, folded_query@)),
        decreases rest.len(),
    {
        let item = rest.remove(0);
        let hit = value_contains_string(&item, folded_query);
        proof {
            assert(all.subrange(0, done + 1).drop_last() =~= all.subrange(0, done));
            reveal(Seq::filter);
            done = done + 1;
        }
        if hit {
            out.push(item);
        }
    }
    assert(all.subrange(0, all.len() as int) =~= all);
    out
}

/// Keeps the items in which `query` occurs, ignoring case, in their order;
/// an empty query keeps every item.
pub fn fuzzy_search(items: Vec<JsonValue>, query: &str) -> (r: Vec<JsonValue>)
    ensures
        r@ == search_result(items@, query@),
        query@.len() == 0 ==> r@ == items@,
{
    if query.is_empty() {
        return items;
    }
    let folded = to_lower(query);
    search_folded(items, folded.as_str())
}

proof fn lemma_filter_twice<A>(s: Seq<A>, keep: spec_fn(A) -> bool)
    ensures
        s.filter(keep).filter(keep) == s.filter(keep),
    decreases s.len(),
{
    reveal(Seq::filter);
    if s.len() > 0 {
        lemma_filter_twice(s.drop_last(), keep);
        let once = s.drop_last().filter(keep);
        if keep(s.last()) {
            assert(once.push(s.last()).drop_last() =~= once);
        }
    }
}

/// Searching the result of a search again, with the same query, gives the
/// same result.
pub proof fn lemma_search_idempotent(items: Seq<JsonValue>, query: Seq<char>)
    ensures
        search_result(search_result(items, query), query) == search_result(items, query),
{
    if query.len() > 0 {
        lemma_filter_twice(items, |v: JsonValue| value_matches(v, lower_of(query)));
    }
}

/// An empty query keeps every item, in its place.
pub proof fn lemma_empty_query_keeps_all(items: Seq<JsonValue>)
    ensures
        search_result(items, Seq::<char>::empty()) == items,
{
}

} // verus!
