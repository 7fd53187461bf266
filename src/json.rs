use vstd::prelude::*;

verus! {

/// A JSON value of any shape, as a tree of plain values.
///
/// A number is kept in its textual form, so that it passes through the
/// library unchanged; the members of an object keep their order.
#[derive(Debug, PartialEq)]
pub enum JsonValue {
    Null,
    Bool(bool),
    Number(String),
    Str(String),
    Array(Vec<JsonValue>),
    Object(Vec<(String, JsonValue)>),
}

} // verus!
