use vstd::prelude::*;

verus! {

/// An already parsed document: scalars, ordered sequences and ordered maps.
pub enum JsonValue {
    Null,
    Bool(bool),
    /// A number in its canonical textual form.
    Number(String),
    Str(String),
    Array(Vec<JsonValue>),
    Object(Vec<(String, JsonValue)>),
}

/// The number of values in `v`, itself included.
pub open spec fn size(v: JsonValue) -> nat
    decreases v, 0int,
{
    match v {
        JsonValue::Array(items) => 1 + items_size(items@, items@.len() as int),
        JsonValue::Object(entries) => 1 + entries_size(entries@, entries@.len() as int),
        _ => 1,
    }
}

/// The number of values in the first `k` items.
pub open spec fn items_size(s: Seq<JsonValue>, k: int) -> nat
    decreases s, k,
{
    if 0 < k <= s.len() {
        items_size(s, k - 1) + size(s[k - 1])
    } else {
        0
    }
}

/// The number of values in the first `k` entries.
pub open spec fn entries_size(s: Seq<(String, JsonValue)>, k: int) -> nat
    decreases s, k,
{
    if 0 < k <= s.len() {
        entries_size(s, k - 1) + size(s[k - 1].1)
    } else {
        0
    }
}

} // verus!
