//! The backing byte store: `cosmwasm_std`'s in-memory `MockStorage`, taken on
//! trust through a handful of thin wrappers.
//!
//! The store is modelled by `contents`, the map from key to value that it
//! currently holds. Each wrapper states over that map what the store's own
//! source shows: `get`, `set` and `remove` behave as map lookup, insert and
//! delete, and `range` walks a half-open key window in byte order.

use vstd::prelude::*;
use crate::bytes::{lex_le, lex_lt};
use cosmwasm_std::testing::MockStorage;

verus! {

#[verifier::external_type_specification]
#[verifier::external_body]
pub struct ExMockStorage(MockStorage);

/// The entries a `MockStorage` currently holds, keyed by raw bytes.
pub uninterp spec fn contents(s: MockStorage) -> Map<Seq<u8>, Seq<u8>>;

/// The view of an optional borrowed key bound.
pub open spec fn opt_view(o: Option<&Vec<u8>>) -> Option<Seq<u8>> {
    match o {
        Some(v) => Some(v@),
        None => None,
    }
}

/// `k` lies in the half-open window `[start, end)`; an absent bound does not
/// constrain.
pub open spec fn in_window(start: Option<Seq<u8>>, end: Option<Seq<u8>>, k: Seq<u8>) -> bool {
    &&& (start matches Some(s) ==> lex_le(s, k))
    &&& (end matches Some(e) ==> lex_lt(k, e))
}

/// Strictly ordered, forwards or backwards.
pub open spec fn lex_order(ascending: bool, a: Seq<u8>, b: Seq<u8>) -> bool {
    if ascending {
        lex_lt(a, b)
    } else {
        lex_lt(b, a)
    }
}

/// Relies on `MockStorage::new`: a freshly created store holds no entries.
#[verifier::external_body]
pub(crate) fn store_new() -> (s: MockStorage)
    ensures
        forall|k: Seq<u8>| !contents(s).contains_key(k),
{
    MockStorage::new()
}

/// Relies on `Storage::get` for `MockStorage`: a copy of the value stored
/// under `key`, or `None` when the key holds nothing.
#[verifier::external_body]
pub(crate) fn store_get(s: &MockStorage, key: &[u8]) -> (r: Option<Vec<u8>>)
    ensures
        match r {
            Some(v) => contents(*s).contains_key(key@) && contents(*s)[key@] == v@,
            None => !contents(*s).contains_key(key@),
        },
{
    cosmwasm_std::Storage::get(s, key)
}

/// Relies on `Storage::set` for `MockStorage`: inserts the entry, overwriting
/// any previous value. `set` panics on an empty value, so that input is
/// excluded here.
#[verifier::external_body]
pub(crate) fn store_set(s: &mut MockStorage, key: &[u8], value: &[u8])
    requires
        value@.len() > 0,
    ensures
        contents(*final(s)) == contents(*old(s)).insert(key@, value@),
{
    cosmwasm_std::Storage::set(s, key, value)
}

/// Relies on `Storage::remove` for `MockStorage`: deletes the entry under
/// `key`; deleting an absent key changes nothing.
#[verifier::external_body]
pub(crate) fn store_remove(s: &mut MockStorage, key: &[u8])
    ensures
        contents(*final(s)) == contents(*old(s)).remove(key@),
{
    cosmwasm_std::Storage::remove(s, key)
}

/// Relies on `Storage::range` for `MockStorage`: every entry whose key lies
/// in `[start, end)` (an absent bound leaves that side open), by key in byte
/// order, ascending or descending; an out-of-order window is empty.
#[verifier::external_body]
pub(crate) fn store_range(
    s: &MockStorage,
    start: Option<&Vec<u8>>,
    end: Option<&Vec<u8>>,
    ascending: bool,
) -> (r: Vec<(Vec<u8>, Vec<u8>)>)
    ensures
        forall|i: int|
            0 <= i < r@.len() ==> {
                &&& in_window(opt_view(start), opt_view(end), (#[trigger] r@[i]).0@)
                &&& contents(*s).contains_key(r@[i].0@)
                &&& contents(*s)[r@[i].0@] == r@[i].1@
            },
        forall|k: Seq<u8>|
            #[trigger] contents(*s).contains_key(k) && in_window(opt_view(start), opt_view(end), k)
                ==> exists|i: int| 0 <= i < r@.len() && (#[trigger] r@[i]).0@ == k,
        forall|i: int, j: int|
            0 <= i < j < r@.len() ==> lex_order(
                ascending,
                (#[trigger] r@[i]).0@,
                (#[trigger] r@[j]).0@,
            ),
{
    let order = if ascending {
        cosmwasm_std::Order::Ascending
    } else {
        cosmwasm_std::Order::Descending
    };
    cosmwasm_std::Storage::range(
        s,
        start.map(|v: &Vec<u8>| v.as_slice()),
        end.map(|v: &Vec<u8>| v.as_slice()),
        order,
    )
    .collect()
}

} // verus!
