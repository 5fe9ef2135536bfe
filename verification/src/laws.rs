//! Cross-operation laws of the bucket, stated over its observable state.
//!
//! Each mutating operation's contract says how it changes the map from
//! primary key to record; these lemmas state what follows for sequences of
//! operations, so a reader sees the guarantees spelled out rather than
//! having to derive them.

use vstd::prelude::*;
use crate::record::{RecordView, index_of};
use crate::bucket::IndexedBucket;

verus! {

/// The primary keys of `m` whose record carries the index value `i`: what
/// an index lookup for `i` is expected to find.
pub open spec fn pks_with_index(m: Map<Seq<u8>, RecordView>, i: Seq<u8>) -> Set<Seq<u8>> {
    Set::new(|pk: Seq<u8>| m.contains_key(pk) && index_of(m[pk]) == i)
}

/// What `pks_by_index` promises of each key is exactly membership in
/// `pks_with_index` of the bucket's state.
pub proof fn lemma_links_iff_indexed(b: IndexedBucket, pk: Seq<u8>, i: Seq<u8>)
    ensures
        b.links(pk, i) <==> pks_with_index(b.records(), i).contains(pk),
{
}

/// Saving then loading gives the record back: after `save(pk, v)` the state
/// maps `pk` to `v`, which is what `may_load(pk)` then returns.
pub proof fn lemma_save_then_load(m: Map<Seq<u8>, RecordView>, pk: Seq<u8>, v: RecordView)
    ensures
        m.insert(pk, v).contains_key(pk),
        m.insert(pk, v)[pk] == v,
{
}

/// After `remove(pk)` the key holds nothing, and removing it again changes
/// nothing.
pub proof fn lemma_remove_idempotent(m: Map<Seq<u8>, RecordView>, pk: Seq<u8>)
    ensures
        !m.remove(pk).contains_key(pk),
        m.remove(pk).remove(pk) == m.remove(pk),
{
    assert(m.remove(pk).remove(pk) =~= m.remove(pk));
}

/// After `save(pk, v)`, the index lookup for `v`'s index value contains
/// `pk`; that it contains it only once is the ascending strict order of
/// `pks_by_index`.
pub proof fn lemma_save_indexes(m: Map<Seq<u8>, RecordView>, pk: Seq<u8>, v: RecordView)
    ensures
        pks_with_index(m.insert(pk, v), index_of(v)).contains(pk),
{
}

/// Saving `v1` and then `v2` with a different index value under the same
/// key moves the key from the old index lookup to the new one.
pub proof fn lemma_reindex(m: Map<Seq<u8>, RecordView>, pk: Seq<u8>, v1: RecordView, v2: RecordView)
    requires
        index_of(v1) != index_of(v2),
    ensures
        !pks_with_index(m.insert(pk, v1).insert(pk, v2), index_of(v1)).contains(pk),
        pks_with_index(m.insert(pk, v1).insert(pk, v2), index_of(v2)).contains(pk),
{
}

/// A key held by no record is in no index lookup.
pub proof fn lemma_removed_unindexed(m: Map<Seq<u8>, RecordView>, pk: Seq<u8>, i: Seq<u8>)
    ensures
        !pks_with_index(m.remove(pk), i).contains(pk),
{
}

} // verus!
