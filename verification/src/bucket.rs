//! A namespace-scoped key-value bucket with a secondary index.
//!
//! All state lives in the backing byte store under two disjoint,
//! length-prefixed key prefixes: primary data at `frame(ns) + frame("pk") +
//! pk`, and one presence marker per stored record at `frame(ns) +
//! frame("idx") + frame(index) + pk`. The invariant `inv` ties the two
//! spaces together: a marker exists for `(i, pk)` exactly when the record
//! stored at `pk` has index `i`.
//!
//! The bucket's observable state is `records`, the map from primary key to
//! decoded record; every mutating operation states how it changes that map.

use vstd::prelude::*;
use crate::bytes::{frame, has_prefix, lex_le, lex_lt, lemma_append_inj, lemma_frame_inj,
    lemma_prefix_le, lemma_prefix_window, lemma_lex_append,
    lemma_lex_le_lt_trans, lemma_between_prefix, successor_spec, to_length_prefixed,
    concat_bytes, tail_from, prefix_successor};
use crate::record::{Record, RecordView, valid_record, index_of, encode_spec, decode_spec,
    lemma_codec_round_trip, index_key, encode_record, decode_record};
use crate::store::{contents, in_window, lex_order, opt_view, store_new, store_get, store_set,
    store_remove, store_range};
use cosmwasm_std::testing::MockStorage;

verus! {

/// How a scan walks the primary key space.
#[derive(Clone, Copy, PartialEq, Eq, Structural, Debug)]
pub enum Order {
    Ascending,
    Descending,
}

/// What a bucket read can report.
#[derive(Clone, Copy, PartialEq, Eq, Structural, Debug)]
pub enum BucketError {
    /// `load` found nothing under the key.
    NotFound,
    /// Stored bytes do not parse as a record.
    Deserialization,
}

/// The sub-space tag for primary data: the bytes of `"pk"`.
pub open spec fn tag_pk() -> Seq<u8> {
    seq![112u8, 107u8]
}

/// The sub-space tag for index entries: the bytes of `"idx"`.
pub open spec fn tag_idx() -> Seq<u8> {
    seq![105u8, 100u8, 120u8]
}

/// The payload of an index entry: a single presence marker byte, `"1"`.
pub open spec fn marker() -> Seq<u8> {
    seq![49u8]
}

/// The record a well-formed encoding decodes to.
pub open spec fn decoded(b: Seq<u8>) -> RecordView {
    match decode_spec(b) {
        Some(v) => v,
        None => RecordView { category: Seq::<u8>::empty(), name: Seq::<u8>::empty() },
    }
}

/// `arg` is what loading `key` from state `m` hands an update action.
pub open spec fn loaded_arg(m: Map<Seq<u8>, RecordView>, key: Seq<u8>, arg: Option<Record>) -> bool {
    match arg {
        Some(a) => m.contains_key(key) && a@ == m[key],
        None => !m.contains_key(key),
    }
}

/// The view of an optional byte-slice bound.
pub open spec fn opt_bytes_view(o: Option<&[u8]>) -> Option<Seq<u8>> {
    match o {
        Some(s) => Some(s@),
        None => None,
    }
}

/// The view of an optional borrowed record.
pub open spec fn opt_record_view(o: Option<&Record>) -> Option<RecordView> {
    match o {
        Some(r) => Some(r@),
        None => None,
    }
}

/// A bucket: an exclusively held backing store plus the two precomputed
/// key-space prefixes. Every record it stores is indexed by the record's
/// derived index key, and the index is kept consistent on every mutation.
pub struct IndexedBucket {
    storage: MockStorage,
    prefix_pk: Vec<u8>,
    prefix_idx: Vec<u8>,
    namespace: Ghost<Seq<u8>>,
}

impl IndexedBucket {
    /// The raw contents of the backing store.
    pub closed spec fn contents(self) -> Map<Seq<u8>, Seq<u8>> {
        contents(self.storage)
    }

    /// The namespace this bucket was created with.
    pub closed spec fn ns(self) -> Seq<u8> {
        self.namespace@
    }

    /// The two prefixes are the length-prefixed framing of the namespace and
    /// the sub-space tag, so distinct namespaces and distinct sub-spaces can
    /// never produce overlapping keys.
    pub closed spec fn wf(self) -> bool {
        &&& self.ns().len() <= 0xFFFF
        &&& self.prefix_pk@ == frame(self.ns()) + frame(tag_pk())
        &&& self.prefix_idx@ == frame(self.ns()) + frame(tag_idx())
    }

    /// The storage key holding the record stored under `pk`.
    pub closed spec fn pk_key(self, pk: Seq<u8>) -> Seq<u8> {
        self.prefix_pk@ + pk
    }

    /// The storage key of the index presence marker for `(i, pk)`.
    pub closed spec fn index_entry_key(self, i: Seq<u8>, pk: Seq<u8>) -> Seq<u8> {
        self.prefix_idx@ + (frame(i) + pk)
    }

    /// The bucket's observable state: primary key to stored record.
    pub closed spec fn records(self) -> Map<Seq<u8>, RecordView> {
        Map::new(
            |pk: Seq<u8>| self.contents().contains_key(self.pk_key(pk)),
            |pk: Seq<u8>| decoded(self.contents()[self.pk_key(pk)]),
        )
    }

    /// The record currently stored under `key`, if any.
    pub open spec fn stored(self, key: Seq<u8>) -> Option<RecordView> {
        if self.records().contains_key(key) {
            Some(self.records()[key])
        } else {
            None
        }
    }

    /// The raw writes `replace` makes: drop `old_data`'s marker, then either
    /// write `data`'s marker and encoding, or delete the primary entry.
    pub closed spec fn replace_effect(
        self,
        key: Seq<u8>,
        data: Option<RecordView>,
        old_data: Option<RecordView>,
    ) -> Map<Seq<u8>, Seq<u8>> {
        let c1 = match old_data {
            Some(o) => self.contents().remove(self.index_entry_key(index_of(o), key)),
            None => self.contents(),
        };
        match data {
            Some(d) => c1.insert(self.index_entry_key(index_of(d), key), marker()).insert(
                self.pk_key(key),
                encode_spec(d),
            ),
            None => c1.remove(self.pk_key(key)),
        }
    }

    /// The record stored at `pk` currently has index `i`.
    pub open spec fn links(self, pk: Seq<u8>, i: Seq<u8>) -> bool {
        self.records().contains_key(pk) && index_of(self.records()[pk]) == i
    }

    /// Every key is in one of the two sub-spaces, primary entries decode,
    /// and index markers mirror the stored records exactly.
    pub closed spec fn inv(self) -> bool {
        &&& self.wf()
        &&& forall|k: Seq<u8>|
            #[trigger] self.contents().contains_key(k) ==> has_prefix(k, self.prefix_pk@)
                || has_prefix(k, self.prefix_idx@)
        &&& forall|pk: Seq<u8>|
            self.contents().contains_key(#[trigger] self.pk_key(pk)) ==> decode_spec(
                self.contents()[self.pk_key(pk)],
            ) is Some
        &&& forall|i: Seq<u8>, pk: Seq<u8>|
            i.len() <= 0xFFFF ==> (self.contents().contains_key(
                #[trigger] self.index_entry_key(i, pk),
            ) <==> self.links(pk, i))
    }

    /// Primary keys are injective in the stored key.
    proof fn lemma_pk_key_inj(self, a: Seq<u8>, b: Seq<u8>)
        requires
            self.pk_key(a) == self.pk_key(b),
        ensures
            a == b,
    {
        lemma_append_inj(self.prefix_pk@, a, b);
    }

    /// Index entry keys are injective in both the index and the stored key.
    proof fn lemma_index_key_inj(self, i1: Seq<u8>, p1: Seq<u8>, i2: Seq<u8>, p2: Seq<u8>)
        requires
            i1.len() <= 0xFFFF,
            i2.len() <= 0xFFFF,
            self.index_entry_key(i1, p1) == self.index_entry_key(i2, p2),
        ensures
            i1 == i2,
            p1 == p2,
    {
        lemma_append_inj(self.prefix_idx@, frame(i1) + p1, frame(i2) + p2);
        lemma_frame_inj(i1, p1, i2, p2);
    }

    /// No primary data key is ever an index entry key: the sub-space tags
    /// differ in their length byte.
    proof fn lemma_spaces_disjoint(self, a: Seq<u8>, i: Seq<u8>, b: Seq<u8>)
        requires
            self.wf(),
        ensures
            self.pk_key(a) != self.index_entry_key(i, b),
    {
        let n = frame(self.ns()).len() as int;
        assert(self.pk_key(a)[n + 1] == 2) by {
            assert(self.prefix_pk@[n + 1] == frame(tag_pk())[1]);
        }
        assert(self.index_entry_key(i, b)[n + 1] == 3) by {
            assert(self.prefix_idx@[n + 1] == frame(tag_idx())[1]);
        }
    }

    /// The primary prefix ends below the maximum byte, so it has a successor.
    proof fn lemma_prefix_pk_successor(self)
        requires
            self.wf(),
        ensures
            successor_spec(self.prefix_pk@) is Some,
    {
        assert(self.prefix_pk@.last() == 107) by {
            assert(frame(tag_pk()).last() == tag_pk().last());
        }
    }

    /// Builds `prefix + key` for the primary space.
    fn primary_key(&self, key: &[u8]) -> (out: Vec<u8>)
        ensures
            out@ == self.pk_key(key@),
    {
        concat_bytes(self.prefix_pk.as_slice(), key)
    }

    /// The scan prefix of one index value: the index prefix followed by the
    /// framed index bytes.
    fn index_space(&self, idx: &[u8]) -> (out: Vec<u8>)
        requires
            idx@.len() <= 0xFFFF,
        ensures
            out@ == self.prefix_idx@ + frame(idx@),
    {
        let framed = to_length_prefixed(idx);
        concat_bytes(self.prefix_idx.as_slice(), framed.as_slice())
    }

    /// Creates a bucket over a fresh, empty backing store, with both
    /// sub-space prefixes derived from `namespace`.
    pub fn new(namespace: &[u8]) -> (b: IndexedBucket)
        requires
            namespace@.len() <= 0xFFFF,
        ensures
            b.inv(),
            b.ns() == namespace@,
            b.records() == Map::<Seq<u8>, RecordView>::empty(),
    {
        let framed_ns = to_length_prefixed(namespace);
        let mut tag_p: Vec<u8> = Vec::new();
        tag_p.push(112);
        tag_p.push(107);
        let mut tag_i: Vec<u8> = Vec::new();
        tag_i.push(105);
        tag_i.push(100);
        tag_i.push(120);
        assert(tag_p@ =~= tag_pk());
        assert(tag_i@ =~= tag_idx());
        let framed_p = to_length_prefixed(tag_p.as_slice());
        let framed_i = to_length_prefixed(tag_i.as_slice());
        let b = IndexedBucket {
            storage: store_new(),
            prefix_pk: concat_bytes(framed_ns.as_slice(), framed_p.as_slice()),
            prefix_idx: concat_bytes(framed_ns.as_slice(), framed_i.as_slice()),
            namespace: Ghost(namespace@),
        };
        proof {
            assert forall|pk: Seq<u8>| !b.records().contains_key(pk) by {
                assert(!b.contents().contains_key(b.pk_key(pk)));
            }
            assert(b.records() =~= Map::<Seq<u8>, RecordView>::empty());
        }
        b
    }

    /// Writes the presence marker for `(idx, key)` into the index space.
    /// Writing a marker that is already present changes nothing.
    pub fn add_to_index(&mut self, idx: &[u8], key: &[u8])
        requires
            old(self).wf(),
            idx@.len() <= 0xFFFF,
        ensures
            final(self).wf(),
            final(self).ns() == old(self).ns(),
            final(self).contents() == old(self).contents().insert(
                old(self).index_entry_key(idx@, key@),
                marker(),
            ),
    {
        let space = self.index_space(idx);
        let entry = concat_bytes(space.as_slice(), key);
        let mut value: Vec<u8> = Vec::new();
        value.push(49);
        assert(entry@ =~= self.prefix_idx@ + (frame(idx@) + key@));
        assert(value@ =~= marker());
        store_set(&mut self.storage, entry.as_slice(), value.as_slice());
    }

    /// Deletes the presence marker for `(idx, key)`; deleting an absent
    /// marker changes nothing.
    pub fn remove_from_index(&mut self, idx: &[u8], key: &[u8])
        requires
            old(self).wf(),
            idx@.len() <= 0xFFFF,
        ensures
            final(self).wf(),
            final(self).ns() == old(self).ns(),
            final(self).contents() == old(self).contents().remove(
                old(self).index_entry_key(idx@, key@),
            ),
    {
        let space = self.index_space(idx);
        let entry = concat_bytes(space.as_slice(), key);
        assert(entry@ =~= self.prefix_idx@ + (frame(idx@) + key@));
        store_remove(&mut self.storage, entry.as_slice());
    }

    /// The sole low-level mutation: drop `old_data`'s index marker, then
    /// either write `data` (marker first, then the record) or delete the
    /// primary entry. `old_data` must be what is actually stored under `key`
    /// for the index to stay consistent; this primitive itself only promises
    /// the raw writes.
    pub fn replace(&mut self, key: &[u8], data: Option<&Record>, old_data: Option<&Record>) -> (r:
        Result<(), BucketError>)
        requires
            old(self).wf(),
            data matches Some(d) ==> valid_record(d@),
            old_data matches Some(o) ==> valid_record(o@),
        ensures
            final(self).wf(),
            final(self).ns() == old(self).ns(),
            r is Ok,
            final(self).contents() == old(self).replace_effect(
                key@,
                opt_record_view(data),
                opt_record_view(old_data),
            ),
    {
        if let Some(old_rec) = old_data {
            let old_idx = index_key(old_rec);
            self.remove_from_index(old_idx.as_slice(), key);
        }
        match data {
            Some(updated) => {
                let new_idx = index_key(updated);
                self.add_to_index(new_idx.as_slice(), key);
                let encoded = encode_record(updated);
                let pk_key = self.primary_key(key);
                proof {
                    lemma_codec_round_trip(updated@);
                }
                store_set(&mut self.storage, pk_key.as_slice(), encoded.as_slice());
            },
            None => {
                let pk_key = self.primary_key(key);
                store_remove(&mut self.storage, pk_key.as_slice());
            },
        }
        Ok(())
    }

    /// Primary keys live in the primary sub-space.
    proof fn lemma_pk_key_prefix(self, pk: Seq<u8>)
        ensures
            has_prefix(self.pk_key(pk), self.prefix_pk@),
    {
        assert(self.pk_key(pk).subrange(0, self.prefix_pk@.len() as int) =~= self.prefix_pk@);
    }

    /// Index entry keys live in the index sub-space.
    proof fn lemma_index_key_prefix(self, i: Seq<u8>, pk: Seq<u8>)
        ensures
            has_prefix(self.index_entry_key(i, pk), self.prefix_idx@),
    {
        assert(self.index_entry_key(i, pk).subrange(0, self.prefix_idx@.len() as int)
            =~= self.prefix_idx@);
    }

    /// A stored record's segments were read back from 2-byte length headers,
    /// so they fit the framing.
    proof fn lemma_records_valid(self, pk: Seq<u8>)
        requires
            self.inv(),
            self.records().contains_key(pk),
        ensures
            valid_record(self.records()[pk]),
    {
        assert(self.contents().contains_key(self.pk_key(pk)));
    }

    /// The composite raw-state change every index-consistent mutation makes:
    /// drop the stored record's marker, then either write the new marker and
    /// record, or delete the primary entry.
    pub closed spec fn after_mutation(self, key: Seq<u8>, newv: Option<RecordView>) -> Map<
        Seq<u8>,
        Seq<u8>,
    > {
        self.replace_effect(key, newv, self.stored(key))
    }

    /// What the observable state becomes when `key` is set to `newv` or
    /// cleared.
    pub open spec fn expected_records(self, key: Seq<u8>, newv: Option<RecordView>) -> Map<
        Seq<u8>,
        RecordView,
    > {
        match newv {
            Some(v) => self.records().insert(key, v),
            None => self.records().remove(key),
        }
    }

    /// Applying the composite change to a consistent bucket restores the
    /// invariant, and changes the observable state by exactly one key.
    proof fn lemma_mutation(pre: Self, post: Self, key: Seq<u8>, newv: Option<RecordView>)
        requires
            pre.inv(),
            post.wf(),
            post.ns() == pre.ns(),
            newv matches Some(v) ==> valid_record(v),
            post.contents() == pre.after_mutation(key, newv),
        ensures
            post.inv(),
            post.records() == pre.expected_records(key, newv),
    {
        assert(post.prefix_pk@ == pre.prefix_pk@);
        assert(post.prefix_idx@ == pre.prefix_idx@);
        let had = pre.records().contains_key(key);
        let oldi = index_of(pre.records()[key]);
        if had {
            pre.lemma_records_valid(key);
        }
        let c2 = post.contents();

        // The observable state changes at `key` alone.
        let expected = pre.expected_records(key, newv);
        assert forall|pk: Seq<u8>| #[trigger]
            c2.contains_key(pre.pk_key(pk)) == expected.contains_key(pk) && (c2.contains_key(
            pre.pk_key(pk),
        ) ==> decoded(c2[pre.pk_key(pk)]) == expected[pk]) by {
            if had {
                pre.lemma_spaces_disjoint(pk, oldi, key);
            }
            if pre.pk_key(pk) == pre.pk_key(key) {
                pre.lemma_pk_key_inj(pk, key);
            }
            match newv {
                Some(v) => {
                    pre.lemma_spaces_disjoint(pk, index_of(v), key);
                    if pk == key {
                        lemma_codec_round_trip(v);
                    }
                },
                None => {},
            }
        }
        assert(post.records() =~= expected);

        // Every surviving or new key is in one of the two sub-spaces.
        assert forall|k: Seq<u8>| #[trigger] c2.contains_key(k) implies has_prefix(
            k,
            post.prefix_pk@,
        ) || has_prefix(k, post.prefix_idx@) by {
            if k == pre.pk_key(key) {
                pre.lemma_pk_key_prefix(key);
            } else {
                match newv {
                    Some(v) => {
                        if k == pre.index_entry_key(index_of(v), key) {
                            pre.lemma_index_key_prefix(index_of(v), key);
                        } else {
                            assert(pre.contents().contains_key(k));
                        }
                    },
                    None => {
                        assert(pre.contents().contains_key(k));
                    },
                }
            }
        }

        // Every primary entry still decodes.
        assert forall|pk: Seq<u8>| c2.contains_key(#[trigger] post.pk_key(pk)) implies decode_spec(
            c2[post.pk_key(pk)],
        ) is Some by {
            if had {
                pre.lemma_spaces_disjoint(pk, oldi, key);
            }
            if pre.pk_key(pk) == pre.pk_key(key) {
                pre.lemma_pk_key_inj(pk, key);
            }
            match newv {
                Some(v) => {
                    pre.lemma_spaces_disjoint(pk, index_of(v), key);
                    if pk == key {
                        lemma_codec_round_trip(v);
                    } else {
                        assert(pre.contents().contains_key(pre.pk_key(pk)));
                    }
                },
                None => {
                    assert(pre.contents().contains_key(pre.pk_key(pk)));
                },
            }
        }

        // Markers mirror the new observable state exactly.
        assert forall|i: Seq<u8>, pk: Seq<u8>| i.len() <= 0xFFFF implies (c2.contains_key(
            #[trigger] post.index_entry_key(i, pk),
        ) <==> post.links(pk, i)) by {
            pre.lemma_spaces_disjoint(key, i, pk);
            assert(pre.contents().contains_key(pre.index_entry_key(i, pk)) <==> pre.links(pk, i));
            if had && pre.index_entry_key(i, pk) == pre.index_entry_key(oldi, key) {
                pre.lemma_index_key_inj(i, pk, oldi, key);
            }
            match newv {
                Some(v) => {
                    if pre.index_entry_key(i, pk) == pre.index_entry_key(index_of(v), key) {
                        pre.lemma_index_key_inj(i, pk, index_of(v), key);
                    }
                },
                None => {},
            }
        }
    }

    /// Serializes `data` and stores it under `key`, updating the secondary
    /// index: the marker for a previously stored record is dropped and the
    /// one for `data` is written. Afterwards, loading `key` gives `data`
    /// back.
    pub fn save(&mut self, key: &[u8], data: &Record) -> (r: Result<(), BucketError>)
        requires
            old(self).inv(),
            valid_record(data@),
        ensures
            final(self).inv(),
            final(self).ns() == old(self).ns(),
            r is Ok,
            final(self).records() == old(self).records().insert(key@, data@),
    {
        let old_data = match self.may_load(key) {
            Ok(o) => o,
            Err(_) => {
                proof {
                    assert(false);
                }
                return Err(BucketError::NotFound);
            },
        };
        let old_ref: Option<&Record> = match &old_data {
            Some(v) => Some(v),
            None => None,
        };
        let r = self.replace(key, Some(data), old_ref);
        proof {
            assert(self.contents() == old(self).after_mutation(key@, Some(data@)));
            Self::lemma_mutation(*old(self), *self, key@, Some(data@));
        }
        r
    }

    /// Deletes the record under `key` and its index marker. Removing an
    /// absent key changes nothing.
    pub fn remove(&mut self, key: &[u8]) -> (r: Result<(), BucketError>)
        requires
            old(self).inv(),
        ensures
            final(self).inv(),
            final(self).ns() == old(self).ns(),
            r is Ok,
            final(self).records() == old(self).records().remove(key@),
    {
        let old_data = match self.may_load(key) {
            Ok(o) => o,
            Err(_) => {
                proof {
                    assert(false);
                }
                return Err(BucketError::NotFound);
            },
        };
        let old_ref: Option<&Record> = match &old_data {
            Some(v) => Some(v),
            None => None,
        };
        let r = self.replace(key, None, old_ref);
        proof {
            assert(self.contents() == old(self).after_mutation(key@, None));
            Self::lemma_mutation(*old(self), *self, key@, None);
        }
        r
    }

    /// Read-modify-write: loads `key`, hands the result to `action`, and
    /// stores what the action returns. Behaves like `may_load` followed by
    /// `action` followed by `save` of the result: the final state maps `key`
    /// to the action's output and no stale index marker survives. An action
    /// error is handed back unchanged, with nothing written.
    pub fn update<F, E>(&mut self, key: &[u8], action: F) -> (r: Result<Record, E>) where
        F: FnOnce(Option<Record>) -> Result<Record, E>,

        requires
            old(self).inv(),
            forall|arg: Option<Record>|
                loaded_arg(old(self).records(), key@, arg) ==> #[trigger] call_requires(
                    action,
                    (arg,),
                ),
            forall|arg: Option<Record>, out: Result<Record, E>|
                #[trigger] call_ensures(action, (arg,), out) ==> (out matches Ok(v)
                    ==> valid_record(v@)),
        ensures
            final(self).inv(),
            final(self).ns() == old(self).ns(),
            match r {
                Ok(v) => final(self).records() == old(self).records().insert(key@, v@),
                Err(_) => *final(self) == *old(self),
            },
            exists|arg: Option<Record>|
                #[trigger] loaded_arg(old(self).records(), key@, arg) && call_ensures(
                    action,
                    (arg,),
                    r,
                ),
    {
        let input = match self.may_load(key) {
            Ok(o) => o,
            Err(_) => {
                proof {
                    assert(false);
                }
                None
            },
        };
        let old_idx: Option<Vec<u8>> = match &input {
            Some(v) => Some(index_key(v)),
            None => None,
        };
        let ghost arg = input;
        let output = match action(input) {
            Ok(o) => o,
            Err(e) => {
                proof {
                    assert(loaded_arg(old(self).records(), key@, arg));
                }
                return Err(e);
            },
        };
        if let Some(idx) = &old_idx {
            self.remove_from_index(idx.as_slice(), key);
        }
        let replaced = self.replace(key, Some(&output), None);
        proof {
            assert(replaced is Ok);
            assert(self.contents() == old(self).after_mutation(key@, Some(output@)));
            Self::lemma_mutation(*old(self), *self, key@, Some(output@));
            assert(loaded_arg(old(self).records(), key@, arg));
        }
        Ok(output)
    }

    /// A stored key inside the scan window of index value `idx` is exactly
    /// an index entry for `idx`, and what follows the scan prefix is the
    /// primary key of a record whose index is `idx`.
    proof fn lemma_scan_key(self, idx: Seq<u8>, k: Seq<u8>)
        requires
            self.inv(),
            idx.len() <= 0xFFFF,
            self.contents().contains_key(k),
            lex_le(self.prefix_idx@ + frame(idx), k),
            match successor_spec(self.prefix_idx@ + frame(idx)) {
                Some(s) => lex_lt(k, s),
                None => true,
            },
        ensures
            has_prefix(k, self.prefix_idx@ + frame(idx)),
            k == self.index_entry_key(idx, k.skip((self.prefix_idx@ + frame(idx)).len() as int)),
            self.links(k.skip((self.prefix_idx@ + frame(idx)).len() as int), idx),
    {
        let start = self.prefix_idx@ + frame(idx);
        lemma_prefix_window(start, k);
        lemma_prefix_le(start, k);
        let t = k.skip(start.len() as int);
        assert(start + t =~= self.prefix_idx@ + (frame(idx) + t));
        assert(k == self.index_entry_key(idx, t));
        assert(self.contents().contains_key(self.index_entry_key(idx, t)));
    }

    /// Every index entry for `idx` lies in the scan window of `idx`'s scan
    /// prefix, and stripping that prefix gives the primary key back.
    proof fn lemma_entry_in_scan(self, idx: Seq<u8>, pk: Seq<u8>)
        requires
            self.inv(),
            idx.len() <= 0xFFFF,
            self.links(pk, idx),
        ensures
            self.contents().contains_key(self.index_entry_key(idx, pk)),
            lex_le(self.prefix_idx@ + frame(idx), self.index_entry_key(idx, pk)),
            match successor_spec(self.prefix_idx@ + frame(idx)) {
                Some(s) => lex_lt(self.index_entry_key(idx, pk), s),
                None => true,
            },
            self.index_entry_key(idx, pk).skip((self.prefix_idx@ + frame(idx)).len() as int) == pk,
    {
        let start = self.prefix_idx@ + frame(idx);
        let entry = self.index_entry_key(idx, pk);
        assert(entry =~= start + pk);
        assert(entry.subrange(0, start.len() as int) =~= start);
        lemma_prefix_window(start, entry);
        assert(entry.skip(start.len() as int) =~= pk);
    }

    /// All primary keys currently stored under the index value `idx`: the
    /// keys of exactly those records whose index is `idx`, in ascending byte
    /// order, each exactly once.
    pub fn pks_by_index(&self, idx: &[u8]) -> (out: Vec<Vec<u8>>)
        requires
            self.inv(),
            idx@.len() <= 0xFFFF,
        ensures
            forall|j: int| 0 <= j < out@.len() ==> self.links((#[trigger] out@[j])@, idx@),
            forall|pk: Seq<u8>|
                self.links(pk, idx@) ==> exists|j: int|
                    0 <= j < out@.len() && (#[trigger] out@[j])@ == pk,
            forall|a: int, b: int|
                0 <= a < b < out@.len() ==> lex_lt((#[trigger] out@[a])@, (#[trigger] out@[b])@),
    {
        let start = self.index_space(idx);
        let end = prefix_successor(start.as_slice());
        let end_ref: Option<&Vec<u8>> = match &end {
            Some(e) => Some(e),
            None => None,
        };
        let raw = store_range(&self.storage, Some(&start), end_ref, true);
        proof {
            assert forall|m: int| 0 <= m < raw@.len() implies {
                &&& (#[trigger] raw@[m]).0@.len() >= start@.len()
                &&& raw@[m].0@.skip(start@.len() as int) == raw@[m].0@.skip(
                    (self.prefix_idx@ + frame(idx@)).len() as int,
                )
                &&& self.links(raw@[m].0@.skip(start@.len() as int), idx@)
            } by {
                self.lemma_scan_key(idx@, raw@[m].0@);
            }
        }
        let l = start.len();
        let mut out: Vec<Vec<u8>> = Vec::new();
        let mut j: usize = 0;
        while j < raw.len()
            invariant
                j <= raw@.len(),
                out@.len() == j,
                l == start@.len(),
                forall|m: int|
                    0 <= m < raw@.len() ==> (#[trigger] raw@[m]).0@.len() >= start@.len(),
                forall|m: int|
                    0 <= m < j ==> (#[trigger] out@[m])@ == raw@[m].0@.skip(start@.len() as int),
            decreases raw@.len() - j,
        {
            let pk = tail_from(raw[j].0.as_slice(), l);
            out.push(pk);
            j += 1;
        }
        proof {
            let gstart = self.prefix_idx@ + frame(idx@);
            assert forall|m: int| 0 <= m < out@.len() implies self.links(
                (#[trigger] out@[m])@,
                idx@,
            ) by {
                self.lemma_scan_key(idx@, raw@[m].0@);
            }
            assert forall|pk: Seq<u8>| self.links(pk, idx@) implies exists|m: int|
                0 <= m < out@.len() && (#[trigger] out@[m])@ == pk by {
                self.lemma_entry_in_scan(idx@, pk);
                let entry = self.index_entry_key(idx@, pk);
                assert(in_window(opt_view(Some(&start)), opt_view(end_ref), entry));
                let m = choose|m: int| 0 <= m < raw@.len() && (#[trigger] raw@[m]).0@ == entry;
                assert((out@[m])@ == pk);
            }
            assert forall|a: int, b: int| 0 <= a < b < out@.len() implies lex_lt(
                (#[trigger] out@[a])@,
                (#[trigger] out@[b])@,
            ) by {
                self.lemma_scan_key(idx@, raw@[a].0@);
                self.lemma_scan_key(idx@, raw@[b].0@);
                assert(lex_order(true, raw@[a].0@, raw@[b].0@));
                lemma_prefix_le(gstart, raw@[a].0@);
                lemma_prefix_le(gstart, raw@[b].0@);
                lemma_lex_append(
                    gstart,
                    raw@[a].0@.skip(gstart.len() as int),
                    raw@[b].0@.skip(gstart.len() as int),
                );
            }
        }
        out
    }

    /// A stored key inside a primary-space scan window starts with the
    /// primary prefix; what follows is the primary key of a stored record,
    /// and it lies between the caller's bounds.
    proof fn lemma_primary_scan_key(self, lo_tail: Seq<u8>, hi: Option<Seq<u8>>, k: Seq<u8>)
        requires
            self.inv(),
            self.contents().contains_key(k),
            lex_le(self.prefix_pk@ + lo_tail, k),
            match hi {
                Some(e) => lex_lt(k, self.prefix_pk@ + e),
                None => match successor_spec(self.prefix_pk@) {
                    Some(s) => lex_lt(k, s),
                    None => true,
                },
            },
        ensures
            has_prefix(k, self.prefix_pk@),
            k == self.pk_key(k.skip(self.prefix_pk@.len() as int)),
            self.records().contains_key(k.skip(self.prefix_pk@.len() as int)),
            decode_spec(self.contents()[k]) is Some,
            self.records()[k.skip(self.prefix_pk@.len() as int)] == decoded(self.contents()[k]),
            lex_le(lo_tail, k.skip(self.prefix_pk@.len() as int)),
            hi matches Some(e) ==> lex_lt(k.skip(self.prefix_pk@.len() as int), e),
    {
        let ppk = self.prefix_pk@;
        match hi {
            Some(e) => {
                lemma_between_prefix(ppk, lo_tail, e, k);
            },
            None => {
                assert(has_prefix(ppk + lo_tail, ppk)) by {
                    assert((ppk + lo_tail).subrange(0, ppk.len() as int) =~= ppk);
                }
                lemma_prefix_le(ppk, ppk + lo_tail);
                lemma_lex_le_lt_trans(ppk, ppk + lo_tail, k);
                lemma_prefix_window(ppk, k);
            },
        }
        lemma_prefix_le(ppk, k);
        let t = k.skip(ppk.len() as int);
        assert(k == self.pk_key(t));
        assert(self.contents().contains_key(self.pk_key(t)));
        lemma_lex_append(ppk, t, lo_tail);
        match hi {
            Some(e) => {
                lemma_lex_append(ppk, t, e);
            },
            None => {},
        }
    }

    /// Every stored record whose primary key lies between the bounds has its
    /// storage key inside the corresponding primary-space scan window.
    proof fn lemma_record_in_primary_scan(self, lo_tail: Seq<u8>, hi: Option<Seq<u8>>, pk: Seq<u8>)
        requires
            self.inv(),
            self.records().contains_key(pk),
            lex_le(lo_tail, pk),
            hi matches Some(e) ==> lex_lt(pk, e),
        ensures
            self.contents().contains_key(self.pk_key(pk)),
            lex_le(self.prefix_pk@ + lo_tail, self.pk_key(pk)),
            match hi {
                Some(e) => lex_lt(self.pk_key(pk), self.prefix_pk@ + e),
                None => match successor_spec(self.prefix_pk@) {
                    Some(s) => lex_lt(self.pk_key(pk), s),
                    None => true,
                },
            },
            self.pk_key(pk).skip(self.prefix_pk@.len() as int) == pk,
    {
        let ppk = self.prefix_pk@;
        let k = self.pk_key(pk);
        lemma_lex_append(ppk, pk, lo_tail);
        match hi {
            Some(e) => {
                lemma_lex_append(ppk, pk, e);
            },
            None => {
                assert(has_prefix(k, ppk)) by {
                    assert(k.subrange(0, ppk.len() as int) =~= ppk);
                }
                lemma_prefix_window(ppk, k);
            },
        }
        assert(k.skip(ppk.len() as int) =~= pk);
    }

    /// `items` holds exactly the stored records whose primary keys lie in
    /// the `[start, end)` window, each with its record, strictly ordered by
    /// primary key.
    pub open spec fn range_items_ok(
        self,
        start: Option<Seq<u8>>,
        end: Option<Seq<u8>>,
        ascending: bool,
        items: Seq<(Vec<u8>, Record)>,
    ) -> bool {
        &&& forall|j: int|
            0 <= j < items.len() ==> self.records().contains_key((#[trigger] items[j]).0@)
                && items[j].1@ == self.records()[items[j].0@] && in_window(start, end, items[j].0@)
        &&& forall|pk: Seq<u8>|
            #[trigger] self.records().contains_key(pk) && in_window(start, end, pk)
                ==> exists|j: int| 0 <= j < items.len() && (#[trigger] items[j]).0@ == pk
        &&& forall|a: int, b: int|
            0 <= a < b < items.len() ==> lex_order(
                ascending,
                (#[trigger] items[a]).0@,
                (#[trigger] items[b]).0@,
            )
    }

    /// Scans the stored records whose primary keys lie in `[start, end)`
    /// (an absent bound leaves that side open), in ascending or descending
    /// byte order of the primary key, each with its decoded record. A
    /// malformed stored value would surface as an error, but under the
    /// bucket's invariant every stored value decodes, so the scan always
    /// succeeds.
    pub fn range(&self, start: Option<&[u8]>, end: Option<&[u8]>, order: Order) -> (r: Result<
        Vec<(Vec<u8>, Record)>,
        BucketError,
    >)
        requires
            self.inv(),
        ensures
            r is Ok,
            r matches Ok(items) ==> self.range_items_ok(
                opt_bytes_view(start),
                opt_bytes_view(end),
                order is Ascending,
                items@,
            ),
    {
        let ghost lo_tail: Seq<u8> = match start {
            Some(s) => s@,
            None => Seq::<u8>::empty(),
        };
        let ghost end_tail: Option<Seq<u8>> = match end {
            Some(e) => Some(e@),
            None => None,
        };
        let lo = match start {
            Some(s) => concat_bytes(self.prefix_pk.as_slice(), s),
            None => tail_from(self.prefix_pk.as_slice(), 0),
        };
        assert(lo@ =~= self.prefix_pk@ + lo_tail);
        let hi: Option<Vec<u8>> = match end {
            Some(e) => Some(concat_bytes(self.prefix_pk.as_slice(), e)),
            None => prefix_successor(self.prefix_pk.as_slice()),
        };
        let hi_ref: Option<&Vec<u8>> = match &hi {
            Some(h) => Some(h),
            None => None,
        };
        let ascending = match order {
            Order::Ascending => true,
            Order::Descending => false,
        };
        let raw = store_range(&self.storage, Some(&lo), hi_ref, ascending);
        proof {
            assert forall|m: int| 0 <= m < raw@.len() implies {
                &&& (#[trigger] raw@[m]).0@.len() >= self.prefix_pk@.len()
                &&& self.contents().contains_key(raw@[m].0@)
                &&& raw@[m].1@ == self.contents()[raw@[m].0@]
                &&& decode_spec(raw@[m].1@) is Some
            } by {
                self.lemma_primary_scan_key(lo_tail, end_tail, raw@[m].0@);
            }
        }
        let l = self.prefix_pk.len();
        let mut items: Vec<(Vec<u8>, Record)> = Vec::new();
        let mut j: usize = 0;
        while j < raw.len()
            invariant
                j <= raw@.len(),
                items@.len() == j,
                l == self.prefix_pk@.len(),
                forall|m: int|
                    0 <= m < raw@.len() ==> (#[trigger] raw@[m]).0@.len() >= l && decode_spec(
                        raw@[m].1@,
                    ) is Some,
                forall|m: int|
                    0 <= m < j ==> (#[trigger] items@[m]).0@ == raw@[m].0@.skip(l as int)
                        && Some(items@[m].1@) == decode_spec(raw@[m].1@),
            decreases raw@.len() - j,
        {
            let pk = tail_from(raw[j].0.as_slice(), l);
            let rec = match decode_record(raw[j].1.as_slice()) {
                Some(rec) => rec,
                None => {
                    proof {
                        assert(false);
                    }
                    return Err(BucketError::Deserialization);
                },
            };
            items.push((pk, rec));
            j += 1;
        }
        proof {
            let ppk = self.prefix_pk@;
            assert forall|j: int| 0 <= j < items@.len() implies {
                &&& self.records().contains_key((#[trigger] items@[j]).0@)
                &&& items@[j].1@ == self.records()[items@[j].0@]
                &&& in_window(opt_bytes_view(start), opt_bytes_view(end), items@[j].0@)
            } by {
                self.lemma_primary_scan_key(lo_tail, end_tail, raw@[j].0@);
            }
            assert forall|pk: Seq<u8>|
                #[trigger] self.records().contains_key(pk) && in_window(
                    opt_bytes_view(start),
                    opt_bytes_view(end),
                    pk,
                ) implies exists|j: int|
                0 <= j < items@.len() && (#[trigger] items@[j]).0@ == pk by {
                self.lemma_record_in_primary_scan(lo_tail, end_tail, pk);
                let entry = self.pk_key(pk);
                assert(in_window(opt_view(Some(&lo)), opt_view(hi_ref), entry));
                let m = choose|m: int| 0 <= m < raw@.len() && (#[trigger] raw@[m]).0@ == entry;
                assert((items@[m]).0@ == pk);
            }
            assert forall|a: int, b: int| 0 <= a < b < items@.len() implies lex_order(
                order is Ascending,
                (#[trigger] items@[a]).0@,
                (#[trigger] items@[b]).0@,
            ) by {
                self.lemma_primary_scan_key(lo_tail, end_tail, raw@[a].0@);
                self.lemma_primary_scan_key(lo_tail, end_tail, raw@[b].0@);
                assert(lex_order(ascending, raw@[a].0@, raw@[b].0@));
                lemma_prefix_le(ppk, raw@[a].0@);
                lemma_prefix_le(ppk, raw@[b].0@);
                lemma_lex_append(ppk, raw@[a].0@.skip(ppk.len() as int), raw@[b].0@.skip(
                    ppk.len() as int,
                ));
                lemma_lex_append(ppk, raw@[b].0@.skip(ppk.len() as int), raw@[a].0@.skip(
                    ppk.len() as int,
                ));
            }
            assert(self.range_items_ok(
                opt_bytes_view(start),
                opt_bytes_view(end),
                order is Ascending,
                items@,
            ));
        }
        Ok(items)
    }

    /// `items` pairs each primary key stored under index value `idx` with
    /// its record: sound, complete, and strictly ascending by primary key.
    pub open spec fn index_items_ok(self, idx: Seq<u8>, items: Seq<(Vec<u8>, Record)>) -> bool {
        &&& forall|j: int|
            0 <= j < items.len() ==> self.links((#[trigger] items[j]).0@, idx)
                && items[j].1@ == self.records()[items[j].0@]
        &&& forall|pk: Seq<u8>|
            self.links(pk, idx) ==> exists|j: int|
                0 <= j < items.len() && (#[trigger] items[j]).0@ == pk
        &&& forall|a: int, b: int|
            0 <= a < b < items.len() ==> lex_lt((#[trigger] items[a]).0@, (#[trigger] items[b]).0@)
    }

    /// All records stored under the index value `idx`, each primary key with
    /// its record, in ascending byte order of the primary key: one index
    /// scan, then one primary read per match.
    pub fn items_by_index(&self, idx: &[u8]) -> (r: Result<Vec<(Vec<u8>, Record)>, BucketError>)
        requires
            self.inv(),
            idx@.len() <= 0xFFFF,
        ensures
            r is Ok,
            r matches Ok(items) ==> self.index_items_ok(idx@, items@),
    {
        let pks = self.pks_by_index(idx);
        let mut items: Vec<(Vec<u8>, Record)> = Vec::new();
        let mut j: usize = 0;
        while j < pks.len()
            invariant
                self.inv(),
                j <= pks@.len(),
                items@.len() == j,
                forall|m: int| 0 <= m < pks@.len() ==> self.links((#[trigger] pks@[m])@, idx@),
                forall|m: int|
                    0 <= m < j ==> (#[trigger] items@[m]).0@ == pks@[m]@ && items@[m].1@
                        == self.records()[pks@[m]@],
            decreases pks@.len() - j,
        {
            let rec = match self.load(pks[j].as_slice()) {
                Ok(rec) => rec,
                Err(_) => {
                    proof {
                        assert(false);
                    }
                    return Err(BucketError::NotFound);
                },
            };
            let pk_copy = tail_from(pks[j].as_slice(), 0);
            assert(pk_copy@ =~= pks@[j as int]@);
            items.push((pk_copy, rec));
            j += 1;
        }
        proof {
            assert forall|pk: Seq<u8>| self.links(pk, idx@) implies exists|j: int|
                0 <= j < items@.len() && (#[trigger] items@[j]).0@ == pk by {
                let m = choose|m: int| 0 <= m < pks@.len() && (#[trigger] pks@[m])@ == pk;
                assert((items@[m]).0@ == pk);
            }
            assert(self.index_items_ok(idx@, items@));
        }
        Ok(items)
    }

    /// Loads the record stored under `key`; `NotFound` exactly when the key
    /// holds nothing.
    pub fn load(&self, key: &[u8]) -> (r: Result<Record, BucketError>)
        requires
            self.inv(),
        ensures
            match r {
                Ok(v) => self.records().contains_key(key@) && v@ == self.records()[key@]
                    && valid_record(v@),
                Err(e) => !self.records().contains_key(key@) && e == BucketError::NotFound,
            },
    {
        let pk_key = self.primary_key(key);
        match store_get(&self.storage, pk_key.as_slice()) {
            Some(bytes) => {
                match decode_record(bytes.as_slice()) {
                    Some(rec) => {
                        assert(self.records().contains_key(key@));
                        Ok(rec)
                    },
                    None => {
                        proof {
                            assert(self.contents().contains_key(self.pk_key(key@)));
                            assert(false);
                        }
                        Err(BucketError::Deserialization)
                    },
                }
            },
            None => {
                assert(!self.records().contains_key(key@));
                Err(BucketError::NotFound)
            },
        }
    }

    /// Loads the record stored under `key` if there is one; an absent key is
    /// an empty result, not an error.
    pub fn may_load(&self, key: &[u8]) -> (r: Result<Option<Record>, BucketError>)
        requires
            self.inv(),
        ensures
            match r {
                Ok(Some(v)) => self.records().contains_key(key@) && v@ == self.records()[key@]
                    && valid_record(v@),
                Ok(None) => !self.records().contains_key(key@),
                Err(_) => false,
            },
    {
        let pk_key = self.primary_key(key);
        match store_get(&self.storage, pk_key.as_slice()) {
            Some(bytes) => {
                match decode_record(bytes.as_slice()) {
                    Some(rec) => {
                        assert(self.records().contains_key(key@));
                        Ok(Some(rec))
                    },
                    None => {
                        proof {
                            assert(self.contents().contains_key(self.pk_key(key@)));
                            assert(false);
                        }
                        Err(BucketError::Deserialization)
                    },
                }
            },
            None => {
                assert(!self.records().contains_key(key@));
                Ok(None)
            },
        }
    }
}

} // verus!
