//! The stored value and its byte codec.
//!
//! A bucket stores `Record`s: a category and a name, both raw byte strings.
//! The secondary index key of a record is derived from the record alone — it
//! is its category — so the same record always yields the same index key.
//!
//! A record is persisted as two length-prefixed segments; `decode` rejects
//! every byte string that `encode` cannot have produced.

use vstd::prelude::*;
use crate::bytes::{frame, frame_len, framed_ok, framed_head, framed_tail, lemma_frame_parse,
    to_length_prefixed, concat_bytes};

verus! {

/// A stored domain value: grouped by `category`, described by `name`.
#[derive(Clone, Debug, PartialEq, Eq)]
pub struct Record {
    pub category: Vec<u8>,
    pub name: Vec<u8>,
}

/// The mathematical image of a `Record`.
pub struct RecordView {
    pub category: Seq<u8>,
    pub name: Seq<u8>,
}

impl View for Record {
    type V = RecordView;

    open spec fn view(&self) -> RecordView {
        RecordView { category: self.category@, name: self.name@ }
    }
}

/// Both segments fit the 2-byte length framing.
pub open spec fn valid_record(v: RecordView) -> bool {
    v.category.len() <= 0xFFFF && v.name.len() <= 0xFFFF
}

/// The secondary index key derived from a record: its category.
pub open spec fn index_of(v: RecordView) -> Seq<u8> {
    v.category
}

/// The persisted form: each segment behind its length header.
pub open spec fn encode_spec(v: RecordView) -> Seq<u8> {
    frame(v.category) + frame(v.name)
}

/// Parses two framed segments covering the whole input, or nothing.
pub open spec fn decode_spec(b: Seq<u8>) -> Option<RecordView> {
    if framed_ok(b) && framed_ok(framed_tail(b)) && framed_tail(framed_tail(b)).len() == 0 {
        Some(RecordView { category: framed_head(b), name: framed_head(framed_tail(b)) })
    } else {
        None
    }
}

/// Encoding then decoding gives the record back, and an encoding is never
/// empty.
pub proof fn lemma_codec_round_trip(v: RecordView)
    requires
        valid_record(v),
    ensures
        decode_spec(encode_spec(v)) == Some(v),
        encode_spec(v).len() > 0,
{
    let b = encode_spec(v);
    lemma_frame_parse(v.category, frame(v.name));
    assert(framed_tail(b) == frame(v.name));
    lemma_frame_parse(v.name, Seq::<u8>::empty());
    assert(frame(v.name) + Seq::<u8>::empty() =~= frame(v.name));
    assert(framed_tail(frame(v.name)) =~= Seq::<u8>::empty());
    assert(decode_spec(b) == Some(RecordView { category: v.category, name: v.name }));
    assert(RecordView { category: v.category, name: v.name } == v);
}

/// The exact secondary index key of a record.
pub fn index_key(v: &Record) -> (r: Vec<u8>)
    ensures
        r@ == index_of(v@),
{
    let mut r: Vec<u8> = Vec::new();
    let mut i: usize = 0;
    while i < v.category.len()
        invariant
            i <= v.category@.len(),
            r@ == v.category@.subrange(0, i as int),
        decreases v.category@.len() - i,
    {
        r.push(v.category[i]);
        assert(r@ =~= v.category@.subrange(0, i + 1));
        i += 1;
    }
    assert(r@ =~= v.category@);
    r
}

/// Serializes a record to its framed byte form.
pub fn encode_record(v: &Record) -> (out: Vec<u8>)
    requires
        valid_record(v@),
    ensures
        out@ == encode_spec(v@),
        out@.len() > 0,
{
    let head = to_length_prefixed(v.category.as_slice());
    let tail = to_length_prefixed(v.name.as_slice());
    let out = concat_bytes(head.as_slice(), tail.as_slice());
    proof {
        lemma_codec_round_trip(v@);
    }
    out
}

/// Parses one framed segment at `at`, handing back the segment and where the
/// next one starts.
fn read_frame(b: &[u8], at: usize) -> (r: Option<(Vec<u8>, usize)>)
    requires
        at <= b@.len(),
    ensures
        match r {
            Some(p) => {
                &&& framed_ok(b@.skip(at as int))
                &&& p.0@ == framed_head(b@.skip(at as int))
                &&& at + 2 + frame_len(b@.skip(at as int)) == p.1 <= b@.len()
                &&& b@.skip(p.1 as int) == framed_tail(b@.skip(at as int))
            },
            None => !framed_ok(b@.skip(at as int)),
        },
{
    let rest = b.len() - at;
    if rest < 2 {
        return None;
    }
    let n = (b[at] as usize) * 256 + (b[at + 1] as usize);
    assert(frame_len(b@.skip(at as int)) == n);
    if rest - 2 < n {
        return None;
    }
    let seg_start = at + 2;
    let seg_end = seg_start + n;
    let mut seg: Vec<u8> = Vec::new();
    let mut i: usize = seg_start;
    while i < seg_end
        invariant
            seg_start <= i <= seg_end <= b@.len(),
            seg@ == b@.subrange(seg_start as int, i as int),
        decreases seg_end - i,
    {
        seg.push(b[i]);
        assert(seg@ =~= b@.subrange(seg_start as int, i + 1));
        i += 1;
    }
    proof {
        let r0 = b@.skip(at as int);
        assert(seg@ =~= r0.subrange(2, 2 + frame_len(r0)));
        assert(b@.skip(seg_end as int) =~= r0.skip(2 + frame_len(r0)));
    }
    Some((seg, seg_end))
}

/// Deserializes a record; returns nothing exactly on malformed bytes.
pub fn decode_record(b: &[u8]) -> (r: Option<Record>)
    ensures
        match r {
            Some(rec) => decode_spec(b@) == Some(rec@) && valid_record(rec@),
            None => decode_spec(b@) is None,
        },
{
    assert(b@.skip(0) =~= b@);
    let first = match read_frame(b, 0) {
        Some(p) => p,
        None => {
            return None;
        },
    };
    let (category, next) = first;
    let second = match read_frame(b, next) {
        Some(p) => p,
        None => {
            return None;
        },
    };
    let (name, fin) = second;
    if fin != b.len() {
        assert(framed_tail(framed_tail(b@)).len() == b@.len() - fin);
        return None;
    }
    let rec = Record { category, name };
    assert(framed_tail(framed_tail(b@)).len() == 0);
    assert(decode_spec(b@) == Some(rec@));
    Some(rec)
}

} // verus!
