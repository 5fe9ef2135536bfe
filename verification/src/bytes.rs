//! Byte-string order, length-prefixed framing, and prefix scan bounds.
//!
//! Everything a flat byte keyspace needs: the lexicographic order that the
//! backing store sorts by, the 2-byte big-endian length framing that keeps
//! concatenated key segments unambiguous, and the successor of a prefix,
//! which bounds a prefix scan from above.

use vstd::prelude::*;

verus! {

/// Strict byte-lexicographic order: compare elementwise from the front;
/// a proper prefix sorts before every extension of itself.
pub open spec fn lex_lt(a: Seq<u8>, b: Seq<u8>) -> bool
    decreases b.len(),
{
    if b.len() == 0 {
        false
    } else if a.len() == 0 {
        true
    } else if a[0] < b[0] {
        true
    } else if a[0] == b[0] {
        lex_lt(a.skip(1), b.skip(1))
    } else {
        false
    }
}

pub open spec fn lex_le(a: Seq<u8>, b: Seq<u8>) -> bool {
    !lex_lt(b, a)
}

/// `k` starts with `p`.
pub open spec fn has_prefix(k: Seq<u8>, p: Seq<u8>) -> bool {
    k.len() >= p.len() && k.subrange(0, p.len() as int) == p
}

/// Exactly one of `a == b`, `a < b`, `b < a` holds (totality half).
pub proof fn lemma_lex_total(a: Seq<u8>, b: Seq<u8>)
    ensures
        a == b || lex_lt(a, b) || lex_lt(b, a),
        lex_lt(a, b) ==> !lex_lt(b, a),
        lex_lt(a, b) ==> a != b,
    decreases a.len() + b.len(),
{
    if a.len() == 0 || b.len() == 0 {
        if a.len() == 0 && b.len() == 0 {
            assert(a =~= b);
        }
    } else {
        lemma_lex_total(a.skip(1), b.skip(1));
        if a[0] == b[0] && a.skip(1) == b.skip(1) {
            assert(a =~= seq![a[0]] + a.skip(1));
            assert(b =~= seq![b[0]] + b.skip(1));
        }
    }
}

pub proof fn lemma_lex_trans(a: Seq<u8>, b: Seq<u8>, c: Seq<u8>)
    requires
        lex_lt(a, b),
        lex_lt(b, c),
    ensures
        lex_lt(a, c),
    decreases a.len() + b.len() + c.len(),
{
    if a.len() == 0 {
        // c is nonempty because lex_lt(b, c) holds
    } else {
        // b nonempty (lex_lt(a, b)), c nonempty (lex_lt(b, c))
        if a[0] == b[0] && b[0] == c[0] {
            lemma_lex_trans(a.skip(1), b.skip(1), c.skip(1));
        }
    }
}

/// Transitivity through a non-strict middle step, both ways.
pub proof fn lemma_lex_le_lt_trans(a: Seq<u8>, b: Seq<u8>, c: Seq<u8>)
    ensures
        lex_le(a, b) && lex_lt(b, c) ==> lex_lt(a, c),
        lex_lt(a, b) && lex_le(b, c) ==> lex_lt(a, c),
        lex_le(a, b) && lex_le(b, c) ==> lex_le(a, c),
{
    lemma_lex_total(a, b);
    lemma_lex_total(b, c);
    lemma_lex_total(a, c);
    if lex_lt(a, b) && lex_lt(b, c) {
        lemma_lex_trans(a, b, c);
    }
    if lex_lt(b, a) && lex_lt(c, b) {
        lemma_lex_trans(c, b, a);
    }
    if lex_lt(c, a) && lex_lt(a, b) {
        lemma_lex_trans(c, a, b);
    }
    if lex_lt(b, c) && lex_lt(c, a) {
        lemma_lex_trans(b, c, a);
    }
}

/// Comparing against a single byte only looks at the first position.
pub proof fn lemma_lex_lt_single(t: Seq<u8>, c: u8)
    ensures
        lex_lt(t, seq![c]) <==> (t.len() == 0 || t[0] < c),
{
    if t.len() != 0 && t[0] == c {
        assert(seq![c].skip(1) =~= Seq::<u8>::empty());
        assert(!lex_lt(t.skip(1), Seq::<u8>::empty()));
    }
}

/// Prepending a common prefix preserves the order in both directions.
pub proof fn lemma_lex_append(p: Seq<u8>, a: Seq<u8>, b: Seq<u8>)
    ensures
        lex_lt(p + a, p + b) <==> lex_lt(a, b),
    decreases p.len(),
{
    if p.len() == 0 {
        assert(p + a =~= a);
        assert(p + b =~= b);
    } else {
        assert((p + a).len() > 0 && (p + b).len() > 0);
        assert((p + a)[0] == p[0] && (p + b)[0] == p[0]);
        assert((p + a).skip(1) =~= p.skip(1) + a);
        assert((p + b).skip(1) =~= p.skip(1) + b);
        lemma_lex_append(p.skip(1), a, b);
    }
}

/// A key that starts with `p` is `p` followed by its tail, and sorts at or
/// after `p`.
pub proof fn lemma_prefix_le(p: Seq<u8>, k: Seq<u8>)
    requires
        has_prefix(k, p),
    ensures
        k == p + k.skip(p.len() as int),
        lex_le(p, k),
{
    assert(k =~= p + k.skip(p.len() as int));
    lemma_lex_append(p, k.skip(p.len() as int), Seq::<u8>::empty());
    assert(p + Seq::<u8>::empty() =~= p);
    assert(!lex_lt(k.skip(p.len() as int), Seq::<u8>::empty()));
}

/// Appending to a fixed prefix is injective.
pub proof fn lemma_append_inj(p: Seq<u8>, a: Seq<u8>, b: Seq<u8>)
    requires
        p + a == p + b,
    ensures
        a == b,
{
    assert(a =~= (p + a).skip(p.len() as int));
    assert(b =~= (p + b).skip(p.len() as int));
}

/// A prefix of a longer concatenation is itself a prefix.
pub proof fn lemma_prefix_of_concat(k: Seq<u8>, p: Seq<u8>, q: Seq<u8>)
    requires
        has_prefix(k, p + q),
    ensures
        has_prefix(k, p),
{
    assert(k.subrange(0, p.len() as int) =~= (p + q).subrange(0, p.len() as int));
    assert((p + q).subrange(0, p.len() as int) =~= p);
}

/// Any key lying between two extensions of `q` itself starts with `q`.
pub proof fn lemma_between_prefix(q: Seq<u8>, a: Seq<u8>, b: Seq<u8>, k: Seq<u8>)
    requires
        lex_le(q + a, k),
        lex_lt(k, q + b),
    ensures
        has_prefix(k, q),
    decreases q.len(),
{
    if q.len() == 0 {
        assert(k.subrange(0, 0) =~= Seq::<u8>::empty());
        assert(q =~= Seq::<u8>::empty());
    } else {
        assert((q + a).len() > 0);
        if k.len() == 0 {
            assert(lex_lt(k, q + a));
            assert(false);
        }
        assert((q + a)[0] == q[0] && (q + b)[0] == q[0]);
        if k[0] < q[0] {
            assert(lex_lt(k, q + a));
            assert(false);
        }
        if k[0] > q[0] {
            assert(!lex_lt(k, q + b));
            assert(false);
        }
        assert(k[0] == q[0]);
        assert((q + a).skip(1) =~= q.skip(1) + a);
        assert((q + b).skip(1) =~= q.skip(1) + b);
        lemma_between_prefix(q.skip(1), a, b, k.skip(1));
        assert(k.subrange(0, q.len() as int) =~= q) by {
            assert(k.skip(1).subrange(0, q.skip(1).len() as int) == q.skip(1));
            assert forall|i: int| 0 <= i < q.len() implies k.subrange(0, q.len() as int)[i]
                == q[i] by {
                if i > 0 {
                    assert(k.skip(1)[i - 1] == q.skip(1)[i - 1]);
                }
            }
        }
    }
}

/// The smallest byte string above everything that starts with `p`: strip the
/// trailing maximum bytes and step the last byte that can still grow. `None`
/// means no such bound exists (`p` is empty or all maximum bytes).
pub open spec fn successor_spec(p: Seq<u8>) -> Option<Seq<u8>>
    decreases p.len(),
{
    if p.len() == 0 {
        None
    } else if p.last() < 255 {
        Some(p.drop_last().push((p.last() + 1) as u8))
    } else {
        successor_spec(p.drop_last())
    }
}

/// The half-open window `[p, successor(p))` holds exactly the keys that start
/// with `p`; with no successor, every key at or above `p` starts with `p`.
pub proof fn lemma_prefix_window(p: Seq<u8>, k: Seq<u8>)
    ensures
        has_prefix(k, p) <==> (lex_le(p, k) && match successor_spec(p) {
            Some(s) => lex_lt(k, s),
            None => true,
        }),
    decreases p.len(),
{
    if p.len() == 0 {
        assert(k.subrange(0, 0) =~= Seq::<u8>::empty());
        assert(p =~= Seq::<u8>::empty());
        assert(!lex_lt(k, p));
    } else {
        let q = p.drop_last();
        let c = p.last();
        assert(p =~= q + seq![c]);
        if c < 255 {
            let s = q + seq![(c + 1) as u8];
            assert(successor_spec(p) == Some::<Seq<u8>>(q.push((c + 1) as u8)));
            assert(q.push((c + 1) as u8) =~= s);
            if has_prefix(k, p) {
                lemma_prefix_le(p, k);
                let t = k.skip(p.len() as int);
                assert(k =~= q + (seq![c] + t));
                lemma_lex_append(q, seq![c] + t, seq![(c + 1) as u8]);
                assert(lex_lt(seq![c] + t, seq![(c + 1) as u8]));
                assert(lex_lt(k, s));
            }
            if lex_le(p, k) && lex_lt(k, s) {
                lemma_between_prefix(q, seq![c], seq![(c + 1) as u8], k);
                lemma_prefix_le(q, k);
                let t = k.skip(q.len() as int);
                lemma_lex_append(q, t, seq![c]);
                lemma_lex_append(q, t, seq![(c + 1) as u8]);
                assert(lex_le(seq![c], t));
                assert(lex_lt(t, seq![(c + 1) as u8]));
                lemma_lex_lt_single(t, c);
                lemma_lex_lt_single(t, (c + 1) as u8);
                assert(t.len() > 0 && t[0] == c);
                assert(k.subrange(0, p.len() as int) =~= p) by {
                    assert forall|i: int| 0 <= i < p.len() implies k.subrange(
                        0,
                        p.len() as int,
                    )[i] == p[i] by {
                        if i < q.len() {
                            assert(k[i] == (q + t)[i]);
                        } else {
                            assert(k[i] == t[i - q.len()]);
                        }
                    }
                }
            }
        } else {
            assert(successor_spec(p) == successor_spec(q));
            lemma_prefix_window(q, k);
            if has_prefix(k, p) {
                lemma_prefix_of_concat(k, q, seq![c]);
                lemma_prefix_le(p, k);
            }
            if lex_le(p, k) && match successor_spec(p) {
                Some(s) => lex_lt(k, s),
                None => true,
            } {
                lemma_prefix_le(q, p);
                lemma_lex_le_lt_trans(q, p, k);
                assert(lex_le(q, k));
                assert(has_prefix(k, q));
                lemma_prefix_le(q, k);
                let t = k.skip(q.len() as int);
                lemma_lex_append(q, t, seq![c]);
                assert(lex_le(seq![c], t));
                if t.len() == 0 {
                    assert(lex_lt(t, seq![c]));
                    assert(false);
                }
                assert(t[0] == 255);
                assert(k.subrange(0, p.len() as int) =~= p) by {
                    assert forall|i: int| 0 <= i < p.len() implies k.subrange(
                        0,
                        p.len() as int,
                    )[i] == p[i] by {
                        if i < q.len() {
                            assert(k[i] == (q + t)[i]);
                        } else {
                            assert(k[i] == t[i - q.len()]);
                        }
                    }
                }
            }
        }
    }
}

/// A 2-byte big-endian length header followed by the bytes themselves.
/// Meaningful for segments of at most 0xFFFF bytes.
pub open spec fn frame(s: Seq<u8>) -> Seq<u8> {
    seq![(s.len() / 256) as u8, (s.len() % 256) as u8] + s
}

/// The header of a framed segment, read back as a length.
pub open spec fn frame_len(r: Seq<u8>) -> int
    recommends
        r.len() >= 2,
{
    (r[0] as int) * 256 + (r[1] as int)
}

/// `r` begins with a complete frame: a header and at least that many bytes.
pub open spec fn framed_ok(r: Seq<u8>) -> bool {
    r.len() >= 2 && r.len() >= 2 + frame_len(r)
}

/// The segment inside the leading frame of `r`.
pub open spec fn framed_head(r: Seq<u8>) -> Seq<u8>
    recommends
        framed_ok(r),
{
    r.subrange(2, 2 + frame_len(r))
}

/// What follows the leading frame of `r`.
pub open spec fn framed_tail(r: Seq<u8>) -> Seq<u8>
    recommends
        framed_ok(r),
{
    r.skip(2 + frame_len(r))
}

/// Framing parses back: the head and tail of `frame(i) + t` are `i` and `t`.
pub proof fn lemma_frame_parse(i: Seq<u8>, t: Seq<u8>)
    requires
        i.len() <= 0xFFFF,
    ensures
        framed_ok(frame(i) + t),
        framed_head(frame(i) + t) == i,
        framed_tail(frame(i) + t) == t,
{
    let r = frame(i) + t;
    let n = i.len() as int;
    assert(n / 256 <= 255 && n % 256 <= 255) by (nonlinear_arith)
        requires 0 <= n <= 0xFFFF,
    ;
    assert(r[0] == (n / 256) as u8 && r[1] == (n % 256) as u8);
    assert((n / 256) * 256 + n % 256 == n) by (nonlinear_arith)
        requires 0 <= n,
    ;
    assert(frame_len(r) == n);
    assert(framed_head(r) =~= i);
    assert(framed_tail(r) =~= t);
}

/// Two framed concatenations can only be equal segment by segment.
pub proof fn lemma_frame_inj(i1: Seq<u8>, t1: Seq<u8>, i2: Seq<u8>, t2: Seq<u8>)
    requires
        i1.len() <= 0xFFFF,
        i2.len() <= 0xFFFF,
        frame(i1) + t1 == frame(i2) + t2,
    ensures
        i1 == i2,
        t1 == t2,
{
    lemma_frame_parse(i1, t1);
    lemma_frame_parse(i2, t2);
}

/// If a framed concatenation starts with another frame, the two framed
/// segments are the same.
pub proof fn lemma_frame_prefix(i1: Seq<u8>, t1: Seq<u8>, i2: Seq<u8>)
    requires
        i1.len() <= 0xFFFF,
        i2.len() <= 0xFFFF,
        has_prefix(frame(i1) + t1, frame(i2)),
    ensures
        i1 == i2,
{
    let k = frame(i1) + t1;
    lemma_frame_parse(i1, t1);
    let p = frame(i2);
    assert(k.subrange(0, p.len() as int) == p);
    assert(k[0] == p[0] && k[1] == p[1]);
    let n1 = i1.len() as int;
    let n2 = i2.len() as int;
    assert(n1 / 256 <= 255 && n1 % 256 <= 255) by (nonlinear_arith)
        requires 0 <= n1 <= 0xFFFF,
    ;
    assert(n2 / 256 <= 255 && n2 % 256 <= 255) by (nonlinear_arith)
        requires 0 <= n2 <= 0xFFFF,
    ;
    assert((n1 / 256) * 256 + n1 % 256 == n1) by (nonlinear_arith)
        requires 0 <= n1,
    ;
    assert((n2 / 256) * 256 + n2 % 256 == n2) by (nonlinear_arith)
        requires 0 <= n2,
    ;
    assert(n1 == n2);
    assert(i1 =~= i2) by {
        assert forall|j: int| 0 <= j < n1 implies i1[j] == i2[j] by {
            assert(k[2 + j] == k.subrange(0, p.len() as int)[2 + j]);
        }
    }
}

/// Executable framing: the 2-byte big-endian length, then the bytes.
pub fn to_length_prefixed(component: &[u8]) -> (out: Vec<u8>)
    requires
        component@.len() <= 0xFFFF,
    ensures
        out@ == frame(component@),
{
    let n = component.len();
    let mut out: Vec<u8> = Vec::new();
    out.push((n / 256) as u8);
    out.push((n % 256) as u8);
    let mut i: usize = 0;
    while i < n
        invariant
            n == component@.len() <= 0xFFFF,
            i <= n,
            out@ == frame(component@).subrange(0, 2 + i as int),
        decreases n - i,
    {
        out.push(component[i]);
        assert(out@ =~= frame(component@).subrange(0, 2 + i + 1));
        i += 1;
    }
    assert(out@ =~= frame(component@));
    out
}

/// Appends `b` to a copy of `a`.
pub fn concat_bytes(a: &[u8], b: &[u8]) -> (out: Vec<u8>)
    ensures
        out@ == a@ + b@,
{
    let mut out: Vec<u8> = Vec::new();
    let mut i: usize = 0;
    while i < a.len()
        invariant
            i <= a@.len(),
            out@ == a@.subrange(0, i as int),
        decreases a@.len() - i,
    {
        out.push(a[i]);
        assert(out@ =~= a@.subrange(0, i + 1));
        i += 1;
    }
    let mut j: usize = 0;
    while j < b.len()
        invariant
            j <= b@.len(),
            out@ == a@ + b@.subrange(0, j as int),
        decreases b@.len() - j,
    {
        out.push(b[j]);
        assert(out@ =~= a@ + b@.subrange(0, j + 1));
        j += 1;
    }
    assert(out@ =~= a@ + b@);
    out
}

/// The bytes of `v` from position `start` on.
pub fn tail_from(v: &[u8], start: usize) -> (out: Vec<u8>)
    requires
        start <= v@.len(),
    ensures
        out@ == v@.skip(start as int),
{
    let mut out: Vec<u8> = Vec::new();
    let mut i: usize = start;
    while i < v.len()
        invariant
            start <= i <= v@.len(),
            out@ == v@.subrange(start as int, i as int),
        decreases v@.len() - i,
    {
        out.push(v[i]);
        assert(out@ =~= v@.subrange(start as int, i + 1));
        i += 1;
    }
    assert(out@ =~= v@.skip(start as int));
    out
}

/// Executable successor of a prefix: strip trailing maximum bytes, then step
/// the last byte that is below the maximum; `None` when every byte is maximal.
pub fn prefix_successor(p: &[u8]) -> (out: Option<Vec<u8>>)
    ensures
        match out {
            Some(s) => successor_spec(p@) == Some(s@),
            None => successor_spec(p@) is None,
        },
{
    let mut i: usize = p.len();
    assert(p@.subrange(0, i as int) =~= p@);
    while i > 0 && p[i - 1] == 255
        invariant
            i <= p@.len(),
            successor_spec(p@) == successor_spec(p@.subrange(0, i as int)),
        decreases i,
    {
        assert(p@.subrange(0, i as int).drop_last() =~= p@.subrange(0, i - 1));
        i -= 1;
    }
    if i == 0 {
        assert(p@.subrange(0, 0) =~= Seq::<u8>::empty());
        None
    } else {
        let mut out = tail_from(p, 0);
        assert(out@ =~= p@);
        out.truncate(i);
        assert(out@ =~= p@.subrange(0, i as int));
        let last = out[i - 1];
        out.set(i - 1, last + 1);
        proof {
            let q = p@.subrange(0, i as int);
            assert(q.last() == p@[i - 1]);
            assert(out@ =~= q.drop_last().push((q.last() + 1) as u8));
        }
        Some(out)
    }
}

} // verus!
