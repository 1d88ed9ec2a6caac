//! The record codec: a deterministic, self-describing binary format for
//! `Event` values, capped at `MAX_RECORD_BYTES` per record. `spec_encode`
//! and `spec_decode` are the mathematical format; the executable `encode`
//! and `decode` are proved against them, and `lemma_decode_encode` /
//! `lemma_encode_decode` state that the two are exact inverses.

use vstd::prelude::*;
use vstd::bytes::{
    spec_u16_to_le_bytes, spec_u16_from_le_bytes, spec_u64_to_le_bytes, spec_u64_from_le_bytes,
    lemma_auto_spec_u16_to_from_le_bytes, lemma_auto_spec_u64_to_from_le_bytes, u16_from_le_bytes,
    u16_to_le_bytes, u64_from_le_bytes, u64_to_le_bytes,
};
use vstd::slice::slice_subrange;
use crate::event::{Event, EventView, Identity};

verus! {

/// The fixed maximum encoded size of one record.
pub const MAX_RECORD_BYTES: usize = 1024;

/// A byte string short enough for its two-byte length prefix.
pub open spec fn chunkable(b: Seq<u8>) -> bool {
    b.len() <= 0xffff
}

/// A length-prefixed byte string: two little-endian length bytes, then the bytes.
pub open spec fn enc_chunk(b: Seq<u8>) -> Seq<u8>
    recommends
        chunkable(b),
{
    spec_u16_to_le_bytes(b.len() as u16) + b
}

/// An optional timestamp: a one-byte tag, then eight value bytes if present.
pub open spec fn enc_opt_u64(o: Option<u64>) -> Seq<u8> {
    match o {
        None => seq![0u8],
        Some(t) => seq![1u8] + spec_u64_to_le_bytes(t),
    }
}

/// The attendee list, one chunk per identity, in order.
pub open spec fn enc_attendees(s: Seq<Seq<u8>>) -> Seq<u8>
    decreases s.len(),
{
    if s.len() == 0 {
        Seq::empty()
    } else {
        enc_chunk(s.first()) + enc_attendees(s.drop_first())
    }
}

/// Every variable-length part of the view fits its length prefix.
pub open spec fn encodable(v: EventView) -> bool {
    &&& chunkable(v.owner)
    &&& chunkable(v.event_title)
    &&& chunkable(v.event_description)
    &&& chunkable(v.event_location)
    &&& chunkable(v.event_card_imgurl)
    &&& v.attendees.len() <= 0xffff
    &&& forall|i: int| 0 <= i < v.attendees.len() ==> chunkable(#[trigger] v.attendees[i])
}

/// The encoded form of an event: fixed-size numeric fields, then the
/// length-prefixed byte fields, then the counted attendee list.
pub open spec fn spec_encode(v: EventView) -> Seq<u8>
    recommends
        encodable(v),
{
    spec_u64_to_le_bytes(v.id) + (spec_u64_to_le_bytes(v.created_at) + (enc_opt_u64(v.updated_at)
        + (enc_chunk(v.owner) + (enc_chunk(v.event_title) + (enc_chunk(v.event_description)
        + (enc_chunk(v.event_location) + (enc_chunk(v.event_card_imgurl)
        + (spec_u16_to_le_bytes(v.attendees.len() as u16) + enc_attendees(v.attendees)))))))))
}

/// An event that can be encoded and whose encoding fits one record.
pub open spec fn fits(v: EventView) -> bool {
    encodable(v) && spec_encode(v).len() <= MAX_RECORD_BYTES
}

// ---------------------------------------------------------------------------
// The mathematical parser: each `take_*` reads one part off the front of the
// byte string and returns the value together with the remainder.
// ---------------------------------------------------------------------------

pub open spec fn take_u64(b: Seq<u8>) -> Option<(u64, Seq<u8>)> {
    if b.len() >= 8 {
        Some((spec_u64_from_le_bytes(b.subrange(0, 8)), b.skip(8)))
    } else {
        None
    }
}

pub open spec fn take_u16(b: Seq<u8>) -> Option<(u16, Seq<u8>)> {
    if b.len() >= 2 {
        Some((spec_u16_from_le_bytes(b.subrange(0, 2)), b.skip(2)))
    } else {
        None
    }
}

pub open spec fn take_chunk(b: Seq<u8>) -> Option<(Seq<u8>, Seq<u8>)> {
    match take_u16(b) {
        None => None,
        Some((n, r)) => if r.len() >= n {
            Some((r.subrange(0, n as int), r.skip(n as int)))
        } else {
            None
        },
    }
}

pub open spec fn take_opt_u64(b: Seq<u8>) -> Option<(Option<u64>, Seq<u8>)> {
    if b.len() < 1 {
        None
    } else if b[0] == 0 {
        Some((None, b.skip(1)))
    } else if b[0] == 1 {
        match take_u64(b.skip(1)) {
            None => None,
            Some((t, r)) => Some((Some(t), r)),
        }
    } else {
        None
    }
}

pub open spec fn take_attendees(b: Seq<u8>, n: nat) -> Option<(Seq<Seq<u8>>, Seq<u8>)>
    decreases n,
{
    if n == 0 {
        Some((Seq::empty(), b))
    } else {
        match take_chunk(b) {
            None => None,
            Some((c, r)) => match take_attendees(r, (n - 1) as nat) {
                None => None,
                Some((s, r2)) => Some((seq![c] + s, r2)),
            },
        }
    }
}

/// The mathematical decoder: the exact left inverse of `spec_encode`.
pub open spec fn spec_decode(b: Seq<u8>) -> Option<EventView> {
    match take_u64(b) {
        None => None,
        Some((id, b)) => match take_u64(b) {
            None => None,
            Some((created_at, b)) => match take_opt_u64(b) {
                None => None,
                Some((updated_at, b)) => match take_chunk(b) {
                    None => None,
                    Some((owner, b)) => match take_chunk(b) {
                        None => None,
                        Some((title, b)) => match take_chunk(b) {
                            None => None,
                            Some((description, b)) => match take_chunk(b) {
                                None => None,
                                Some((location, b)) => match take_chunk(b) {
                                    None => None,
                                    Some((imgurl, b)) => match take_u16(b) {
                                        None => None,
                                        Some((count, b)) => match take_attendees(b, count as nat) {
                                            None => None,
                                            Some((attendees, rest)) => if rest.len() == 0 {
                                                Some(EventView {
                                                    id,
                                                    event_description: description,
                                                    owner,
                                                    event_title: title,
                                                    event_location: location,
                                                    event_card_imgurl: imgurl,
                                                    attendees,
                                                    created_at,
                                                    updated_at,
                                                })
                                            } else {
                                                None
                                            },
                                        },
                                    },
                                },
                            },
                        },
                    },
                },
            },
        },
    }
}

// ---------------------------------------------------------------------------
// Peeling lemmas: each parser reads back exactly what the encoder wrote.
// ---------------------------------------------------------------------------

proof fn lemma_take_u64_enc(x: u64, r: Seq<u8>)
    ensures
        take_u64(spec_u64_to_le_bytes(x) + r) == Some((x, r)),
{
    lemma_auto_spec_u64_to_from_le_bytes();
    let b = spec_u64_to_le_bytes(x) + r;
    assert(b.subrange(0, 8) =~= spec_u64_to_le_bytes(x));
    assert(b.skip(8) =~= r);
}

proof fn lemma_take_u16_enc(x: u16, r: Seq<u8>)
    ensures
        take_u16(spec_u16_to_le_bytes(x) + r) == Some((x, r)),
{
    lemma_auto_spec_u16_to_from_le_bytes();
    let b = spec_u16_to_le_bytes(x) + r;
    assert(b.subrange(0, 2) =~= spec_u16_to_le_bytes(x));
    assert(b.skip(2) =~= r);
}

proof fn lemma_take_chunk_enc(c: Seq<u8>, r: Seq<u8>)
    requires
        chunkable(c),
    ensures
        take_chunk(enc_chunk(c) + r) == Some((c, r)),
{
    lemma_auto_spec_u16_to_from_le_bytes();
    let b = enc_chunk(c) + r;
    assert(b =~= spec_u16_to_le_bytes(c.len() as u16) + (c + r));
    lemma_take_u16_enc(c.len() as u16, c + r);
    assert((c + r).subrange(0, c.len() as int) =~= c);
    assert((c + r).skip(c.len() as int) =~= r);
}

proof fn lemma_take_opt_u64_enc(o: Option<u64>, r: Seq<u8>)
    ensures
        take_opt_u64(enc_opt_u64(o) + r) == Some((o, r)),
{
    let b = enc_opt_u64(o) + r;
    match o {
        None => {
            assert(b[0] == 0);
            assert(b.skip(1) =~= r);
        },
        Some(t) => {
            assert(b[0] == 1);
            assert(b.skip(1) =~= spec_u64_to_le_bytes(t) + r);
            lemma_take_u64_enc(t, r);
        },
    }
}

proof fn lemma_take_attendees_enc(s: Seq<Seq<u8>>, r: Seq<u8>)
    requires
        forall|i: int| 0 <= i < s.len() ==> chunkable(#[trigger] s[i]),
    ensures
        take_attendees(enc_attendees(s) + r, s.len()) == Some((s, r)),
    decreases s.len(),
{
    if s.len() == 0 {
        assert(enc_attendees(s) + r =~= r);
        assert(take_attendees(r, 0) == Some((Seq::<Seq<u8>>::empty(), r)));
        assert(s =~= Seq::<Seq<u8>>::empty());
    } else {
        let b = enc_attendees(s) + r;
        assert(b =~= enc_chunk(s.first()) + (enc_attendees(s.drop_first()) + r));
        lemma_take_chunk_enc(s.first(), enc_attendees(s.drop_first()) + r);
        lemma_take_attendees_enc(s.drop_first(), r);
        assert(seq![s.first()] + s.drop_first() =~= s);
    }
}

/// Appending one more attendee extends the encoding on the right.
proof fn lemma_enc_attendees_snoc(s: Seq<Seq<u8>>, c: Seq<u8>)
    ensures
        enc_attendees(s.push(c)) == enc_attendees(s) + enc_chunk(c),
    decreases s.len(),
{
    if s.len() == 0 {
        assert(s.push(c).first() == c);
        assert(s.push(c).drop_first() =~= Seq::<Seq<u8>>::empty());
        assert(enc_attendees(s.push(c).drop_first()) == Seq::<u8>::empty());
        assert(enc_chunk(c) + Seq::<u8>::empty() =~= enc_chunk(c));
        assert(enc_attendees(s) + enc_chunk(c) =~= enc_chunk(c));
        assert(enc_attendees(s.push(c)) =~= enc_attendees(s) + enc_chunk(c));
    } else {
        assert(s.push(c).first() == s.first());
        assert(s.push(c).drop_first() =~= s.drop_first().push(c));
        lemma_enc_attendees_snoc(s.drop_first(), c);
        assert(enc_attendees(s.push(c)) =~= enc_attendees(s) + enc_chunk(c));
    }
}

/// Round trip one way: decoding an encoding gives back the same view.
pub proof fn lemma_decode_encode(v: EventView)
    requires
        encodable(v),
    ensures
        spec_decode(spec_encode(v)) == Some(v),
{
    let b9 = spec_u16_to_le_bytes(v.attendees.len() as u16) + enc_attendees(v.attendees);
    let b8 = enc_chunk(v.event_card_imgurl) + b9;
    let b7 = enc_chunk(v.event_location) + b8;
    let b6 = enc_chunk(v.event_description) + b7;
    let b5 = enc_chunk(v.event_title) + b6;
    let b4 = enc_chunk(v.owner) + b5;
    let b3 = enc_opt_u64(v.updated_at) + b4;
    let b2 = spec_u64_to_le_bytes(v.created_at) + b3;
    let b1 = spec_u64_to_le_bytes(v.id) + b2;
    assert(spec_encode(v) == b1);
    lemma_take_u64_enc(v.id, b2);
    lemma_take_u64_enc(v.created_at, b3);
    lemma_take_opt_u64_enc(v.updated_at, b4);
    lemma_take_chunk_enc(v.owner, b5);
    lemma_take_chunk_enc(v.event_title, b6);
    lemma_take_chunk_enc(v.event_description, b7);
    lemma_take_chunk_enc(v.event_location, b8);
    lemma_take_chunk_enc(v.event_card_imgurl, b9);
    lemma_take_u16_enc(v.attendees.len() as u16, enc_attendees(v.attendees));
    lemma_take_attendees_enc(v.attendees, Seq::empty());
    assert(enc_attendees(v.attendees) + Seq::<u8>::empty() =~= enc_attendees(v.attendees));
}

// ---------------------------------------------------------------------------
// Inverse peeling lemmas: a successful parse reproduces its input bytes.
// ---------------------------------------------------------------------------

proof fn lemma_take_u64_inv(b: Seq<u8>, x: u64, r: Seq<u8>)
    requires
        take_u64(b) == Some((x, r)),
    ensures
        b == spec_u64_to_le_bytes(x) + r,
{
    lemma_auto_spec_u64_to_from_le_bytes();
    assert(spec_u64_to_le_bytes(spec_u64_from_le_bytes(b.subrange(0, 8))) == b.subrange(0, 8));
    assert(b =~= b.subrange(0, 8) + b.skip(8));
}

proof fn lemma_take_u16_inv(b: Seq<u8>, x: u16, r: Seq<u8>)
    requires
        take_u16(b) == Some((x, r)),
    ensures
        b == spec_u16_to_le_bytes(x) + r,
{
    lemma_auto_spec_u16_to_from_le_bytes();
    assert(spec_u16_to_le_bytes(spec_u16_from_le_bytes(b.subrange(0, 2))) == b.subrange(0, 2));
    assert(b =~= b.subrange(0, 2) + b.skip(2));
}

proof fn lemma_take_chunk_inv(b: Seq<u8>, c: Seq<u8>, r: Seq<u8>)
    requires
        take_chunk(b) == Some((c, r)),
    ensures
        b == enc_chunk(c) + r,
        chunkable(c),
{
    lemma_auto_spec_u16_to_from_le_bytes();
    let (n, rest) = take_u16(b).unwrap();
    lemma_take_u16_inv(b, n, rest);
    assert(c.len() == n as int);
    assert(rest =~= rest.subrange(0, n as int) + rest.skip(n as int));
    assert(b =~= enc_chunk(c) + r);
}

proof fn lemma_take_opt_u64_inv(b: Seq<u8>, o: Option<u64>, r: Seq<u8>)
    requires
        take_opt_u64(b) == Some((o, r)),
    ensures
        b == enc_opt_u64(o) + r,
{
    match o {
        None => {
            assert(b[0] == 0);
            assert(b =~= seq![0u8] + b.skip(1));
        },
        Some(t) => {
            assert(b[0] == 1);
            lemma_take_u64_inv(b.skip(1), t, r);
            assert(b =~= seq![1u8] + b.skip(1));
            assert(b =~= enc_opt_u64(o) + r);
        },
    }
}

proof fn lemma_take_attendees_inv(b: Seq<u8>, n: nat, s: Seq<Seq<u8>>, r: Seq<u8>)
    requires
        take_attendees(b, n) == Some((s, r)),
    ensures
        b == enc_attendees(s) + r,
        s.len() == n,
        forall|i: int| 0 <= i < s.len() ==> chunkable(#[trigger] s[i]),
    decreases n,
{
    if n == 0 {
        assert(b =~= enc_attendees(s) + r);
    } else {
        let (c, r1) = take_chunk(b).unwrap();
        let (s1, r2) = take_attendees(r1, (n - 1) as nat).unwrap();
        lemma_take_chunk_inv(b, c, r1);
        lemma_take_attendees_inv(r1, (n - 1) as nat, s1, r2);
        assert(s == seq![c] + s1);
        assert(s.first() == c);
        assert(s.drop_first() =~= s1);
        assert(b =~= enc_chunk(c) + (enc_attendees(s1) + r));
        assert(enc_attendees(s) =~= enc_chunk(c) + enc_attendees(s1));
        assert(b =~= enc_attendees(s) + r);
    }
}

/// Round trip the other way: any byte string the decoder accepts is the
/// encoding of the view it returns, so `spec_encode(spec_decode(b)) == b`.
pub proof fn lemma_encode_decode(b: Seq<u8>, v: EventView)
    requires
        spec_decode(b) == Some(v),
    ensures
        encodable(v),
        spec_encode(v) == b,
{
    let (id, b2) = take_u64(b).unwrap();
    let (created_at, b3) = take_u64(b2).unwrap();
    let (updated_at, b4) = take_opt_u64(b3).unwrap();
    let (owner, b5) = take_chunk(b4).unwrap();
    let (title, b6) = take_chunk(b5).unwrap();
    let (description, b7) = take_chunk(b6).unwrap();
    let (location, b8) = take_chunk(b7).unwrap();
    let (imgurl, b9) = take_chunk(b8).unwrap();
    let (count, b10) = take_u16(b9).unwrap();
    let (attendees, rest) = take_attendees(b10, count as nat).unwrap();
    lemma_take_u64_inv(b, id, b2);
    lemma_take_u64_inv(b2, created_at, b3);
    lemma_take_opt_u64_inv(b3, updated_at, b4);
    lemma_take_chunk_inv(b4, owner, b5);
    lemma_take_chunk_inv(b5, title, b6);
    lemma_take_chunk_inv(b6, description, b7);
    lemma_take_chunk_inv(b7, location, b8);
    lemma_take_chunk_inv(b8, imgurl, b9);
    lemma_take_u16_inv(b9, count, b10);
    lemma_take_attendees_inv(b10, count as nat, attendees, rest);
    assert(rest =~= Seq::<u8>::empty());
    assert(enc_attendees(attendees) + rest =~= enc_attendees(attendees));
    assert(spec_encode(v) =~= b);
}

// ---------------------------------------------------------------------------
// Executable encoder.
// ---------------------------------------------------------------------------

/// Appends the bytes of `src` to `out`.
fn push_bytes(out: &mut Vec<u8>, src: &Vec<u8>)
    ensures
        final(out)@ == old(out)@ + src@,
{
    let mut i: usize = 0;
    while i < src.len()
        invariant
            i <= src.len(),
            out@ == old(out)@ + src@.subrange(0, i as int),
        decreases src.len() - i,
    {
        out.push(src[i]);
        proof {
            assert(out@ =~= old(out)@ + src@.subrange(0, i as int + 1));
        }
        i += 1;
    }
    proof {
        assert(src@.subrange(0, src@.len() as int) =~= src@);
    }
}

/// Appends one length-prefixed chunk to `out`.
fn push_chunk(out: &mut Vec<u8>, data: &Vec<u8>)
    requires
        chunkable(data@),
    ensures
        final(out)@ == old(out)@ + enc_chunk(data@),
{
    let mut pre = u16_to_le_bytes(data.len() as u16);
    out.append(&mut pre);
    push_bytes(out, data);
    proof {
        assert(out@ =~= old(out)@ + enc_chunk(data@));
    }
}

/// The attendee views of a vector of identities.
pub open spec fn att_views(s: Seq<Identity>) -> Seq<Seq<u8>> {
    Seq::new(s.len(), |i: int| s[i]@)
}

/// Encodes an event as its record bytes.
#[verifier::rlimit(50)]
pub fn encode(e: &Event) -> (r: Vec<u8>)
    requires
        encodable(e@),
    ensures
        r@ == spec_encode(e@),
{
    let mut out = u64_to_le_bytes(e.id);
    let mut created = u64_to_le_bytes(e.created_at);
    out.append(&mut created);
    match e.updated_at {
        None => {
            out.push(0u8);
        },
        Some(t) => {
            out.push(1u8);
            let mut ts = u64_to_le_bytes(t);
            out.append(&mut ts);
        },
    }
    proof {
        assert(out@ =~= spec_u64_to_le_bytes(e@.id) + spec_u64_to_le_bytes(e@.created_at)
            + enc_opt_u64(e@.updated_at));
    }
    push_chunk(&mut out, &e.owner.bytes);
    push_chunk(&mut out, &e.event_title);
    push_chunk(&mut out, &e.event_description);
    push_chunk(&mut out, &e.event_location);
    push_chunk(&mut out, &e.event_card_imgurl);
    let mut cnt = u16_to_le_bytes(e.attendees.len() as u16);
    out.append(&mut cnt);
    let ghost prefix = out@;
    let mut i: usize = 0;
    while i < e.attendees.len()
        invariant
            i <= e.attendees@.len(),
            encodable(e@),
            e@.attendees.len() == e.attendees@.len(),
            out@ == prefix + enc_attendees(e@.attendees.subrange(0, i as int)),
        decreases e.attendees@.len() - i,
    {
        proof {
            assert(e@.attendees[i as int] == e.attendees@[i as int]@);
            assert(chunkable(e@.attendees[i as int]));
        }
        push_chunk(&mut out, &e.attendees[i].bytes);
        proof {
            lemma_enc_attendees_snoc(e@.attendees.subrange(0, i as int), e@.attendees[i as int]);
            assert(e@.attendees.subrange(0, i as int).push(e@.attendees[i as int]) =~= e@
                .attendees.subrange(0, i as int + 1));
            assert(out@ =~= prefix + enc_attendees(e@.attendees.subrange(0, i as int + 1)));
        }
        i += 1;
    }
    proof {
        assert(e@.attendees.subrange(0, e@.attendees.len() as int) =~= e@.attendees);
        assert(out@ =~= spec_encode(e@));
    }
    out
}

/// Decides whether an event can be encoded and its record fits the cap.
#[verifier::loop_isolation(false)]
pub fn event_fits(e: &Event) -> (r: bool)
    ensures
        r <==> fits(e@),
{
    proof {
        lemma_auto_spec_u16_to_from_le_bytes();
        lemma_auto_spec_u64_to_from_le_bytes();
    }
    if e.owner.bytes.len() > 0xffff {
        return false;
    }
    if e.event_title.len() > 0xffff {
        return false;
    }
    if e.event_description.len() > 0xffff {
        return false;
    }
    if e.event_location.len() > 0xffff {
        return false;
    }
    if e.event_card_imgurl.len() > 0xffff {
        return false;
    }
    if e.attendees.len() > 0xffff {
        return false;
    }
    let mut acc: u64 = 8 + 8 + 2;
    acc = acc + (match e.updated_at {
        None => 1u64,
        Some(_) => 9u64,
    });
    acc = acc + 2 + e.owner.bytes.len() as u64;
    acc = acc + 2 + e.event_title.len() as u64;
    acc = acc + 2 + e.event_description.len() as u64;
    acc = acc + 2 + e.event_location.len() as u64;
    acc = acc + 2 + e.event_card_imgurl.len() as u64;
    proof {
        assert(acc as int == spec_encode(e@).len() - enc_attendees(e@.attendees).len());
    }
    let ghost base = acc as int;
    let mut i: usize = 0;
    while i < e.attendees.len()
        invariant
            i <= e.attendees@.len(),
            forall|j: int| 0 <= j < i ==> chunkable(#[trigger] e@.attendees[j]),
            acc as int == base + enc_attendees(e@.attendees.subrange(0, i as int)).len(),
            acc as int <= base + i * 0x10001,
        decreases e.attendees@.len() - i,
    {
        if e.attendees[i].bytes.len() > 0xffff {
            proof {
                assert(e@.attendees[i as int] == e.attendees@[i as int]@);
                assert(!chunkable(e@.attendees[i as int]));
            }
            return false;
        }
        proof {
            lemma_enc_attendees_snoc(e@.attendees.subrange(0, i as int), e@.attendees[i as int]);
            assert(e@.attendees.subrange(0, i as int).push(e@.attendees[i as int]) =~= e@
                .attendees.subrange(0, i as int + 1));
        }
        acc = acc + 2 + e.attendees[i].bytes.len() as u64;
        i += 1;
    }
    proof {
        assert(e@.attendees.subrange(0, e@.attendees.len() as int) =~= e@.attendees);
        assert(encodable(e@));
        assert(acc as int == spec_encode(e@).len());
    }
    acc <= MAX_RECORD_BYTES as u64
}

// ---------------------------------------------------------------------------
// Executable decoder.
// ---------------------------------------------------------------------------

/// Returns a copy of `len` bytes of `b` starting at `start`.
fn copy_range(b: &Vec<u8>, start: usize, len: usize) -> (r: Vec<u8>)
    requires
        start + len <= b@.len(),
    ensures
        r@ == b@.subrange(start as int, start as int + len as int),
{
    let mut out: Vec<u8> = Vec::new();
    let total = b.len();
    let mut i: usize = 0;
    while i < len
        invariant
            i <= len,
            start + len <= total,
            total == b@.len(),
            out@ == b@.subrange(start as int, start as int + i as int),
        decreases len - i,
    {
        out.push(b[start + i]);
        proof {
            assert(out@ =~= b@.subrange(start as int, start as int + i as int + 1));
        }
        i += 1;
    }
    out
}

/// Reads one `u64` at `pos`, mirroring `take_u64` on the remaining bytes.
fn read_u64_at(b: &Vec<u8>, pos: usize) -> (r: Option<(u64, usize)>)
    requires
        pos <= b@.len(),
    ensures
        match r {
            Some((x, p)) => {
                &&& take_u64(b@.skip(pos as int)) == Some((x, b@.skip(p as int)))
                &&& pos < p <= b@.len()
            },
            None => take_u64(b@.skip(pos as int)) is None,
        },
{
    if b.len() - pos >= 8 {
        let s = slice_subrange(b.as_slice(), pos, pos + 8);
        let x = u64_from_le_bytes(s);
        proof {
            assert(b@.skip(pos as int).subrange(0, 8) =~= b@.subrange(pos as int, pos as int + 8));
            assert(b@.skip(pos as int).skip(8) =~= b@.skip(pos as int + 8));
        }
        Some((x, pos + 8))
    } else {
        None
    }
}

/// Reads one `u16` at `pos`, mirroring `take_u16` on the remaining bytes.
fn read_u16_at(b: &Vec<u8>, pos: usize) -> (r: Option<(u16, usize)>)
    requires
        pos <= b@.len(),
    ensures
        match r {
            Some((x, p)) => {
                &&& take_u16(b@.skip(pos as int)) == Some((x, b@.skip(p as int)))
                &&& pos < p <= b@.len()
            },
            None => take_u16(b@.skip(pos as int)) is None,
        },
{
    if b.len() - pos >= 2 {
        let s = slice_subrange(b.as_slice(), pos, pos + 2);
        let x = u16_from_le_bytes(s);
        proof {
            assert(b@.skip(pos as int).subrange(0, 2) =~= b@.subrange(pos as int, pos as int + 2));
            assert(b@.skip(pos as int).skip(2) =~= b@.skip(pos as int + 2));
        }
        Some((x, pos + 2))
    } else {
        None
    }
}

/// Reads one length-prefixed chunk at `pos`, mirroring `take_chunk`.
fn read_chunk_at(b: &Vec<u8>, pos: usize) -> (r: Option<(Vec<u8>, usize)>)
    requires
        pos <= b@.len(),
    ensures
        match r {
            Some((c, p)) => {
                &&& take_chunk(b@.skip(pos as int)) == Some((c@, b@.skip(p as int)))
                &&& pos < p <= b@.len()
            },
            None => take_chunk(b@.skip(pos as int)) is None,
        },
{
    match read_u16_at(b, pos) {
        None => None,
        Some((n, p1)) => {
            let nn = n as usize;
            if b.len() - p1 >= nn {
                let c = copy_range(b, p1, nn);
                proof {
                    assert(b@.skip(p1 as int).len() >= n);
                    assert(b@.skip(p1 as int).subrange(0, n as int) =~= b@.subrange(
                        p1 as int,
                        p1 as int + n as int,
                    ));
                    assert(b@.skip(p1 as int).skip(n as int) =~= b@.skip(p1 as int + n as int));
                }
                Some((c, p1 + nn))
            } else {
                proof {
                    assert(b@.skip(p1 as int).len() < n);
                }
                None
            }
        },
    }
}

/// Reads the optional timestamp at `pos`, mirroring `take_opt_u64`.
fn read_opt_u64_at(b: &Vec<u8>, pos: usize) -> (r: Option<(Option<u64>, usize)>)
    requires
        pos <= b@.len(),
    ensures
        match r {
            Some((o, p)) => {
                &&& take_opt_u64(b@.skip(pos as int)) == Some((o, b@.skip(p as int)))
                &&& pos < p <= b@.len()
            },
            None => take_opt_u64(b@.skip(pos as int)) is None,
        },
{
    if pos >= b.len() {
        return None;
    }
    let tag = b[pos];
    proof {
        assert(b@.skip(pos as int)[0] == b@[pos as int]);
    }
    if tag == 0 {
        proof {
            assert(b@.skip(pos as int).skip(1) =~= b@.skip(pos as int + 1));
        }
        Some((None, pos + 1))
    } else if tag == 1 {
        proof {
            assert(b@.skip(pos as int).skip(1) =~= b@.skip(pos as int + 1));
        }
        match read_u64_at(b, pos + 1) {
            None => None,
            Some((t, p)) => Some((Some(t), p)),
        }
    } else {
        None
    }
}

/// Decodes record bytes, returning exactly the value of `spec_decode`:
/// the event for a well-formed encoding, nothing for anything else.
#[verifier::loop_isolation(false)]
pub fn decode(b: &Vec<u8>) -> (r: Option<Event>)
    ensures
        match r {
            Some(e) => spec_decode(b@) == Some(e@),
            None => spec_decode(b@) is None,
        },
{
    proof {
        assert(b@.skip(0) =~= b@);
    }
    let (id, pos1) = match read_u64_at(b, 0) {
        Some(v) => v,
        None => { return None; },
    };
    let (created_at, pos2) = match read_u64_at(b, pos1) {
        Some(v) => v,
        None => { return None; },
    };
    let (updated_at, pos3) = match read_opt_u64_at(b, pos2) {
        Some(v) => v,
        None => { return None; },
    };
    let (owner, pos4) = match read_chunk_at(b, pos3) {
        Some(v) => v,
        None => { return None; },
    };
    let (title, pos5) = match read_chunk_at(b, pos4) {
        Some(v) => v,
        None => { return None; },
    };
    let (description, pos6) = match read_chunk_at(b, pos5) {
        Some(v) => v,
        None => { return None; },
    };
    let (location, pos7) = match read_chunk_at(b, pos6) {
        Some(v) => v,
        None => { return None; },
    };
    let (imgurl, pos8) = match read_chunk_at(b, pos7) {
        Some(v) => v,
        None => { return None; },
    };
    let (count, pos9) = match read_u16_at(b, pos8) {
        Some(v) => v,
        None => { return None; },
    };
    let n = count as usize;
    let mut atts: Vec<Identity> = Vec::new();
    let mut pos: usize = pos9;
    let ghost pos0 = pos9 as int;
    let mut i: usize = 0;
    while i < n
        invariant
            i <= n,
            pos <= b@.len(),
            atts@.len() == i,
            take_attendees(b@.skip(pos0), n as nat) == (match take_attendees(
                b@.skip(pos as int),
                (n - i) as nat,
            ) {
                None => None::<(Seq<Seq<u8>>, Seq<u8>)>,
                Some((s, rest)) => Some((att_views(atts@) + s, rest)),
            }),
        decreases n - i,
    {
        match read_chunk_at(b, pos) {
            None => {
                proof {
                    assert(take_attendees(b@.skip(pos as int), (n - i) as nat) is None);
                }
                return None;
            },
            Some((c, p2)) => {
                let ghost old_atts = atts@;
                atts.push(Identity { bytes: c });
                proof {
                    assert(att_views(atts@) =~= att_views(old_atts).push(atts@[i as int]@));
                    assert forall|s: Seq<Seq<u8>>|
                        att_views(old_atts) + (seq![atts@[i as int]@] + s) =~= att_views(atts@)
                            + s by {}
                }
                pos = p2;
                i += 1;
            },
        }
    }
    proof {
        assert(take_attendees(b@.skip(pos as int), 0) == Some(
            (Seq::<Seq<u8>>::empty(), b@.skip(pos as int)),
        ));
        assert(att_views(atts@) + Seq::<Seq<u8>>::empty() =~= att_views(atts@));
    }
    if pos != b.len() {
        proof {
            assert(b@.skip(pos as int).len() != 0);
        }
        return None;
    }
    proof {
        assert(b@.skip(pos as int).len() == 0);
    }
    let e = Event {
        id,
        event_description: description,
        owner: Identity { bytes: owner },
        event_title: title,
        event_location: location,
        event_card_imgurl: imgurl,
        attendees: atts,
        created_at,
        updated_at,
    };
    proof {
        assert(e@.attendees =~= att_views(e.attendees@));
    }
    Some(e)
}

/// The encoding pins the view: two well-formed views with the same
/// encoding are the same view.
pub proof fn lemma_encode_injective(v1: EventView, v2: EventView)
    requires
        encodable(v1),
        encodable(v2),
        spec_encode(v1) == spec_encode(v2),
    ensures
        v1 == v2,
{
    lemma_decode_encode(v1);
    lemma_decode_encode(v2);
}

} // verus!
