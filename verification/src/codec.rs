//! The snapshot store's byte format.
//!
//! Bookmarks and tags are kept on disk in a length-prefixed binary form:
//! integers as eight little-endian bytes, strings as a byte count followed
//! by UTF-8, options as a presence byte, lists as a count followed by the
//! elements. Encoding and decoding are verified against one spec-level
//! format, and decoding an encoded snapshot provably returns it unchanged.

use vstd::prelude::*;

use vstd::bytes::{lemma_auto_spec_u64_to_from_le_bytes, spec_u64_from_le_bytes,
    spec_u64_to_le_bytes, u64_from_le_bytes, u64_to_le_bytes};
use vstd::slice::{slice_subrange, slice_to_vec};
use vstd::string::StrSliceExecFns;
use vstd::utf8::{decode_utf8, encode_utf8, valid_utf8};

use crate::pin::{Pin, PinView, Tag};

verus! {

broadcast use vstd::utf8::encode_utf8_valid_utf8, vstd::utf8::encode_utf8_decode_utf8;

// ---------------------------------------------------------------------
// The format, spec side: encoders.
// ---------------------------------------------------------------------

pub open spec fn enc_u64(v: u64) -> Seq<u8> {
    spec_u64_to_le_bytes(v)
}

pub open spec fn enc_i64(v: i64) -> Seq<u8> {
    enc_u64(v as u64)
}

pub open spec fn enc_str(s: Seq<char>) -> Seq<u8> {
    enc_u64(encode_utf8(s).len() as u64) + encode_utf8(s)
}

pub open spec fn enc_opt_str(o: Option<Seq<char>>) -> Seq<u8> {
    match o {
        None => seq![0u8],
        Some(s) => seq![1u8] + enc_str(s),
    }
}

pub open spec fn enc_str_items(ts: Seq<Seq<char>>) -> Seq<u8>
    decreases ts.len(),
{
    if ts.len() == 0 {
        Seq::empty()
    } else {
        enc_str(ts[0]) + enc_str_items(ts.skip(1))
    }
}

pub open spec fn enc_str_list(ts: Seq<Seq<char>>) -> Seq<u8> {
    enc_u64(ts.len() as u64) + enc_str_items(ts)
}

pub open spec fn enc_pin(p: PinView) -> Seq<u8> {
    enc_str(p.url) + enc_str(p.title) + enc_str(p.tags) + enc_str(p.shared) + enc_str(p.toread)
        + enc_opt_str(p.extended) + enc_i64(p.time) + enc_opt_str(p.meta) + enc_opt_str(p.hash)
        + enc_str_list(p.tag_list)
}

pub open spec fn enc_pin_items(ps: Seq<PinView>) -> Seq<u8>
    decreases ps.len(),
{
    if ps.len() == 0 {
        Seq::empty()
    } else {
        enc_pin(ps[0]) + enc_pin_items(ps.skip(1))
    }
}

pub open spec fn enc_pins(ps: Seq<PinView>) -> Seq<u8> {
    enc_u64(ps.len() as u64) + enc_pin_items(ps)
}

pub open spec fn enc_tag(t: (Seq<char>, u64)) -> Seq<u8> {
    enc_str(t.0) + enc_u64(t.1)
}

pub open spec fn enc_tag_items(ts: Seq<(Seq<char>, u64)>) -> Seq<u8>
    decreases ts.len(),
{
    if ts.len() == 0 {
        Seq::empty()
    } else {
        enc_tag(ts[0]) + enc_tag_items(ts.skip(1))
    }
}

pub open spec fn enc_tags(ts: Seq<(Seq<char>, u64)>) -> Seq<u8> {
    enc_u64(ts.len() as u64) + enc_tag_items(ts)
}

// ---------------------------------------------------------------------
// The format, spec side: decoders. Each consumes a prefix of the bytes
// and yields the value with the remaining bytes, or nothing.
// ---------------------------------------------------------------------

pub open spec fn dec_u64(b: Seq<u8>) -> Option<(u64, Seq<u8>)> {
    if b.len() >= 8 {
        Some((spec_u64_from_le_bytes(b.take(8)), b.skip(8)))
    } else {
        None
    }
}

pub open spec fn dec_i64(b: Seq<u8>) -> Option<(i64, Seq<u8>)> {
    match dec_u64(b) {
        Some((v, rest)) => Some((v as i64, rest)),
        None => None,
    }
}

pub open spec fn dec_str(b: Seq<u8>) -> Option<(Seq<char>, Seq<u8>)> {
    match dec_u64(b) {
        Some((n, rest)) => if n <= rest.len() && valid_utf8(rest.take(n as int)) {
            Some((decode_utf8(rest.take(n as int)), rest.skip(n as int)))
        } else {
            None
        },
        None => None,
    }
}

pub open spec fn dec_opt_str(b: Seq<u8>) -> Option<(Option<Seq<char>>, Seq<u8>)> {
    if b.len() == 0 {
        None
    } else if b[0] == 0u8 {
        Some((None, b.skip(1)))
    } else if b[0] == 1u8 {
        match dec_str(b.skip(1)) {
            Some((s, rest)) => Some((Some(s), rest)),
            None => None,
        }
    } else {
        None
    }
}

pub open spec fn dec_str_items(b: Seq<u8>, count: nat) -> Option<(Seq<Seq<char>>, Seq<u8>)>
    decreases count,
{
    if count == 0 {
        Some((Seq::empty(), b))
    } else {
        match dec_str(b) {
            Some((s, rest)) => match dec_str_items(rest, (count - 1) as nat) {
                Some((l, rest2)) => Some((seq![s] + l, rest2)),
                None => None,
            },
            None => None,
        }
    }
}

pub open spec fn dec_str_list(b: Seq<u8>) -> Option<(Seq<Seq<char>>, Seq<u8>)> {
    match dec_u64(b) {
        Some((n, rest)) => dec_str_items(rest, n as nat),
        None => None,
    }
}

pub open spec fn dec_pin(b: Seq<u8>) -> Option<(PinView, Seq<u8>)> {
    match dec_str(b) {
        None => None,
        Some((url, b1)) => match dec_str(b1) {
            None => None,
            Some((title, b2)) => match dec_str(b2) {
                None => None,
                Some((tags, b3)) => match dec_str(b3) {
                    None => None,
                    Some((shared, b4)) => match dec_str(b4) {
                        None => None,
                        Some((toread, b5)) => match dec_opt_str(b5) {
                            None => None,
                            Some((extended, b6)) => match dec_i64(b6) {
                                None => None,
                                Some((time, b7)) => match dec_opt_str(b7) {
                                    None => None,
                                    Some((meta, b8)) => match dec_opt_str(b8) {
                                        None => None,
                                        Some((hash, b9)) => match dec_str_list(b9) {
                                            None => None,
                                            Some((tag_list, b10)) => Some(
                                                (
                                                    PinView {
                                                        url,
                                                        title,
                                                        tags,
                                                        shared,
                                                        toread,
                                                        extended,
                                                        time,
                                                        meta,
                                                        hash,
                                                        tag_list,
                                                    },
                                                    b10,
                                                ),
                                            ),
                                        },
                                    },
                                },
                            },
                        },
                    },
                },
            },
        },
    }
}

pub open spec fn dec_pin_items(b: Seq<u8>, count: nat) -> Option<(Seq<PinView>, Seq<u8>)>
    decreases count,
{
    if count == 0 {
        Some((Seq::empty(), b))
    } else {
        match dec_pin(b) {
            Some((p, rest)) => match dec_pin_items(rest, (count - 1) as nat) {
                Some((l, rest2)) => Some((seq![p] + l, rest2)),
                None => None,
            },
            None => None,
        }
    }
}

pub open spec fn dec_pins(b: Seq<u8>) -> Option<(Seq<PinView>, Seq<u8>)> {
    match dec_u64(b) {
        Some((n, rest)) => dec_pin_items(rest, n as nat),
        None => None,
    }
}

pub open spec fn dec_tag(b: Seq<u8>) -> Option<((Seq<char>, u64), Seq<u8>)> {
    match dec_str(b) {
        None => None,
        Some((name, b1)) => match dec_u64(b1) {
            None => None,
            Some((freq, b2)) => Some(((name, freq), b2)),
        },
    }
}

pub open spec fn dec_tag_items(b: Seq<u8>, count: nat) -> Option<(Seq<(Seq<char>, u64)>, Seq<u8>)>
    decreases count,
{
    if count == 0 {
        Some((Seq::empty(), b))
    } else {
        match dec_tag(b) {
            Some((t, rest)) => match dec_tag_items(rest, (count - 1) as nat) {
                Some((l, rest2)) => Some((seq![t] + l, rest2)),
                None => None,
            },
            None => None,
        }
    }
}

pub open spec fn dec_tags(b: Seq<u8>) -> Option<(Seq<(Seq<char>, u64)>, Seq<u8>)> {
    match dec_u64(b) {
        Some((n, rest)) => dec_tag_items(rest, n as nat),
        None => None,
    }
}

/// The bookmark collection a snapshot file holds, when it decodes cleanly
/// and completely.
pub open spec fn pins_of_bytes(b: Seq<u8>) -> Option<Seq<PinView>> {
    match dec_pins(b) {
        Some((ps, rest)) => if rest.len() == 0 {
            Some(ps)
        } else {
            None
        },
        None => None,
    }
}

/// The tag collection a snapshot file holds, when it decodes cleanly and
/// completely.
pub open spec fn tags_of_bytes(b: Seq<u8>) -> Option<Seq<(Seq<char>, u64)>> {
    match dec_tags(b) {
        Some((ts, rest)) => if rest.len() == 0 {
            Some(ts)
        } else {
            None
        },
        None => None,
    }
}

// ---------------------------------------------------------------------
// What can be encoded: every length must fit its eight-byte prefix.
// Every value that exists in memory satisfies this.
// ---------------------------------------------------------------------

pub open spec fn str_encodable(s: Seq<char>) -> bool {
    encode_utf8(s).len() < 0x1_0000_0000_0000_0000
}

pub open spec fn opt_str_encodable(o: Option<Seq<char>>) -> bool {
    match o {
        None => true,
        Some(s) => str_encodable(s),
    }
}

pub open spec fn str_list_encodable(ts: Seq<Seq<char>>) -> bool {
    &&& ts.len() < 0x1_0000_0000_0000_0000
    &&& forall|i: int| 0 <= i < ts.len() ==> str_encodable(#[trigger] ts[i])
}

pub open spec fn pin_encodable(p: PinView) -> bool {
    &&& str_encodable(p.url)
    &&& str_encodable(p.title)
    &&& str_encodable(p.tags)
    &&& str_encodable(p.shared)
    &&& str_encodable(p.toread)
    &&& opt_str_encodable(p.extended)
    &&& opt_str_encodable(p.meta)
    &&& opt_str_encodable(p.hash)
    &&& str_list_encodable(p.tag_list)
}

pub open spec fn pins_encodable(ps: Seq<PinView>) -> bool {
    &&& ps.len() < 0x1_0000_0000_0000_0000
    &&& forall|i: int| 0 <= i < ps.len() ==> pin_encodable(#[trigger] ps[i])
}

pub open spec fn tag_encodable(t: (Seq<char>, u64)) -> bool {
    str_encodable(t.0)
}

pub open spec fn tags_encodable(ts: Seq<(Seq<char>, u64)>) -> bool {
    &&& ts.len() < 0x1_0000_0000_0000_0000
    &&& forall|i: int| 0 <= i < ts.len() ==> tag_encodable(#[trigger] ts[i])
}

// ---------------------------------------------------------------------
// Prefix lemmas: decoding bytes that start with an encoded value yields
// that value and leaves the rest.
// ---------------------------------------------------------------------

pub proof fn lemma_dec_u64_prefix(v: u64, rest: Seq<u8>)
    ensures
        dec_u64(enc_u64(v) + rest) == Some((v, rest)),
{
    lemma_auto_spec_u64_to_from_le_bytes();
    let b = enc_u64(v) + rest;
    assert(enc_u64(v).len() == 8);
    assert(b.take(8) =~= enc_u64(v));
    assert(b.skip(8) =~= rest);
}

pub proof fn lemma_dec_i64_prefix(v: i64, rest: Seq<u8>)
    ensures
        dec_i64(enc_i64(v) + rest) == Some((v, rest)),
{
    lemma_dec_u64_prefix(v as u64, rest);
    assert((v as u64) as i64 == v) by (bit_vector);
}

pub proof fn lemma_dec_str_prefix(s: Seq<char>, rest: Seq<u8>)
    requires
        str_encodable(s),
    ensures
        dec_str(enc_str(s) + rest) == Some((s, rest)),
{
    let payload = encode_utf8(s);
    let n = payload.len() as u64;
    let b = enc_str(s) + rest;
    assert(b =~= enc_u64(n) + (payload + rest));
    lemma_dec_u64_prefix(n, payload + rest);
    assert(dec_u64(b) == Some((n, payload + rest)));
    assert(n as int == payload.len());
    assert((payload + rest).take(n as int) =~= payload);
    assert((payload + rest).skip(n as int) =~= rest);
    assert(valid_utf8(payload));
    assert(decode_utf8(payload) == s);
}

pub proof fn lemma_dec_opt_str_prefix(o: Option<Seq<char>>, rest: Seq<u8>)
    requires
        opt_str_encodable(o),
    ensures
        dec_opt_str(enc_opt_str(o) + rest) == Some((o, rest)),
{
    let b = enc_opt_str(o) + rest;
    match o {
        None => {
            assert(b[0] == 0u8);
            assert(b.skip(1) =~= rest);
        },
        Some(s) => {
            assert(b[0] == 1u8);
            assert(b.skip(1) =~= enc_str(s) + rest);
            lemma_dec_str_prefix(s, rest);
        },
    }
}

pub proof fn lemma_dec_str_items_prefix(ts: Seq<Seq<char>>, rest: Seq<u8>)
    requires
        forall|i: int| 0 <= i < ts.len() ==> str_encodable(#[trigger] ts[i]),
    ensures
        dec_str_items(enc_str_items(ts) + rest, ts.len() as nat) == Some((ts, rest)),
    decreases ts.len(),
{
    if ts.len() == 0 {
        assert(enc_str_items(ts) + rest =~= rest);
        assert(Seq::<Seq<char>>::empty() =~= ts);
    } else {
        let b = enc_str_items(ts) + rest;
        assert(b =~= enc_str(ts[0]) + (enc_str_items(ts.skip(1)) + rest));
        lemma_dec_str_prefix(ts[0], enc_str_items(ts.skip(1)) + rest);
        assert forall|i: int| 0 <= i < ts.skip(1).len() implies str_encodable(
            #[trigger] ts.skip(1)[i],
        ) by {
            assert(ts.skip(1)[i] == ts[i + 1]);
        }
        lemma_dec_str_items_prefix(ts.skip(1), rest);
        assert(seq![ts[0]] + ts.skip(1) =~= ts);
    }
}

pub proof fn lemma_dec_str_list_prefix(ts: Seq<Seq<char>>, rest: Seq<u8>)
    requires
        str_list_encodable(ts),
    ensures
        dec_str_list(enc_str_list(ts) + rest) == Some((ts, rest)),
{
    let n = ts.len() as u64;
    let b = enc_str_list(ts) + rest;
    assert(b =~= enc_u64(n) + (enc_str_items(ts) + rest));
    lemma_dec_u64_prefix(n, enc_str_items(ts) + rest);
    assert(n as nat == ts.len());
    lemma_dec_str_items_prefix(ts, rest);
}

proof fn lemma_app_assoc(a: Seq<u8>, b: Seq<u8>, c: Seq<u8>)
    ensures
        (a + b) + c == a + (b + c),
{
    assert((a + b) + c =~= a + (b + c));
}

#[verifier::rlimit(50)]
pub proof fn lemma_dec_pin_prefix(p: PinView, rest: Seq<u8>)
    requires
        pin_encodable(p),
    ensures
        dec_pin(enc_pin(p) + rest) == Some((p, rest)),
{
    let f1 = enc_str(p.url);
    let f2 = enc_str(p.title);
    let f3 = enc_str(p.tags);
    let f4 = enc_str(p.shared);
    let f5 = enc_str(p.toread);
    let f6 = enc_opt_str(p.extended);
    let f7 = enc_i64(p.time);
    let f8 = enc_opt_str(p.meta);
    let f9 = enc_opt_str(p.hash);
    let f10 = enc_str_list(p.tag_list);
    let p1 = f1;
    let p2 = p1 + f2;
    let p3 = p2 + f3;
    let p4 = p3 + f4;
    let p5 = p4 + f5;
    let p6 = p5 + f6;
    let p7 = p6 + f7;
    let p8 = p7 + f8;
    let p9 = p8 + f9;
    let p10 = p9 + f10;
    assert(enc_pin(p) == p10);
    let r9 = f10 + rest;
    let r8 = f9 + r9;
    let r7 = f8 + r8;
    let r6 = f7 + r7;
    let r5 = f6 + r6;
    let r4 = f5 + r5;
    let r3 = f4 + r4;
    let r2 = f3 + r3;
    let r1 = f2 + r2;
    lemma_app_assoc(p9, f10, rest);
    lemma_app_assoc(p8, f9, r9);
    lemma_app_assoc(p7, f8, r8);
    lemma_app_assoc(p6, f7, r7);
    lemma_app_assoc(p5, f6, r6);
    lemma_app_assoc(p4, f5, r5);
    lemma_app_assoc(p3, f4, r4);
    lemma_app_assoc(p2, f3, r3);
    lemma_app_assoc(p1, f2, r2);
    assert(enc_pin(p) + rest == f1 + r1);
    lemma_dec_str_prefix(p.url, r1);
    lemma_dec_str_prefix(p.title, r2);
    lemma_dec_str_prefix(p.tags, r3);
    lemma_dec_str_prefix(p.shared, r4);
    lemma_dec_str_prefix(p.toread, r5);
    lemma_dec_opt_str_prefix(p.extended, r6);
    lemma_dec_i64_prefix(p.time, r7);
    lemma_dec_opt_str_prefix(p.meta, r8);
    lemma_dec_opt_str_prefix(p.hash, r9);
    lemma_dec_str_list_prefix(p.tag_list, rest);
}

pub proof fn lemma_dec_pin_items_prefix(ps: Seq<PinView>, rest: Seq<u8>)
    requires
        forall|i: int| 0 <= i < ps.len() ==> pin_encodable(#[trigger] ps[i]),
    ensures
        dec_pin_items(enc_pin_items(ps) + rest, ps.len() as nat) == Some((ps, rest)),
    decreases ps.len(),
{
    if ps.len() == 0 {
        assert(enc_pin_items(ps) + rest =~= rest);
        assert(Seq::<PinView>::empty() =~= ps);
    } else {
        let b = enc_pin_items(ps) + rest;
        assert(b =~= enc_pin(ps[0]) + (enc_pin_items(ps.skip(1)) + rest));
        lemma_dec_pin_prefix(ps[0], enc_pin_items(ps.skip(1)) + rest);
        assert forall|i: int| 0 <= i < ps.skip(1).len() implies pin_encodable(
            #[trigger] ps.skip(1)[i],
        ) by {
            assert(ps.skip(1)[i] == ps[i + 1]);
        }
        lemma_dec_pin_items_prefix(ps.skip(1), rest);
        assert(seq![ps[0]] + ps.skip(1) =~= ps);
    }
}

pub proof fn lemma_dec_tag_prefix(t: (Seq<char>, u64), rest: Seq<u8>)
    requires
        tag_encodable(t),
    ensures
        dec_tag(enc_tag(t) + rest) == Some((t, rest)),
{
    let b = enc_tag(t) + rest;
    assert(b =~= enc_str(t.0) + (enc_u64(t.1) + rest));
    lemma_dec_str_prefix(t.0, enc_u64(t.1) + rest);
    lemma_dec_u64_prefix(t.1, rest);
}

pub proof fn lemma_dec_tag_items_prefix(ts: Seq<(Seq<char>, u64)>, rest: Seq<u8>)
    requires
        forall|i: int| 0 <= i < ts.len() ==> tag_encodable(#[trigger] ts[i]),
    ensures
        dec_tag_items(enc_tag_items(ts) + rest, ts.len() as nat) == Some((ts, rest)),
    decreases ts.len(),
{
    if ts.len() == 0 {
        assert(enc_tag_items(ts) + rest =~= rest);
        assert(Seq::<(Seq<char>, u64)>::empty() =~= ts);
    } else {
        let b = enc_tag_items(ts) + rest;
        assert(b =~= enc_tag(ts[0]) + (enc_tag_items(ts.skip(1)) + rest));
        lemma_dec_tag_prefix(ts[0], enc_tag_items(ts.skip(1)) + rest);
        assert forall|i: int| 0 <= i < ts.skip(1).len() implies tag_encodable(
            #[trigger] ts.skip(1)[i],
        ) by {
            assert(ts.skip(1)[i] == ts[i + 1]);
        }
        lemma_dec_tag_items_prefix(ts.skip(1), rest);
        assert(seq![ts[0]] + ts.skip(1) =~= ts);
    }
}

proof fn lemma_enc_str_items_push(ts: Seq<Seq<char>>, t: Seq<char>)
    ensures
        enc_str_items(ts.push(t)) == enc_str_items(ts) + enc_str(t),
    decreases ts.len(),
{
    let u = ts.push(t);
    if ts.len() == 0 {
        assert(u.len() == 1);
        assert(u[0] == t);
        assert(u.skip(1) =~= Seq::<Seq<char>>::empty());
        assert(enc_str_items(u.skip(1)) == Seq::<u8>::empty());
        assert(enc_str_items(u) == enc_str(t) + enc_str_items(u.skip(1)));
        assert(enc_str_items(ts) == Seq::<u8>::empty());
        assert(enc_str(t) + Seq::<u8>::empty() =~= Seq::<u8>::empty() + enc_str(t));
    } else {
        assert(u[0] == ts[0]);
        assert(u.skip(1) =~= ts.skip(1).push(t));
        lemma_enc_str_items_push(ts.skip(1), t);
        assert(enc_str_items(u) == enc_str(ts[0]) + (enc_str_items(ts.skip(1)) + enc_str(t)));
        lemma_app_assoc(enc_str(ts[0]), enc_str_items(ts.skip(1)), enc_str(t));
    }
}

proof fn lemma_enc_pin_items_push(ps: Seq<PinView>, p: PinView)
    ensures
        enc_pin_items(ps.push(p)) == enc_pin_items(ps) + enc_pin(p),
    decreases ps.len(),
{
    let u = ps.push(p);
    if ps.len() == 0 {
        assert(u.len() == 1);
        assert(u[0] == p);
        assert(u.skip(1) =~= Seq::<PinView>::empty());
        assert(enc_pin_items(u.skip(1)) == Seq::<u8>::empty());
        assert(enc_pin_items(u) == enc_pin(p) + enc_pin_items(u.skip(1)));
        assert(enc_pin_items(ps) == Seq::<u8>::empty());
        assert(enc_pin(p) + Seq::<u8>::empty() =~= Seq::<u8>::empty() + enc_pin(p));
    } else {
        assert(u[0] == ps[0]);
        assert(u.skip(1) =~= ps.skip(1).push(p));
        lemma_enc_pin_items_push(ps.skip(1), p);
        assert(enc_pin_items(u) == enc_pin(ps[0]) + (enc_pin_items(ps.skip(1)) + enc_pin(p)));
        lemma_app_assoc(enc_pin(ps[0]), enc_pin_items(ps.skip(1)), enc_pin(p));
    }
}

proof fn lemma_enc_tag_items_push(ts: Seq<(Seq<char>, u64)>, t: (Seq<char>, u64))
    ensures
        enc_tag_items(ts.push(t)) == enc_tag_items(ts) + enc_tag(t),
    decreases ts.len(),
{
    let u = ts.push(t);
    if ts.len() == 0 {
        assert(u.len() == 1);
        assert(u[0] == t);
        assert(u.skip(1) =~= Seq::<(Seq<char>, u64)>::empty());
        assert(enc_tag_items(u.skip(1)) == Seq::<u8>::empty());
        assert(enc_tag_items(u) == enc_tag(t) + enc_tag_items(u.skip(1)));
        assert(enc_tag_items(ts) == Seq::<u8>::empty());
        assert(enc_tag(t) + Seq::<u8>::empty() =~= Seq::<u8>::empty() + enc_tag(t));
    } else {
        assert(u[0] == ts[0]);
        assert(u.skip(1) =~= ts.skip(1).push(t));
        lemma_enc_tag_items_push(ts.skip(1), t);
        assert(enc_tag_items(u) == enc_tag(ts[0]) + (enc_tag_items(ts.skip(1)) + enc_tag(t)));
        lemma_app_assoc(enc_tag(ts[0]), enc_tag_items(ts.skip(1)), enc_tag(t));
    }
}

// ---------------------------------------------------------------------
// Exec encoding.
// ---------------------------------------------------------------------

fn write_u64(out: &mut Vec<u8>, v: u64)
    ensures
        final(out)@ == old(out)@ + enc_u64(v),
{
    let mut bytes = u64_to_le_bytes(v);
    out.append(&mut bytes);
}

fn write_i64(out: &mut Vec<u8>, v: i64)
    ensures
        final(out)@ == old(out)@ + enc_i64(v),
{
    write_u64(out, v as u64);
}

fn write_str(out: &mut Vec<u8>, s: &String)
    ensures
        final(out)@ == old(out)@ + enc_str(s@),
        str_encodable(s@),
{
    let mut payload = s.as_str().as_bytes_vec();
    let n = payload.len();
    write_u64(out, n as u64);
    out.append(&mut payload);
    proof {
        lemma_app_assoc(old(out)@, enc_u64(n as u64), encode_utf8(s@));
    }
}

fn write_opt_str(out: &mut Vec<u8>, o: &Option<String>)
    ensures
        final(out)@ == old(out)@ + enc_opt_str(o.deep_view()),
        opt_str_encodable(o.deep_view()),
{
    match o {
        None => {
            out.push(0u8);
            proof {
                assert(out@ =~= old(out)@ + enc_opt_str(o.deep_view()));
            }
        },
        Some(s) => {
            out.push(1u8);
            let ghost mid = out@;
            proof {
                assert(mid =~= old(out)@ + seq![1u8]);
            }
            write_str(out, s);
            proof {
                assert(out@ == (old(out)@ + seq![1u8]) + enc_str(s@));
                lemma_app_assoc(old(out)@, seq![1u8], enc_str(s@));
            }
        },
    }
}

fn write_str_list(out: &mut Vec<u8>, ts: &Vec<String>)
    ensures
        final(out)@ == old(out)@ + enc_str_list(ts.deep_view()),
        str_list_encodable(ts.deep_view()),
{
    write_u64(out, ts.len() as u64);
    let ghost start = out@;
    let mut i: usize = 0;
    proof {
        assert(start + enc_str_items(ts.deep_view().take(0)) =~= start);
    }
    while i < ts.len()
        invariant
            i <= ts@.len(),
            out@ == start + enc_str_items(ts.deep_view().take(i as int)),
            forall|k: int| 0 <= k < i ==> str_encodable(#[trigger] ts.deep_view()[k]),
        decreases ts@.len() - i,
    {
        let ghost prev = out@;
        write_str(out, &ts[i]);
        proof {
            let dv = ts.deep_view();
            assert(ts@[i as int]@ == dv[i as int]);
            assert(dv.take(i as int).push(dv[i as int]) =~= dv.take(i + 1));
            lemma_enc_str_items_push(dv.take(i as int), dv[i as int]);
            lemma_app_assoc(start, enc_str_items(dv.take(i as int)), enc_str(dv[i as int]));
        }
        i = i + 1;
    }
    proof {
        assert(ts.deep_view().take(ts@.len() as int) =~= ts.deep_view());
        lemma_app_assoc(old(out)@, enc_u64(ts@.len() as u64), enc_str_items(ts.deep_view()));
        assert(ts.deep_view().len() == ts@.len());
    }
}

fn write_pin(out: &mut Vec<u8>, p: &Pin)
    ensures
        final(out)@ == old(out)@ + enc_pin(p@),
        pin_encodable(p@),
{
    let ghost base = out@;
    write_str(out, &p.url);
    proof {
        lemma_app_assoc(base, enc_str(p@.url), enc_str(p@.title));
    }
    write_str(out, &p.title);
    proof {
        lemma_app_assoc(base, enc_str(p@.url) + enc_str(p@.title), enc_str(p@.tags));
    }
    write_str(out, &p.tags);
    proof {
        lemma_app_assoc(
            base,
            enc_str(p@.url) + enc_str(p@.title) + enc_str(p@.tags),
            enc_str(p@.shared),
        );
    }
    write_str(out, &p.shared);
    proof {
        lemma_app_assoc(
            base,
            enc_str(p@.url) + enc_str(p@.title) + enc_str(p@.tags) + enc_str(p@.shared),
            enc_str(p@.toread),
        );
    }
    write_str(out, &p.toread);
    proof {
        lemma_app_assoc(
            base,
            enc_str(p@.url) + enc_str(p@.title) + enc_str(p@.tags) + enc_str(p@.shared) + enc_str(
                p@.toread,
            ),
            enc_opt_str(p@.extended),
        );
    }
    write_opt_str(out, &p.extended);
    proof {
        lemma_app_assoc(
            base,
            enc_str(p@.url) + enc_str(p@.title) + enc_str(p@.tags) + enc_str(p@.shared) + enc_str(
                p@.toread,
            ) + enc_opt_str(p@.extended),
            enc_i64(p@.time),
        );
    }
    write_i64(out, p.time);
    proof {
        lemma_app_assoc(
            base,
            enc_str(p@.url) + enc_str(p@.title) + enc_str(p@.tags) + enc_str(p@.shared) + enc_str(
                p@.toread,
            ) + enc_opt_str(p@.extended) + enc_i64(p@.time),
            enc_opt_str(p@.meta),
        );
    }
    write_opt_str(out, &p.meta);
    proof {
        lemma_app_assoc(
            base,
            enc_str(p@.url) + enc_str(p@.title) + enc_str(p@.tags) + enc_str(p@.shared) + enc_str(
                p@.toread,
            ) + enc_opt_str(p@.extended) + enc_i64(p@.time) + enc_opt_str(p@.meta),
            enc_opt_str(p@.hash),
        );
    }
    write_opt_str(out, &p.hash);
    proof {
        lemma_app_assoc(
            base,
            enc_str(p@.url) + enc_str(p@.title) + enc_str(p@.tags) + enc_str(p@.shared) + enc_str(
                p@.toread,
            ) + enc_opt_str(p@.extended) + enc_i64(p@.time) + enc_opt_str(p@.meta) + enc_opt_str(
                p@.hash,
            ),
            enc_str_list(p@.tag_list),
        );
    }
    write_str_list(out, &p.tag_list);
}

fn write_tag(out: &mut Vec<u8>, t: &Tag)
    ensures
        final(out)@ == old(out)@ + enc_tag(t@),
        tag_encodable(t@),
{
    let ghost base = out@;
    write_str(out, &t.0);
    proof {
        lemma_app_assoc(base, enc_str(t@.0), enc_u64(t@.1));
    }
    write_u64(out, t.1);
}

/// Encodes the bookmark collection for the snapshot store.
pub fn encode_pins(ps: &Vec<Pin>) -> (r: Vec<u8>)
    ensures
        r@ == enc_pins(ps.deep_view()),
        pins_encodable(ps.deep_view()),
{
    let mut out: Vec<u8> = Vec::new();
    write_u64(&mut out, ps.len() as u64);
    let ghost start = out@;
    let mut i: usize = 0;
    proof {
        assert(start + enc_pin_items(ps.deep_view().take(0)) =~= start);
    }
    while i < ps.len()
        invariant
            i <= ps@.len(),
            out@ == start + enc_pin_items(ps.deep_view().take(i as int)),
            forall|k: int| 0 <= k < i ==> pin_encodable(#[trigger] ps.deep_view()[k]),
        decreases ps@.len() - i,
    {
        write_pin(&mut out, &ps[i]);
        proof {
            let dv = ps.deep_view();
            assert(ps@[i as int]@ == dv[i as int]);
            assert(dv.take(i as int).push(dv[i as int]) =~= dv.take(i + 1));
            lemma_enc_pin_items_push(dv.take(i as int), dv[i as int]);
            lemma_app_assoc(start, enc_pin_items(dv.take(i as int)), enc_pin(dv[i as int]));
        }
        i = i + 1;
    }
    proof {
        assert(ps.deep_view().take(ps@.len() as int) =~= ps.deep_view());
        assert(start =~= Seq::<u8>::empty() + enc_u64(ps@.len() as u64));
        assert(Seq::<u8>::empty() + enc_u64(ps@.len() as u64) =~= enc_u64(ps@.len() as u64));
        assert(ps.deep_view().len() == ps@.len());
    }
    out
}

/// Encodes the tag collection for the snapshot store.
pub fn encode_tags(ts: &Vec<Tag>) -> (r: Vec<u8>)
    ensures
        r@ == enc_tags(ts.deep_view()),
        tags_encodable(ts.deep_view()),
{
    let mut out: Vec<u8> = Vec::new();
    write_u64(&mut out, ts.len() as u64);
    let ghost start = out@;
    let mut i: usize = 0;
    proof {
        assert(start + enc_tag_items(ts.deep_view().take(0)) =~= start);
    }
    while i < ts.len()
        invariant
            i <= ts@.len(),
            out@ == start + enc_tag_items(ts.deep_view().take(i as int)),
            forall|k: int| 0 <= k < i ==> tag_encodable(#[trigger] ts.deep_view()[k]),
        decreases ts@.len() - i,
    {
        write_tag(&mut out, &ts[i]);
        proof {
            let dv = ts.deep_view();
            assert(ts@[i as int]@ == dv[i as int]);
            assert(dv.take(i as int).push(dv[i as int]) =~= dv.take(i + 1));
            lemma_enc_tag_items_push(dv.take(i as int), dv[i as int]);
            lemma_app_assoc(start, enc_tag_items(dv.take(i as int)), enc_tag(dv[i as int]));
        }
        i = i + 1;
    }
    proof {
        assert(ts.deep_view().take(ts@.len() as int) =~= ts.deep_view());
        assert(start =~= Seq::<u8>::empty() + enc_u64(ts@.len() as u64));
        assert(Seq::<u8>::empty() + enc_u64(ts@.len() as u64) =~= enc_u64(ts@.len() as u64));
        assert(ts.deep_view().len() == ts@.len());
    }
    out
}

// ---------------------------------------------------------------------
// Exec decoding.
// ---------------------------------------------------------------------

/// Relies on String::from_utf8: the string whose UTF-8 encoding is exactly
/// these bytes, when they are valid UTF-8; nothing otherwise.
#[verifier::external_body]
fn string_from_utf8(v: Vec<u8>) -> (r: Option<String>)
    ensures
        r is Some <==> valid_utf8(v@),
        r matches Some(s) ==> encode_utf8(s@) == v@,
{
    String::from_utf8(v).ok()
}

fn read_u64(b: &Vec<u8>, pos: usize) -> (r: Option<(u64, usize)>)
    requires
        pos <= b@.len(),
    ensures
        r matches Some((v, p2)) ==> pos <= p2 <= b@.len() && dec_u64(b@.skip(pos as int)) == Some(
            (v, b@.skip(p2 as int)),
        ),
        r is None ==> dec_u64(b@.skip(pos as int)) is None,
{
    if b.len() - pos >= 8 {
        let s = slice_subrange(b.as_slice(), pos, pos + 8);
        let v = u64_from_le_bytes(s);
        proof {
            assert(b@.skip(pos as int).take(8) =~= b@.subrange(pos as int, pos + 8));
            assert(b@.skip(pos as int).skip(8) =~= b@.skip(pos + 8));
        }
        Some((v, pos + 8))
    } else {
        None
    }
}

fn read_i64(b: &Vec<u8>, pos: usize) -> (r: Option<(i64, usize)>)
    requires
        pos <= b@.len(),
    ensures
        r matches Some((v, p2)) ==> pos <= p2 <= b@.len() && dec_i64(b@.skip(pos as int)) == Some(
            (v, b@.skip(p2 as int)),
        ),
        r is None ==> dec_i64(b@.skip(pos as int)) is None,
{
    match read_u64(b, pos) {
        Some((v, p2)) => Some((v as i64, p2)),
        None => None,
    }
}

fn read_str(b: &Vec<u8>, pos: usize) -> (r: Option<(String, usize)>)
    requires
        pos <= b@.len(),
    ensures
        r matches Some((s, p2)) ==> pos <= p2 <= b@.len() && dec_str(b@.skip(pos as int)) == Some(
            (s@, b@.skip(p2 as int)),
        ),
        r is None ==> dec_str(b@.skip(pos as int)) is None,
{
    match read_u64(b, pos) {
        None => None,
        Some((n, p1)) => {
            let avail = b.len() - p1;
            if n > avail as u64 {
                proof {
                    assert(b@.skip(p1 as int).len() == avail);
                }
                None
            } else {
                let n_us = n as usize;
                let payload = slice_to_vec(slice_subrange(b.as_slice(), p1, p1 + n_us));
                proof {
                    assert(payload@ =~= b@.skip(p1 as int).take(n as int));
                }
                match string_from_utf8(payload) {
                    None => None,
                    Some(s) => {
                        proof {
                            assert(decode_utf8(encode_utf8(s@)) == s@);
                            assert(b@.skip(p1 as int).skip(n as int) =~= b@.skip(p1 + n_us));
                        }
                        Some((s, p1 + n_us))
                    },
                }
            }
        },
    }
}

fn read_opt_str(b: &Vec<u8>, pos: usize) -> (r: Option<(Option<String>, usize)>)
    requires
        pos <= b@.len(),
    ensures
        r matches Some((o, p2)) ==> pos <= p2 <= b@.len() && dec_opt_str(b@.skip(pos as int))
            == Some((o.deep_view(), b@.skip(p2 as int))),
        r is None ==> dec_opt_str(b@.skip(pos as int)) is None,
{
    if pos == b.len() {
        return None;
    }
    let tag = b[pos];
    proof {
        assert(b@.skip(pos as int)[0] == b@[pos as int]);
        assert(b@.skip(pos as int).skip(1) =~= b@.skip(pos + 1));
    }
    if tag == 0 {
        Some((None, pos + 1))
    } else if tag == 1 {
        match read_str(b, pos + 1) {
            Some((s, p2)) => Some((Some(s), p2)),
            None => None,
        }
    } else {
        None
    }
}

/// Composes an already-read prefix with the outcome of reading the
/// remaining items.
pub open spec fn str_items_then(prefix: Seq<Seq<char>>, r: Option<(Seq<Seq<char>>, Seq<u8>)>) -> Option<
    (Seq<Seq<char>>, Seq<u8>),
> {
    match r {
        Some((l, rest)) => Some((prefix + l, rest)),
        None => None,
    }
}

#[verifier::rlimit(60)]
fn read_str_list(b: &Vec<u8>, pos: usize) -> (r: Option<(Vec<String>, usize)>)
    requires
        pos <= b@.len(),
    ensures
        r matches Some((ts, p2)) ==> pos <= p2 <= b@.len() && dec_str_list(b@.skip(pos as int))
            == Some((ts.deep_view(), b@.skip(p2 as int))),
        r is None ==> dec_str_list(b@.skip(pos as int)) is None,
{
    let (n, start) = match read_u64(b, pos) {
        Some(x) => x,
        None => {
            return None;
        },
    };
    let mut acc: Vec<String> = Vec::new();
    let mut cur = start;
    let mut i: u64 = 0;
    proof {
        assert(acc.deep_view() + Seq::<Seq<char>>::empty() =~= acc.deep_view());
        assert(acc.deep_view() =~= Seq::<Seq<char>>::empty());
        assert(str_items_then(acc.deep_view(), dec_str_items(b@.skip(start as int), n as nat))
            =~= dec_str_items(b@.skip(start as int), n as nat));
    }
    while i < n
        invariant
            i <= n,
            pos <= start <= cur <= b@.len(),
            dec_u64(b@.skip(pos as int)) == Some((n, b@.skip(start as int))),
            acc@.len() == i,
            dec_str_items(b@.skip(start as int), n as nat) == str_items_then(
                acc.deep_view(),
                dec_str_items(b@.skip(cur as int), (n - i) as nat),
            ),
        decreases n - i,
    {
        let (s, p2) = match read_str(b, cur) {
            Some(x) => x,
            None => {
                return None;
            },
        };
        let ghost prevd = acc.deep_view();
        let ghost prevv = acc@;
        let ghost sv = s@;
        acc.push(s);
        proof {
            assert forall|k: int| 0 <= k < acc@.len() implies acc.deep_view()[k] == prevd.push(
                sv,
            )[k] by {
                if k < prevv.len() {
                    assert(acc@[k] == prevv[k]);
                    assert(acc.deep_view()[k] == acc@[k].deep_view());
                    assert(prevd[k] == prevv[k].deep_view());
                } else {
                    assert(acc@[k]@ == sv);
                }
            }
            assert(acc.deep_view() =~= prevd.push(sv));
            let inner = dec_str_items(b@.skip(p2 as int), (n - i - 1) as nat);
            match inner {
                Some((l, rest)) => {
                    assert(prevd + (seq![sv] + l) =~= prevd.push(sv) + l);
                },
                None => {},
            }
        }
        cur = p2;
        i = i + 1;
    }
    proof {
        assert(dec_str_items(b@.skip(cur as int), 0) == Some(
            (Seq::<Seq<char>>::empty(), b@.skip(cur as int)),
        ));
        assert(acc.deep_view() + Seq::<Seq<char>>::empty() =~= acc.deep_view());
    }
    Some((acc, cur))
}

fn read_pin(b: &Vec<u8>, pos: usize) -> (r: Option<(Pin, usize)>)
    requires
        pos <= b@.len(),
    ensures
        r matches Some((p, p2)) ==> pos <= p2 <= b@.len() && dec_pin(b@.skip(pos as int)) == Some(
            (p@, b@.skip(p2 as int)),
        ),
        r is None ==> dec_pin(b@.skip(pos as int)) is None,
{
    let (url, c1) = match read_str(b, pos) {
        Some(x) => x,
        None => {
            return None;
        },
    };
    let (title, c2) = match read_str(b, c1) {
        Some(x) => x,
        None => {
            return None;
        },
    };
    let (tags, c3) = match read_str(b, c2) {
        Some(x) => x,
        None => {
            return None;
        },
    };
    let (shared, c4) = match read_str(b, c3) {
        Some(x) => x,
        None => {
            return None;
        },
    };
    let (toread, c5) = match read_str(b, c4) {
        Some(x) => x,
        None => {
            return None;
        },
    };
    let (extended, c6) = match read_opt_str(b, c5) {
        Some(x) => x,
        None => {
            return None;
        },
    };
    let (time, c7) = match read_i64(b, c6) {
        Some(x) => x,
        None => {
            return None;
        },
    };
    let (meta, c8) = match read_opt_str(b, c7) {
        Some(x) => x,
        None => {
            return None;
        },
    };
    let (hash, c9) = match read_opt_str(b, c8) {
        Some(x) => x,
        None => {
            return None;
        },
    };
    let (tag_list, c10) = match read_str_list(b, c9) {
        Some(x) => x,
        None => {
            return None;
        },
    };
    Some((Pin { url, title, tags, shared, toread, extended, time, meta, hash, tag_list }, c10))
}

/// Composes an already-read prefix with the outcome of reading the
/// remaining bookmarks.
pub open spec fn pin_items_then(prefix: Seq<PinView>, r: Option<(Seq<PinView>, Seq<u8>)>) -> Option<
    (Seq<PinView>, Seq<u8>),
> {
    match r {
        Some((l, rest)) => Some((prefix + l, rest)),
        None => None,
    }
}

#[verifier::rlimit(60)]
fn read_pins(b: &Vec<u8>, pos: usize) -> (r: Option<(Vec<Pin>, usize)>)
    requires
        pos <= b@.len(),
    ensures
        r matches Some((ps, p2)) ==> pos <= p2 <= b@.len() && dec_pins(b@.skip(pos as int))
            == Some((ps.deep_view(), b@.skip(p2 as int))),
        r is None ==> dec_pins(b@.skip(pos as int)) is None,
{
    let (n, start) = match read_u64(b, pos) {
        Some(x) => x,
        None => {
            return None;
        },
    };
    let mut acc: Vec<Pin> = Vec::new();
    let mut cur = start;
    let mut i: u64 = 0;
    proof {
        assert(acc.deep_view() =~= Seq::<PinView>::empty());
        assert(pin_items_then(acc.deep_view(), dec_pin_items(b@.skip(start as int), n as nat))
            =~= dec_pin_items(b@.skip(start as int), n as nat));
    }
    while i < n
        invariant
            i <= n,
            pos <= start <= cur <= b@.len(),
            dec_u64(b@.skip(pos as int)) == Some((n, b@.skip(start as int))),
            acc@.len() == i,
            dec_pin_items(b@.skip(start as int), n as nat) == pin_items_then(
                acc.deep_view(),
                dec_pin_items(b@.skip(cur as int), (n - i) as nat),
            ),
        decreases n - i,
    {
        let (p, p2) = match read_pin(b, cur) {
            Some(x) => x,
            None => {
                return None;
            },
        };
        let ghost prevd = acc.deep_view();
        let ghost prevv = acc@;
        let ghost pv = p@;
        acc.push(p);
        proof {
            assert forall|k: int| 0 <= k < acc@.len() implies acc.deep_view()[k] == prevd.push(
                pv,
            )[k] by {
                if k < prevv.len() {
                    assert(acc@[k] == prevv[k]);
                    assert(acc.deep_view()[k] == acc@[k].deep_view());
                    assert(prevd[k] == prevv[k].deep_view());
                } else {
                    assert(acc@[k]@ == pv);
                }
            }
            assert(acc.deep_view() =~= prevd.push(pv));
            let inner = dec_pin_items(b@.skip(p2 as int), (n - i - 1) as nat);
            match inner {
                Some((l, rest)) => {
                    assert(prevd + (seq![pv] + l) =~= prevd.push(pv) + l);
                },
                None => {},
            }
        }
        cur = p2;
        i = i + 1;
    }
    proof {
        assert(dec_pin_items(b@.skip(cur as int), 0) == Some(
            (Seq::<PinView>::empty(), b@.skip(cur as int)),
        ));
        assert(acc.deep_view() + Seq::<PinView>::empty() =~= acc.deep_view());
    }
    Some((acc, cur))
}

fn read_tag(b: &Vec<u8>, pos: usize) -> (r: Option<(Tag, usize)>)
    requires
        pos <= b@.len(),
    ensures
        r matches Some((t, p2)) ==> pos <= p2 <= b@.len() && dec_tag(b@.skip(pos as int)) == Some(
            (t@, b@.skip(p2 as int)),
        ),
        r is None ==> dec_tag(b@.skip(pos as int)) is None,
{
    let (name, c1) = match read_str(b, pos) {
        Some(x) => x,
        None => {
            return None;
        },
    };
    let (freq, c2) = match read_u64(b, c1) {
        Some(x) => x,
        None => {
            return None;
        },
    };
    Some((Tag(name, freq), c2))
}

/// Composes an already-read prefix with the outcome of reading the
/// remaining tags.
pub open spec fn tag_items_then(
    prefix: Seq<(Seq<char>, u64)>,
    r: Option<(Seq<(Seq<char>, u64)>, Seq<u8>)>,
) -> Option<(Seq<(Seq<char>, u64)>, Seq<u8>)> {
    match r {
        Some((l, rest)) => Some((prefix + l, rest)),
        None => None,
    }
}

#[verifier::rlimit(60)]
fn read_tags(b: &Vec<u8>, pos: usize) -> (r: Option<(Vec<Tag>, usize)>)
    requires
        pos <= b@.len(),
    ensures
        r matches Some((ts, p2)) ==> pos <= p2 <= b@.len() && dec_tags(b@.skip(pos as int))
            == Some((ts.deep_view(), b@.skip(p2 as int))),
        r is None ==> dec_tags(b@.skip(pos as int)) is None,
{
    let (n, start) = match read_u64(b, pos) {
        Some(x) => x,
        None => {
            return None;
        },
    };
    let mut acc: Vec<Tag> = Vec::new();
    let mut cur = start;
    let mut i: u64 = 0;
    proof {
        assert(acc.deep_view() =~= Seq::<(Seq<char>, u64)>::empty());
        assert(tag_items_then(acc.deep_view(), dec_tag_items(b@.skip(start as int), n as nat))
            =~= dec_tag_items(b@.skip(start as int), n as nat));
    }
    while i < n
        invariant
            i <= n,
            pos <= start <= cur <= b@.len(),
            dec_u64(b@.skip(pos as int)) == Some((n, b@.skip(start as int))),
            acc@.len() == i,
            dec_tag_items(b@.skip(start as int), n as nat) == tag_items_then(
                acc.deep_view(),
                dec_tag_items(b@.skip(cur as int), (n - i) as nat),
            ),
        decreases n - i,
    {
        let (t, p2) = match read_tag(b, cur) {
            Some(x) => x,
            None => {
                return None;
            },
        };
        let ghost prevd = acc.deep_view();
        let ghost prevv = acc@;
        let ghost tv = t@;
        acc.push(t);
        proof {
            assert forall|k: int| 0 <= k < acc@.len() implies acc.deep_view()[k] == prevd.push(
                tv,
            )[k] by {
                if k < prevv.len() {
                    assert(acc@[k] == prevv[k]);
                    assert(acc.deep_view()[k] == acc@[k].deep_view());
                    assert(prevd[k] == prevv[k].deep_view());
                } else {
                    assert(acc@[k]@ == tv);
                }
            }
            assert(acc.deep_view() =~= prevd.push(tv));
            let inner = dec_tag_items(b@.skip(p2 as int), (n - i - 1) as nat);
            match inner {
                Some((l, rest)) => {
                    assert(prevd + (seq![tv] + l) =~= prevd.push(tv) + l);
                },
                None => {},
            }
        }
        cur = p2;
        i = i + 1;
    }
    proof {
        assert(dec_tag_items(b@.skip(cur as int), 0) == Some(
            (Seq::<(Seq<char>, u64)>::empty(), b@.skip(cur as int)),
        ));
        assert(acc.deep_view() + Seq::<(Seq<char>, u64)>::empty() =~= acc.deep_view());
    }
    Some((acc, cur))
}

/// Decodes a bookmark snapshot file. The whole input must be one encoded
/// collection; trailing bytes or any malformed field mean corruption, and
/// nothing is returned.
pub fn decode_pins(b: &Vec<u8>) -> (r: Option<Vec<Pin>>)
    ensures
        r matches Some(ps) ==> pins_of_bytes(b@) == Some(ps.deep_view()),
        r is None ==> pins_of_bytes(b@) is None,
{
    proof {
        assert(b@.skip(0) =~= b@);
    }
    match read_pins(b, 0) {
        None => None,
        Some((ps, p2)) => {
            if p2 == b.len() {
                proof {
                    assert(b@.skip(p2 as int).len() == 0);
                }
                Some(ps)
            } else {
                proof {
                    assert(b@.skip(p2 as int).len() > 0);
                }
                None
            }
        },
    }
}

/// Decodes a tag snapshot file, under the same rules as `decode_pins`.
pub fn decode_tags(b: &Vec<u8>) -> (r: Option<Vec<Tag>>)
    ensures
        r matches Some(ts) ==> tags_of_bytes(b@) == Some(ts.deep_view()),
        r is None ==> tags_of_bytes(b@) is None,
{
    proof {
        assert(b@.skip(0) =~= b@);
    }
    match read_tags(b, 0) {
        None => None,
        Some((ts, p2)) => {
            if p2 == b.len() {
                proof {
                    assert(b@.skip(p2 as int).len() == 0);
                }
                Some(ts)
            } else {
                proof {
                    assert(b@.skip(p2 as int).len() > 0);
                }
                None
            }
        },
    }
}

/// The snapshot round trip for bookmarks: storing a collection and loading
/// it back yields the identical collection.
pub proof fn lemma_pins_round_trip(ps: Seq<PinView>)
    requires
        pins_encodable(ps),
    ensures
        pins_of_bytes(enc_pins(ps)) == Some(ps),
{
    let n = ps.len() as u64;
    let empty = Seq::<u8>::empty();
    assert(enc_pins(ps) =~= enc_u64(n) + (enc_pin_items(ps) + empty));
    lemma_dec_u64_prefix(n, enc_pin_items(ps) + empty);
    assert(n as nat == ps.len());
    lemma_dec_pin_items_prefix(ps, empty);
}

/// The snapshot round trip for tags: storing a collection and loading it
/// back yields the identical collection.
pub proof fn lemma_tags_round_trip(ts: Seq<(Seq<char>, u64)>)
    requires
        tags_encodable(ts),
    ensures
        tags_of_bytes(enc_tags(ts)) == Some(ts),
{
    let n = ts.len() as u64;
    let empty = Seq::<u8>::empty();
    assert(enc_tags(ts) =~= enc_u64(n) + (enc_tag_items(ts) + empty));
    lemma_dec_u64_prefix(n, enc_tag_items(ts) + empty);
    assert(n as nat == ts.len());
    lemma_dec_tag_items_prefix(ts, empty);
}

} // verus!
