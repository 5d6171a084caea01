//! Buffer codec: packs a logical user record into, and recovers it from, a
//! fixed-capacity storage slot.
//!
//! Slot layout: bytes `[0..4)` hold a little-endian unsigned 32-bit length
//! `L`; bytes `[4..4+L)` hold the serialized record (one `online` byte, then
//! a count-prefixed list of key/value byte-string pairs, each byte string
//! length-prefixed the same way); everything past `4+L` is stale and never
//! interpreted. A slot whose payload region does not parse yields the
//! default record, so a never-written (all-zero) slot reads as "offline,
//! no friends".

use vstd::prelude::*;
use vstd::pervasive::VecAdditionalExecFns;
use vstd::arithmetic::div_mod::{
    lemma_div_denominator, lemma_fundamental_div_mod, lemma_fundamental_div_mod_converse,
    lemma_small_mod,
};

use crate::error::SolanaDAppError;
use crate::state::{pairs_view, bytes_eq, User, UserView};

verus! {

/// Fixed physical capacity of a storage slot, in bytes.
pub const USER_STATE_DATA_MAX_LEN: usize = 1000000;

/// Largest serialized record that fits beside the 4-byte length prefix.
pub const MAX_PAYLOAD_LEN: usize = USER_STATE_DATA_MAX_LEN - 4;

/// The four bytes of `n` modulo 2^32, least significant first.
pub open spec fn le32(n: int) -> Seq<u8> {
    seq![
        (n % 256) as u8,
        ((n / 256) % 256) as u8,
        ((n / 65536) % 256) as u8,
        ((n / 16777216) % 256) as u8,
    ]
}

/// The value encoded by four little-endian bytes.
pub open spec fn le32_val(s: Seq<u8>) -> int {
    s[0] as int + s[1] as int * 256 + s[2] as int * 65536 + s[3] as int * 16777216
}

pub proof fn lemma_le32_val_of_le32(n: int)
    requires
        0 <= n < 0x1_0000_0000,
    ensures
        le32(n).len() == 4,
        le32_val(le32(n)) == n,
{
    lemma_fundamental_div_mod(n, 256);
    lemma_fundamental_div_mod(n / 256, 256);
    lemma_div_denominator(n, 256, 256);
    lemma_fundamental_div_mod(n / 65536, 256);
    lemma_div_denominator(n, 65536, 256);
    assert(n / 16777216 <= 4294967295int / 16777216) by {
        vstd::arithmetic::div_mod::lemma_div_is_ordered(n, 4294967295int, 16777216);
    }
    assert(4294967295int / 16777216 == 255);
    assert(n / 16777216 >= 0) by {
        vstd::arithmetic::div_mod::lemma_div_pos_is_pos(n, 16777216);
    }
    lemma_small_mod((n / 16777216) as nat, 256);
}

pub proof fn lemma_le32_of_le32_val(s: Seq<u8>)
    requires
        s.len() == 4,
    ensures
        0 <= le32_val(s) < 0x1_0000_0000,
        le32(le32_val(s)) == s,
{
    let a = s[0] as int;
    let b = s[1] as int;
    let c = s[2] as int;
    let d = s[3] as int;
    let n = le32_val(s);
    lemma_fundamental_div_mod_converse(n, 256, b + 256 * c + 65536 * d, a);
    lemma_fundamental_div_mod_converse(n / 256, 256, c + 256 * d, b);
    lemma_div_denominator(n, 256, 256);
    lemma_fundamental_div_mod_converse(n / 65536, 256, d, c);
    lemma_div_denominator(n, 65536, 256);
    lemma_small_mod(d as nat, 256);
    assert(le32(n) =~= s);
}

/// Reads the little-endian 32-bit value stored at `bytes[i..i+4)`.
pub fn read_le32(bytes: &Vec<u8>, i: usize) -> (r: u32)
    requires
        i + 4 <= bytes@.len(),
    ensures
        r as int == le32_val(bytes@.subrange(i as int, i as int + 4)),
        0 <= le32_val(bytes@.subrange(i as int, i as int + 4)) < 0x1_0000_0000,
{
    let n = bytes.len();
    let b0 = bytes[i] as u32;
    let b1 = bytes[i + 1] as u32;
    let b2 = bytes[i + 2] as u32;
    let b3 = bytes[i + 3] as u32;
    let r = b0 + b1 * 256 + b2 * 65536 + b3 * 16777216;
    proof {
        let s = bytes@.subrange(i as int, i as int + 4);
        assert(s[0] == bytes@[i as int]);
        assert(s[1] == bytes@[i as int + 1]);
        assert(s[2] == bytes@[i as int + 2]);
        assert(s[3] == bytes@[i as int + 3]);
    }
    r
}

/// Serialized form of one friend entry: length-prefixed key, then
/// length-prefixed annotation.
pub open spec fn encode_pair(p: (Seq<u8>, Seq<u8>)) -> Seq<u8> {
    le32(p.0.len() as int) + p.0 + le32(p.1.len() as int) + p.1
}

/// Serialized form of a friend list: the entries in order.
pub open spec fn encode_pairs(fs: Seq<(Seq<u8>, Seq<u8>)>) -> Seq<u8>
    decreases fs.len(),
{
    if fs.len() == 0 {
        Seq::empty()
    } else {
        encode_pair(fs[0]) + encode_pairs(fs.drop_first())
    }
}

/// Serialized form of a whole record: the online byte, the entry count,
/// then the entries.
pub open spec fn encode_record(r: UserView) -> Seq<u8> {
    seq![r.online] + le32(r.friends.len() as int) + encode_pairs(r.friends)
}

/// Every count and length of the record fits the 32-bit prefixes, so the
/// serialized form decodes back to the record.
pub open spec fn encodable(r: UserView) -> bool {
    &&& r.friends.len() < 0x1_0000_0000
    &&& forall|i: int|
        0 <= i < r.friends.len() ==> (#[trigger] r.friends[i]).0.len() < 0x1_0000_0000
            && r.friends[i].1.len() < 0x1_0000_0000
}

/// Parses one friend entry off the front of `t`; returns it with the
/// remaining bytes.
pub open spec fn parse_pair(t: Seq<u8>) -> Option<((Seq<u8>, Seq<u8>), Seq<u8>)> {
    if t.len() < 4 {
        None
    } else {
        let kl = le32_val(t.subrange(0, 4));
        if t.len() < 4 + kl {
            None
        } else {
            let key = t.subrange(4, 4 + kl);
            let t2 = t.skip(4 + kl);
            if t2.len() < 4 {
                None
            } else {
                let vl = le32_val(t2.subrange(0, 4));
                if t2.len() < 4 + vl {
                    None
                } else {
                    Some(((key, t2.subrange(4, 4 + vl)), t2.skip(4 + vl)))
                }
            }
        }
    }
}

/// Parses `n` friend entries off the front of `t`.
pub open spec fn parse_pairs(t: Seq<u8>, n: nat) -> Option<(Seq<(Seq<u8>, Seq<u8>)>, Seq<u8>)>
    decreases n,
{
    if n == 0 {
        Some((Seq::empty(), t))
    } else {
        match parse_pair(t) {
            None => None,
            Some((p, rest)) => match parse_pairs(rest, (n - 1) as nat) {
                None => None,
                Some((ps, rest2)) => Some((seq![p] + ps, rest2)),
            },
        }
    }
}

/// Keys of a parsed friend list are pairwise distinct.
pub open spec fn keys_unique(fs: Seq<(Seq<u8>, Seq<u8>)>) -> bool {
    forall|i: int, j: int| 0 <= i < j < fs.len() ==> fs[i].0 != fs[j].0
}

/// Deserializes a record payload. Succeeds exactly on the serialized form
/// of a well-formed record, consuming every byte.
pub open spec fn decode_record(s: Seq<u8>) -> Option<UserView> {
    if s.len() < 5 {
        None
    } else {
        let online = s[0];
        let n = le32_val(s.subrange(1, 5));
        match parse_pairs(s.skip(5), n as nat) {
            None => None,
            Some((fs, rest)) => if rest.len() == 0 && keys_unique(fs) {
                Some(UserView { online, friends: fs })
            } else {
                None
            },
        }
    }
}

/// A slot's logical record: the payload span named by the length prefix,
/// decoded, with any failure absorbed into the default record.
pub open spec fn decode_slot(s: Seq<u8>) -> UserView {
    if s.len() < 4 {
        UserView::default_spec()
    } else {
        let l = le32_val(s.subrange(0, 4));
        if 4 + l <= s.len() {
            match decode_record(s.subrange(4, 4 + l)) {
                Some(r) => r,
                None => UserView::default_spec(),
            }
        } else {
            UserView::default_spec()
        }
    }
}

/// A slot after a record is written back: new length prefix and payload,
/// stale bytes beyond them untouched.
pub open spec fn write_slot(s: Seq<u8>, r: UserView) -> Seq<u8> {
    let payload = encode_record(r);
    le32(payload.len() as int) + payload + s.skip(4 + payload.len() as int)
}

/// Parsing inverts serialization for one entry, whatever follows it.
pub proof fn lemma_parse_pair_complete(p: (Seq<u8>, Seq<u8>), rest: Seq<u8>)
    requires
        p.0.len() < 0x1_0000_0000,
        p.1.len() < 0x1_0000_0000,
    ensures
        parse_pair(encode_pair(p) + rest) == Some::<((Seq<u8>, Seq<u8>), Seq<u8>)>((p, rest)),
{
    let t = encode_pair(p) + rest;
    let kl = p.0.len() as int;
    let vl = p.1.len() as int;
    lemma_le32_val_of_le32(kl);
    lemma_le32_val_of_le32(vl);
    assert(t.subrange(0, 4) =~= le32(kl));
    assert(t.len() >= 4 + kl);
    assert(t.subrange(4, 4 + kl) =~= p.0);
    let t2 = t.skip(4 + kl);
    assert(t2 =~= le32(vl) + p.1 + rest);
    assert(t2.subrange(0, 4) =~= le32(vl));
    assert(t2.subrange(4, 4 + vl) =~= p.1);
    assert(t2.skip(4 + vl) =~= rest);
}

/// Parsing inverts serialization for an entry list, whatever follows it.
#[verifier::rlimit(50)]
pub proof fn lemma_parse_pairs_complete(fs: Seq<(Seq<u8>, Seq<u8>)>, rest: Seq<u8>)
    requires
        forall|i: int|
            0 <= i < fs.len() ==> (#[trigger] fs[i]).0.len() < 0x1_0000_0000 && fs[i].1.len()
                < 0x1_0000_0000,
    ensures
        parse_pairs(encode_pairs(fs) + rest, fs.len()) == Some::<
            (Seq<(Seq<u8>, Seq<u8>)>, Seq<u8>),
        >((fs, rest)),
    decreases fs.len(),
{
    if fs.len() == 0 {
        assert(encode_pairs(fs) + rest =~= rest);
        assert(fs =~= Seq::<(Seq<u8>, Seq<u8>)>::empty());
    } else {
        let tail = fs.drop_first();
        assert(encode_pairs(fs) + rest =~= encode_pair(fs[0]) + (encode_pairs(tail) + rest));
        lemma_parse_pair_complete(fs[0], encode_pairs(tail) + rest);
        lemma_parse_pairs_complete(tail, rest);
        assert(seq![fs[0]] + tail =~= fs);
    }
}

/// Serialization inverts parsing for one entry.
pub proof fn lemma_parse_pair_sound(t: Seq<u8>)
    requires
        parse_pair(t) is Some,
    ensures
        ({
            let (p, rest) = parse_pair(t)->Some_0;
            &&& t == encode_pair(p) + rest
            &&& p.0.len() < 0x1_0000_0000
            &&& p.1.len() < 0x1_0000_0000
            &&& rest.len() < t.len()
        }),
{
    let (p, rest) = parse_pair(t)->Some_0;
    let kl = le32_val(t.subrange(0, 4));
    lemma_le32_of_le32_val(t.subrange(0, 4));
    let t2 = t.skip(4 + kl);
    let vl = le32_val(t2.subrange(0, 4));
    lemma_le32_of_le32_val(t2.subrange(0, 4));
    assert(t =~= encode_pair(p) + rest);
}

/// Serialization inverts parsing for an entry list.
#[verifier::rlimit(50)]
pub proof fn lemma_parse_pairs_sound(t: Seq<u8>, n: nat)
    requires
        parse_pairs(t, n) is Some,
    ensures
        ({
            let (fs, rest) = parse_pairs(t, n)->Some_0;
            &&& fs.len() == n
            &&& t == encode_pairs(fs) + rest
            &&& forall|i: int|
                0 <= i < fs.len() ==> (#[trigger] fs[i]).0.len() < 0x1_0000_0000 && fs[i].1.len()
                    < 0x1_0000_0000
        }),
    decreases n,
{
    if n == 0 {
        let (fs, rest) = parse_pairs(t, n)->Some_0;
        assert(fs =~= Seq::<(Seq<u8>, Seq<u8>)>::empty());
        assert(encode_pairs(fs) == Seq::<u8>::empty());
        assert(Seq::<u8>::empty() + rest =~= rest);
    } else {
        let (p, rest1) = parse_pair(t)->Some_0;
        lemma_parse_pair_sound(t);
        lemma_parse_pairs_sound(rest1, (n - 1) as nat);
        let (ps, rest2) = parse_pairs(rest1, (n - 1) as nat)->Some_0;
        let fs = seq![p] + ps;
        assert(fs[0] == p);
        assert(fs.drop_first() =~= ps);
        assert(encode_pairs(fs) == encode_pair(p) + encode_pairs(ps));
        assert((encode_pair(p) + encode_pairs(ps)) + rest2 =~= encode_pair(p) + (encode_pairs(ps)
            + rest2));
        assert(t == encode_pairs(fs) + rest2);
        assert forall|i: int|
            0 <= i < fs.len() implies (#[trigger] fs[i]).0.len() < 0x1_0000_0000
            && fs[i].1.len() < 0x1_0000_0000 by {
            if i > 0 {
                assert(fs[i] == ps[i - 1]);
            }
        }
    }
}

/// A well-formed record's serialized payload decodes back to the record.
pub proof fn lemma_decode_encode_record(r: UserView)
    requires
        r.wf(),
        encodable(r),
    ensures
        decode_record(encode_record(r)) == Some(r),
{
    let s = encode_record(r);
    lemma_le32_val_of_le32(r.friends.len() as int);
    assert(s.subrange(1, 5) =~= le32(r.friends.len() as int));
    assert(s.skip(5) =~= encode_pairs(r.friends) + Seq::<u8>::empty());
    lemma_parse_pairs_complete(r.friends, Seq::empty());
    assert(s[0] == r.online);
}

/// Only a well-formed record's serialized payload decodes, and only to that
/// record.
pub proof fn lemma_encode_decode_record(s: Seq<u8>)
    requires
        decode_record(s) is Some,
    ensures
        ({
            let r = decode_record(s)->Some_0;
            &&& r.wf()
            &&& encodable(r)
            &&& encode_record(r) == s
        }),
{
    let r = decode_record(s)->Some_0;
    let n = le32_val(s.subrange(1, 5));
    lemma_le32_of_le32_val(s.subrange(1, 5));
    lemma_parse_pairs_sound(s.skip(5), n as nat);
    let (fs, rest) = parse_pairs(s.skip(5), n as nat)->Some_0;
    assert(rest =~= Seq::<u8>::empty());
    assert(encode_pairs(fs) + rest =~= encode_pairs(fs));
    assert(encode_record(r) =~= s);
}

/// Each entry's serialized pieces are no longer than the whole entry list's
/// serialized form, and eight bytes of prefixes are spent per entry.
pub proof fn lemma_encode_pairs_len(fs: Seq<(Seq<u8>, Seq<u8>)>)
    ensures
        encode_pairs(fs).len() >= 8 * fs.len(),
        forall|i: int|
            0 <= i < fs.len() ==> encode_pairs(fs).len() >= (#[trigger] fs[i]).0.len()
                + fs[i].1.len(),
    decreases fs.len(),
{
    if fs.len() > 0 {
        lemma_encode_pairs_len(fs.drop_first());
        assert forall|i: int|
            0 <= i < fs.len() implies encode_pairs(fs).len() >= (#[trigger] fs[i]).0.len()
            + fs[i].1.len() by {
            if i > 0 {
                assert(fs.drop_first()[i - 1] == fs[i]);
            }
        }
    }
}

/// A record whose serialized payload fits a slot has every count and length
/// inside the 32-bit prefixes.
pub proof fn lemma_small_payload_encodable(r: UserView)
    requires
        encode_record(r).len() <= MAX_PAYLOAD_LEN,
    ensures
        encodable(r),
{
    lemma_encode_pairs_len(r.friends);
}

/// Round trip: a slot a record was written into reads back as that record.
pub proof fn lemma_slot_round_trip(s: Seq<u8>, r: UserView)
    requires
        r.wf(),
        s.len() == USER_STATE_DATA_MAX_LEN,
        encode_record(r).len() <= MAX_PAYLOAD_LEN,
    ensures
        write_slot(s, r).len() == s.len(),
        decode_slot(write_slot(s, r)) == r,
{
    let payload = encode_record(r);
    let w = write_slot(s, r);
    lemma_small_payload_encodable(r);
    lemma_le32_val_of_le32(payload.len() as int);
    assert(w.subrange(0, 4) =~= le32(payload.len() as int));
    assert(w.subrange(4, 4 + payload.len() as int) =~= payload);
    lemma_decode_encode_record(r);
}

/// Writing a record is idempotent on the slot: a second write of the same
/// record changes nothing.
pub proof fn lemma_write_slot_twice(s: Seq<u8>, r: UserView)
    requires
        s.len() == USER_STATE_DATA_MAX_LEN,
        encode_record(r).len() <= MAX_PAYLOAD_LEN,
    ensures
        write_slot(write_slot(s, r), r) == write_slot(s, r),
{
    let payload = encode_record(r);
    assert(write_slot(s, r).skip(4 + payload.len() as int) =~= s.skip(
        4 + payload.len() as int,
    ));
    assert(write_slot(write_slot(s, r), r) =~= write_slot(s, r));
}

/// Whatever a slot holds, the record read out of it is well-formed: a
/// decoded payload passed the key-uniqueness check, and the fallback default
/// has no keys at all.
pub proof fn lemma_decode_slot_wf(s: Seq<u8>)
    ensures
        decode_slot(s).wf(),
{
    if s.len() >= 4 {
        let l = le32_val(s.subrange(0, 4));
        if 4 + l <= s.len() {
            let sub = s.subrange(4, 4 + l);
            if decode_record(sub) is Some {
                let n = le32_val(sub.subrange(1, 5));
                let (fs, rest) = parse_pairs(sub.skip(5), n as nat)->Some_0;
                assert(keys_unique(fs));
            }
        }
    }
}

/// The record read out of a slot always fits back: a decoded payload
/// re-encodes to the very bytes it was read from, and the fallback default
/// is five bytes long.
pub proof fn lemma_decode_slot_fits(s: Seq<u8>)
    requires
        s.len() == USER_STATE_DATA_MAX_LEN,
    ensures
        encode_record(decode_slot(s)).len() <= MAX_PAYLOAD_LEN,
{
    let l = le32_val(s.subrange(0, 4));
    lemma_le32_of_le32_val(s.subrange(0, 4));
    assert(encode_record(UserView::default_spec()).len() == 5);
    if 4 + l <= s.len() {
        let sub = s.subrange(4, 4 + l);
        if decode_record(sub) is Some {
            lemma_encode_decode_record(sub);
        }
    }
}

/// Dropping an entry never lengthens the serialized entry list.
pub proof fn lemma_encode_pairs_remove(fs: Seq<(Seq<u8>, Seq<u8>)>, i: int)
    requires
        0 <= i < fs.len(),
    ensures
        encode_pairs(fs.remove(i)).len() <= encode_pairs(fs).len(),
    decreases fs.len(),
{
    if i == 0 {
        assert(fs.remove(0) =~= fs.drop_first());
    } else {
        assert(fs.remove(i)[0] == fs[0]);
        assert(fs.remove(i).drop_first() =~= fs.drop_first().remove(i - 1));
        lemma_encode_pairs_remove(fs.drop_first(), i - 1);
    }
}

/// First use: a slot of nothing but zero bytes reads as the default record —
/// offline, no friends.
pub proof fn lemma_zero_slot_default(s: Seq<u8>)
    requires
        s.len() == USER_STATE_DATA_MAX_LEN,
        forall|i: int| 0 <= i < s.len() ==> s[i] == 0u8,
    ensures
        decode_slot(s) == UserView::default_spec(),
{
    assert(le32_val(s.subrange(0, 4)) == 0);
    assert(s.subrange(4, 4).len() == 0);
}

/// Appends the four little-endian bytes of `n` to `out`.
pub fn push_le32(out: &mut Vec<u8>, n: usize)
    ensures
        final(out)@ == old(out)@ + le32(n as int),
{
    let ghost before = out@;
    out.push((n % 256) as u8);
    out.push(((n / 256) % 256) as u8);
    out.push(((n / 65536) % 256) as u8);
    out.push(((n / 16777216) % 256) as u8);
    proof {
        assert(out@ =~= before + le32(n as int));
    }
}

/// Appends a copy of `bytes[lo..hi)` to `out`.
fn append_range(out: &mut Vec<u8>, bytes: &Vec<u8>, lo: usize, hi: usize)
    requires
        lo <= hi <= bytes@.len(),
    ensures
        final(out)@ == old(out)@ + bytes@.subrange(lo as int, hi as int),
{
    let ghost before = out@;
    let mut i: usize = lo;
    while i < hi
        invariant
            lo <= i <= hi <= bytes@.len(),
            out@ == before + bytes@.subrange(lo as int, i as int),
        decreases hi - i,
    {
        out.push(bytes[i]);
        i += 1;
        proof {
            assert(out@ =~= before + bytes@.subrange(lo as int, i as int));
        }
    }
}

/// A fresh copy of `bytes[lo..hi)`.
fn copy_range(bytes: &Vec<u8>, lo: usize, hi: usize) -> (r: Vec<u8>)
    requires
        lo <= hi <= bytes@.len(),
    ensures
        r@ == bytes@.subrange(lo as int, hi as int),
{
    let mut out: Vec<u8> = Vec::new();
    append_range(&mut out, bytes, lo, hi);
    proof {
        assert(Seq::<u8>::empty() + bytes@.subrange(lo as int, hi as int) =~= bytes@.subrange(
            lo as int,
            hi as int,
        ));
    }
    out
}

/// Serializing one more entry extends the byte string by that entry.
#[verifier::rlimit(50)]
pub proof fn lemma_encode_pairs_push(fs: Seq<(Seq<u8>, Seq<u8>)>, p: (Seq<u8>, Seq<u8>))
    ensures
        encode_pairs(fs.push(p)) == encode_pairs(fs) + encode_pair(p),
    decreases fs.len(),
{
    let g = fs.push(p);
    if fs.len() == 0 {
        assert(g[0] == p);
        assert(g.drop_first() =~= Seq::<(Seq<u8>, Seq<u8>)>::empty());
        assert(encode_pairs(g.drop_first()) == Seq::<u8>::empty());
        assert(encode_pair(p) + Seq::<u8>::empty() =~= encode_pair(p));
        assert(encode_pairs(fs) == Seq::<u8>::empty());
        assert(Seq::<u8>::empty() + encode_pair(p) =~= encode_pair(p));
    } else {
        assert(g[0] == fs[0]);
        assert(g.drop_first() =~= fs.drop_first().push(p));
        lemma_encode_pairs_push(fs.drop_first(), p);
        assert(encode_pairs(g) == encode_pair(fs[0]) + (encode_pairs(fs.drop_first())
            + encode_pair(p)));
        assert(encode_pair(fs[0]) + (encode_pairs(fs.drop_first()) + encode_pair(p)) =~= (
        encode_pair(fs[0]) + encode_pairs(fs.drop_first())) + encode_pair(p));
    }
}

/// Serializes a record into its payload byte string.
pub fn encode_payload(u: &User) -> (out: Vec<u8>)
    ensures
        out@ == encode_record(u@),
{
    let mut out: Vec<u8> = Vec::new();
    out.push(u.online);
    push_le32(&mut out, u.friends.len());
    let ghost header = seq![u.online] + le32(u.friends@.len() as int);
    proof {
        assert(out@ =~= header);
        assert(u@.friends.take(0) =~= Seq::<(Seq<u8>, Seq<u8>)>::empty());
        assert(out@ =~= header + encode_pairs(u@.friends.take(0)));
    }
    let n = u.friends.len();
    let mut i: usize = 0;
    while i < n
        invariant
            n == u.friends@.len(),
            0 <= i <= n,
            out@ == header + encode_pairs(u@.friends.take(i as int)),
        decreases n - i,
    {
        let ghost done = u@.friends.take(i as int);
        let key_len = u.friends[i].0.len();
        push_le32(&mut out, key_len);
        append_range(&mut out, &u.friends[i].0, 0, key_len);
        let val_len = u.friends[i].1.len();
        push_le32(&mut out, val_len);
        append_range(&mut out, &u.friends[i].1, 0, val_len);
        proof {
            let p = u@.friends[i as int];
            assert(u.friends@[i as int].0@.subrange(0, key_len as int) =~= p.0);
            assert(u.friends@[i as int].1@.subrange(0, val_len as int) =~= p.1);
            assert(out@ =~= header + (encode_pairs(done) + encode_pair(p)));
            lemma_encode_pairs_push(done, p);
            assert(done.push(p) =~= u@.friends.take(i as int + 1));
            assert(out@ =~= header + encode_pairs(u@.friends.take(i as int + 1)));
        }
        i += 1;
    }
    proof {
        assert(u@.friends.take(n as int) =~= u@.friends);
    }
    out
}

/// Parses one serialized entry starting at `i`, inside the region that ends
/// at `hi`. Returns the key, the annotation, and the position just past the
/// entry.
fn parse_pair_at(bytes: &Vec<u8>, i: usize, hi: usize) -> (r: Option<(Vec<u8>, Vec<u8>, usize)>)
    requires
        i <= hi <= bytes@.len(),
    ensures
        match r {
            Some((k, v, j)) => i < j <= hi && parse_pair(bytes@.subrange(i as int, hi as int))
                == Some(((k@, v@), bytes@.subrange(j as int, hi as int))),
            None => parse_pair(bytes@.subrange(i as int, hi as int)) is None,
        },
{
    let ghost t = bytes@.subrange(i as int, hi as int);
    if hi - i < 4 {
        return None;
    }
    let kl32 = read_le32(bytes, i);
    let kl = kl32 as usize;
    proof {
        assert(t.subrange(0, 4) =~= bytes@.subrange(i as int, i as int + 4));
    }
    if hi - i - 4 < kl {
        return None;
    }
    let key = copy_range(bytes, i + 4, i + 4 + kl);
    let i2 = i + 4 + kl;
    let ghost t2 = t.skip(4 + kl as int);
    proof {
        assert(key@ =~= t.subrange(4, 4 + kl as int));
        assert(t2 =~= bytes@.subrange(i2 as int, hi as int));
    }
    if hi - i2 < 4 {
        return None;
    }
    proof {
        assert(t2.subrange(0, 4) =~= bytes@.subrange(i2 as int, i2 as int + 4));
    }
    let vl32 = read_le32(bytes, i2);
    let vl = vl32 as usize;
    if hi - i2 - 4 < vl {
        return None;
    }
    let val = copy_range(bytes, i2 + 4, i2 + 4 + vl);
    let j = i2 + 4 + vl;
    proof {
        assert(val@ =~= t2.subrange(4, 4 + vl as int));
        assert(t2.skip(4 + vl as int) =~= bytes@.subrange(j as int, hi as int));
    }
    Some((key, val, j))
}

/// Tests whether the keys of `pairs` are pairwise distinct.
fn check_keys_unique(pairs: &Vec<(Vec<u8>, Vec<u8>)>) -> (r: bool)
    ensures
        r == keys_unique(pairs_view(pairs@)),
{
    let ghost fs = pairs_view(pairs@);
    let n = pairs.len();
    let mut i: usize = 0;
    while i < n
        invariant
            fs == pairs_view(pairs@),
            n == pairs@.len(),
            0 <= i <= n,
            forall|a: int, b: int| 0 <= a < b < i ==> fs[a].0 != fs[b].0,
            forall|a: int, b: int| 0 <= a < i && i <= b < n ==> fs[a].0 != fs[b].0,
        decreases n - i,
    {
        let mut j: usize = i + 1;
        while j < n
            invariant
                fs == pairs_view(pairs@),
                n == pairs@.len(),
                0 <= i < j <= n,
                forall|b: int| i < b < j ==> fs[i as int].0 != fs[b].0,
            decreases n - j,
        {
            proof {
                assert(fs[i as int] == (pairs@[i as int].0@, pairs@[i as int].1@));
                assert(fs[j as int] == (pairs@[j as int].0@, pairs@[j as int].1@));
            }
            if bytes_eq(&pairs[i].0, &pairs[j].0) {
                proof {
                    assert(fs[i as int].0 == fs[j as int].0);
                    assert(!keys_unique(fs));
                }
                return false;
            }
            j += 1;
        }
        proof {
            assert(forall|b: int|
                i < b < n ==> fs[i as int].0 != (#[trigger] fs[b]).0);
        }
        i += 1;
    }
    true
}

/// Deserializes the payload held in `bytes[lo..hi)`. Succeeds exactly on
/// the serialized form of a well-formed record.
pub fn decode_payload(bytes: &Vec<u8>, lo: usize, hi: usize) -> (r: Option<User>)
    requires
        lo <= hi <= bytes@.len(),
    ensures
        match r {
            Some(u) => decode_record(bytes@.subrange(lo as int, hi as int)) == Some(u@) && u@.wf(),
            None => decode_record(bytes@.subrange(lo as int, hi as int)) is None,
        },
{
    let ghost t = bytes@.subrange(lo as int, hi as int);
    if hi - lo < 5 {
        return None;
    }
    let online = bytes[lo];
    let n32 = read_le32(bytes, lo + 1);
    let ghost n = n32 as nat;
    proof {
        assert(t[0] == online);
        assert(t.subrange(1, 5) =~= bytes@.subrange(lo as int + 1, lo as int + 5));
        assert(t.skip(5) =~= bytes@.subrange(lo as int + 5, hi as int));
    }
    let mut acc: Vec<(Vec<u8>, Vec<u8>)> = Vec::new();
    let mut j: usize = lo + 5;
    let mut k: u32 = 0;
    proof {
        assert(pairs_view(acc@) =~= Seq::<(Seq<u8>, Seq<u8>)>::empty());
        assert(pairs_view(acc@) + parse_pairs(bytes@.subrange(j as int, hi as int), n)->Some_0.0
            =~= parse_pairs(bytes@.subrange(j as int, hi as int), n)->Some_0.0) by {
            if parse_pairs(bytes@.subrange(j as int, hi as int), n) is Some {
            }
        }
    }
    while k < n32
        invariant
            lo + 5 <= j <= hi <= bytes@.len(),
            0 <= k <= n32,
            n == n32 as nat,
            acc@.len() == k,
            t.len() >= 5,
            online == t[0],
            n32 as int == le32_val(t.subrange(1, 5)),
            ({
                let full = parse_pairs(t.skip(5), n);
                let part = parse_pairs(
                    bytes@.subrange(j as int, hi as int),
                    (n32 - k) as nat,
                );
                match part {
                    None => full is None,
                    Some((fs, rest)) => full == Some((pairs_view(acc@) + fs, rest)),
                }
            }),
            t == bytes@.subrange(lo as int, hi as int),
            t.skip(5) == bytes@.subrange(lo as int + 5, hi as int),
        decreases n32 - k,
    {
        let ghost m = (n32 - k) as nat;
        let ghost cur = bytes@.subrange(j as int, hi as int);
        match parse_pair_at(bytes, j, hi) {
            None => {
                proof {
                    assert(parse_pairs(cur, m) is None);
                }
                return None;
            },
            Some((key, val, j2)) => {
                let ghost accv = pairs_view(acc@);
                let ghost p = (key@, val@);
                acc.push((key, val));
                proof {
                    let next = bytes@.subrange(j2 as int, hi as int);
                    assert(parse_pair(cur) == Some((p, next)));
                    assert(parse_pairs(cur, m) == match parse_pairs(next, (m - 1) as nat) {
                        None => None::<(Seq<(Seq<u8>, Seq<u8>)>, Seq<u8>)>,
                        Some((ps, rest2)) => Some((seq![p] + ps, rest2)),
                    });
                    assert(pairs_view(acc@) =~= accv.push(p));
                    if parse_pairs(next, (m - 1) as nat) is Some {
                        let (ps, rest2) = parse_pairs(next, (m - 1) as nat)->Some_0;
                        assert(accv + (seq![p] + ps) =~= accv.push(p) + ps);
                    }
                }
                j = j2;
                k += 1;
            },
        }
    }
    proof {
        let fin = bytes@.subrange(j as int, hi as int);
        assert(parse_pairs(fin, 0) == Some((Seq::<(Seq<u8>, Seq<u8>)>::empty(), fin)));
        assert(pairs_view(acc@) + Seq::<(Seq<u8>, Seq<u8>)>::empty() =~= pairs_view(acc@));
        assert(parse_pairs(t.skip(5), n) == Some((pairs_view(acc@), fin)));
    }
    if j != hi {
        proof {
            assert(bytes@.subrange(j as int, hi as int).len() > 0);
        }
        return None;
    }
    proof {
        assert(bytes@.subrange(j as int, hi as int).len() == 0);
    }
    if !check_keys_unique(&acc) {
        return None;
    }
    let u = User { online, friends: acc };
    Some(u)
}

/// Reads the record a slot holds. A payload region that does not parse —
/// a never-written slot, corrupt bytes, or a length prefix pointing past
/// the slot's end — yields the default record.
pub fn read_slot(slot: &Vec<u8>) -> (u: User)
    requires
        slot@.len() == USER_STATE_DATA_MAX_LEN,
    ensures
        u@ == decode_slot(slot@),
        u@.wf(),
{
    let l32 = read_le32(slot, 0);
    let l = l32 as usize;
    if l <= USER_STATE_DATA_MAX_LEN - 4 {
        match decode_payload(slot, 4, 4 + l) {
            Some(u) => u,
            None => User::default(),
        }
    } else {
        User::default()
    }
}

/// Writes `u` back into the slot: the length prefix and payload are
/// overwritten, stale bytes beyond them are left as they are. A record
/// whose payload would not fit is rejected and the slot is untouched.
pub fn write_slot_record(slot: &mut Vec<u8>, u: &User) -> (r: Result<(), SolanaDAppError>)
    requires
        old(slot)@.len() == USER_STATE_DATA_MAX_LEN,
    ensures
        final(slot)@.len() == USER_STATE_DATA_MAX_LEN,
        match r {
            Ok(()) => encode_record(u@).len() <= MAX_PAYLOAD_LEN && final(slot)@ == write_slot(
                old(slot)@,
                u@,
            ),
            Err(e) => e == SolanaDAppError::RecordTooLarge && encode_record(u@).len()
                > MAX_PAYLOAD_LEN && final(slot)@ == old(slot)@,
        },
{
    let payload = encode_payload(u);
    let len = payload.len();
    if len > USER_STATE_DATA_MAX_LEN - 4 {
        return Err(SolanaDAppError::RecordTooLarge);
    }
    let ghost before = slot@;
    let prefix_bytes = {
        let mut p: Vec<u8> = Vec::new();
        push_le32(&mut p, len);
        p
    };
    let mut i: usize = 0;
    while i < 4
        invariant
            0 <= i <= 4,
            slot@.len() == USER_STATE_DATA_MAX_LEN,
            prefix_bytes@.len() == 4,
            prefix_bytes@ == le32(len as int),
            slot@ == before.map(
                |idx: int, b: u8| if 0 <= idx < i { prefix_bytes@[idx] } else { b },
            ),
        decreases 4 - i,
    {
        let ghost prev = slot@;
        slot.set(i, prefix_bytes[i]);
        i += 1;
        proof {
            assert(slot@ =~= before.map(
                |idx: int, b: u8| if 0 <= idx < i { prefix_bytes@[idx] } else { b },
            ));
        }
    }
    let mut w: usize = 0;
    while w < len
        invariant
            0 <= w <= len,
            len + 4 <= USER_STATE_DATA_MAX_LEN,
            slot@.len() == USER_STATE_DATA_MAX_LEN,
            payload@.len() == len,
            prefix_bytes@ == le32(len as int),
            slot@ == before.map(
                |idx: int, b: u8| if 0 <= idx < 4 {
                    prefix_bytes@[idx]
                } else if 4 <= idx < 4 + w {
                    payload@[idx - 4]
                } else {
                    b
                },
            ),
        decreases len - w,
    {
        slot.set(4 + w, payload[w]);
        w += 1;
        proof {
            assert(slot@ =~= before.map(
                |idx: int, b: u8| if 0 <= idx < 4 {
                    prefix_bytes@[idx]
                } else if 4 <= idx < 4 + w {
                    payload@[idx - 4]
                } else {
                    b
                },
            ));
        }
    }
    proof {
        assert(slot@ =~= write_slot(before, u@));
    }
    Ok(())
}

} // verus!
