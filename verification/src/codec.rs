//! The persisted byte format of the store.
//!
//! One file holds one serialized store: a leading format-version marker, the
//! mapping from POI index to its message thread, and the user registry.
//! Numbers are 64-bit little-endian words, text is length-prefixed UTF-8, and
//! timestamps are biased into an unsigned word. Decoding accepts exactly the
//! well-formed encodings and rejects everything else, so a load can fall back
//! to the empty store on any malformed file.

use vstd::prelude::*;

use vstd::bytes::{
    lemma_auto_spec_u64_to_from_le_bytes, spec_u64_from_le_bytes, spec_u64_to_le_bytes,
    u64_from_le_bytes, u64_to_le_bytes,
};
use vstd::seq_lib::lemma_concat_associative;
use vstd::slice::{slice_index_get, slice_subrange, slice_to_vec};
use vstd::utf8::{
    decode_utf8, encode_utf8, encode_utf8_decode_utf8, encode_utf8_valid_utf8, valid_utf8,
};

use crate::identity::UserId;
use crate::store::{
    buckets_model, msgs_model, users_model, Bucket, BucketModel, Message, MsgModel, StoreModel,
    Storage, UserModel, UserPrivate,
};

verus! {

/// The format-version marker that opens every encoded store.
pub const STORE_FORMAT_VERSION: u8 = 1;

/// The bias that maps a signed 64-bit timestamp onto an unsigned word.
pub const TIME_BIAS: u64 = 0x8000_0000_0000_0000;

// ---------------------------------------------------------------------------
// Encoding
// ---------------------------------------------------------------------------

/// A 64-bit word as its eight little-endian bytes.
pub open spec fn enc_u64(x: u64) -> Seq<u8> {
    spec_u64_to_le_bytes(x)
}

/// A 256-bit identifier as its four words.
pub open spec fn enc_id(id: UserId) -> Seq<u8> {
    enc_u64(id.w0) + enc_u64(id.w1) + enc_u64(id.w2) + enc_u64(id.w3)
}

/// A timestamp biased onto an unsigned word.
pub open spec fn enc_time(t: int) -> u64 {
    (t + TIME_BIAS) as u64
}

/// The timestamp a biased word stands for.
pub open spec fn dec_time(w: u64) -> int {
    w - TIME_BIAS
}

/// Text as its UTF-8 bytes, prefixed with their count.
pub open spec fn enc_str(s: Seq<char>) -> Seq<u8> {
    enc_u64(encode_utf8(s).len() as u64) + encode_utf8(s)
}

/// One message record: sender, POI index, timestamp, text.
pub open spec fn enc_msg(m: MsgModel) -> Seq<u8> {
    enc_id(m.sender) + enc_u64(m.poi as u64) + enc_u64(enc_time(m.time)) + enc_str(m.text)
}

/// A message thread, in order.
pub open spec fn enc_msgs(ms: Seq<MsgModel>) -> Seq<u8>
    decreases ms.len(),
{
    if ms.len() == 0 {
        Seq::empty()
    } else {
        enc_msg(ms[0]) + enc_msgs(ms.drop_first())
    }
}

/// One POI bucket: its index, its thread length, its thread.
pub open spec fn enc_bucket(b: BucketModel) -> Seq<u8> {
    enc_u64(b.poi as u64) + enc_u64(b.msgs.len() as u64) + enc_msgs(b.msgs)
}

/// All buckets, in order.
pub open spec fn enc_buckets(bs: Seq<BucketModel>) -> Seq<u8>
    decreases bs.len(),
{
    if bs.len() == 0 {
        Seq::empty()
    } else {
        enc_bucket(bs[0]) + enc_buckets(bs.drop_first())
    }
}

/// One user record: identifier, name, points.
pub open spec fn enc_user(u: UserModel) -> Seq<u8> {
    enc_id(u.id) + enc_str(u.name) + enc_u64(u.points as u64)
}

/// The registry, in order.
pub open spec fn enc_users(us: Seq<UserModel>) -> Seq<u8>
    decreases us.len(),
{
    if us.len() == 0 {
        Seq::empty()
    } else {
        enc_user(us[0]) + enc_users(us.drop_first())
    }
}

/// A whole store: the version marker, the counted buckets, the counted users.
pub open spec fn enc_store(m: StoreModel) -> Seq<u8> {
    seq![STORE_FORMAT_VERSION] + enc_u64(m.buckets.len() as u64) + enc_buckets(m.buckets)
        + enc_u64(m.users.len() as u64) + enc_users(m.users)
}

// ---------------------------------------------------------------------------
// Machine-range side conditions of the encoding
// ---------------------------------------------------------------------------

/// The machine ranges a message must lie in for its encoding to be exact.
pub open spec fn msg_fits(m: MsgModel) -> bool {
    &&& 0 <= m.poi <= usize::MAX as int
    &&& i64::MIN as int <= m.time <= i64::MAX as int
    &&& encode_utf8(m.text).len() <= u64::MAX as int
}

/// The machine ranges a bucket must lie in.
pub open spec fn bucket_fits(b: BucketModel) -> bool {
    &&& 0 <= b.poi <= usize::MAX as int
    &&& b.msgs.len() <= u64::MAX as int
    &&& forall|j: int| 0 <= j < b.msgs.len() ==> msg_fits(#[trigger] b.msgs[j])
}

/// The machine ranges a user record must lie in.
pub open spec fn user_fits(u: UserModel) -> bool {
    &&& 0 <= u.points <= usize::MAX as int
    &&& encode_utf8(u.name).len() <= u64::MAX as int
}

/// The machine ranges a whole store must lie in.
pub open spec fn store_fits(m: StoreModel) -> bool {
    &&& m.buckets.len() <= u64::MAX as int
    &&& m.users.len() <= u64::MAX as int
    &&& forall|i: int| 0 <= i < m.buckets.len() ==> bucket_fits(#[trigger] m.buckets[i])
    &&& forall|i: int| 0 <= i < m.users.len() ==> user_fits(#[trigger] m.users[i])
}

// ---------------------------------------------------------------------------
// Decoding
// ---------------------------------------------------------------------------

/// Reads a 64-bit word at `pos`; fails when fewer than eight bytes remain.
pub open spec fn dec_u64(d: Seq<u8>, pos: int) -> Option<(u64, int)> {
    if 0 <= pos && pos + 8 <= d.len() {
        Some((spec_u64_from_le_bytes(d.subrange(pos, pos + 8)), pos + 8))
    } else {
        None
    }
}

/// Reads a 256-bit identifier: four words.
pub open spec fn dec_id(d: Seq<u8>, pos: int) -> Option<(UserId, int)> {
    match dec_u64(d, pos) {
        None => None,
        Some((w0, p0)) => match dec_u64(d, p0) {
            None => None,
            Some((w1, p1)) => match dec_u64(d, p1) {
                None => None,
                Some((w2, p2)) => match dec_u64(d, p2) {
                    None => None,
                    Some((w3, p3)) => Some((UserId { w0, w1, w2, w3 }, p3)),
                },
            },
        },
    }
}

/// Reads counted UTF-8 text; fails on a short buffer or invalid UTF-8.
pub open spec fn dec_str(d: Seq<u8>, pos: int) -> Option<(Seq<char>, int)> {
    match dec_u64(d, pos) {
        None => None,
        Some((n, p)) => if p + n <= d.len() {
            let bytes = d.subrange(p, p + n);
            if valid_utf8(bytes) {
                Some((decode_utf8(bytes), p + n))
            } else {
                None
            }
        } else {
            None
        },
    }
}

/// Reads one message record; its POI field must match the enclosing bucket's
/// index, which must itself fit the machine's word.
pub open spec fn dec_msg(d: Seq<u8>, pos: int, poi: int) -> Option<(MsgModel, int)> {
    match dec_id(d, pos) {
        None => None,
        Some((sender, p0)) => match dec_u64(d, p0) {
            None => None,
            Some((pw, p1)) => if pw as int == poi {
                match dec_u64(d, p1) {
                    None => None,
                    Some((tw, p2)) => match dec_str(d, p2) {
                        None => None,
                        Some((text, p3)) => Some(
                            (MsgModel { sender, poi, time: dec_time(tw), text }, p3),
                        ),
                    },
                }
            } else {
                None
            },
        },
    }
}

/// Reads `n` message records of one bucket.
pub open spec fn dec_msgs(d: Seq<u8>, pos: int, n: nat, poi: int) -> Option<(Seq<MsgModel>, int)>
    decreases n,
{
    if n == 0 {
        Some((Seq::empty(), pos))
    } else {
        match dec_msg(d, pos, poi) {
            None => None,
            Some((m, p)) => match dec_msgs(d, p, (n - 1) as nat, poi) {
                None => None,
                Some((ms, q)) => Some((seq![m] + ms, q)),
            },
        }
    }
}

/// Reads one bucket: its POI index, its thread length, its thread.
pub open spec fn dec_bucket(d: Seq<u8>, pos: int) -> Option<(BucketModel, int)> {
    match dec_u64(d, pos) {
        None => None,
        Some((pw, p0)) => if pw <= usize::MAX as u64 {
            match dec_u64(d, p0) {
                None => None,
                Some((n, p1)) => match dec_msgs(d, p1, n as nat, pw as int) {
                    None => None,
                    Some((ms, q)) => Some((BucketModel { poi: pw as int, msgs: ms }, q)),
                },
            }
        } else {
            None
        },
    }
}

/// Reads `n` buckets.
pub open spec fn dec_buckets(d: Seq<u8>, pos: int, n: nat) -> Option<(Seq<BucketModel>, int)>
    decreases n,
{
    if n == 0 {
        Some((Seq::empty(), pos))
    } else {
        match dec_bucket(d, pos) {
            None => None,
            Some((b, p)) => match dec_buckets(d, p, (n - 1) as nat) {
                None => None,
                Some((bs, q)) => Some((seq![b] + bs, q)),
            },
        }
    }
}

/// Reads one user record.
pub open spec fn dec_user(d: Seq<u8>, pos: int) -> Option<(UserModel, int)> {
    match dec_id(d, pos) {
        None => None,
        Some((id, p0)) => match dec_str(d, p0) {
            None => None,
            Some((name, p1)) => match dec_u64(d, p1) {
                None => None,
                Some((pw, p2)) => if pw <= usize::MAX as u64 {
                    Some((UserModel { id, name, points: pw as int }, p2))
                } else {
                    None
                },
            },
        },
    }
}

/// Reads `n` user records.
pub open spec fn dec_users(d: Seq<u8>, pos: int, n: nat) -> Option<(Seq<UserModel>, int)>
    decreases n,
{
    if n == 0 {
        Some((Seq::empty(), pos))
    } else {
        match dec_user(d, pos) {
            None => None,
            Some((u, p)) => match dec_users(d, p, (n - 1) as nat) {
                None => None,
                Some((us, q)) => Some((seq![u] + us, q)),
            },
        }
    }
}

/// What a byte sequence parses to: the store whose encoding it is, exactly.
/// Anything else — a missing or foreign version marker, a short or overlong
/// buffer, invalid UTF-8, out-of-range numbers, duplicate keys — is rejected.
pub open spec fn dec_store(d: Seq<u8>) -> Option<StoreModel> {
    if d.len() < 1 || d[0] != STORE_FORMAT_VERSION {
        None
    } else {
        match dec_u64(d, 1) {
            None => None,
            Some((nb, p0)) => match dec_buckets(d, p0, nb as nat) {
                None => None,
                Some((bs, p1)) => match dec_u64(d, p1) {
                    None => None,
                    Some((nu, p2)) => match dec_users(d, p2, nu as nat) {
                        None => None,
                        Some((us, p3)) => {
                            let m = StoreModel { buckets: bs, users: us };
                            if p3 == d.len() && m.wf() {
                                Some(m)
                            } else {
                                None
                            }
                        },
                    },
                },
            },
        }
    }
}

// ---------------------------------------------------------------------------
// Round trip: decoding inverts encoding
// ---------------------------------------------------------------------------

/// The bytes of `d` from `pos` on are exactly `bytes`.
pub open spec fn tail_is(d: Seq<u8>, pos: int, bytes: Seq<u8>) -> bool {
    &&& 0 <= pos <= d.len()
    &&& d.subrange(pos, d.len() as int) == bytes
}

/// Splits a known tail `a + b` at `pos` into the piece `a` right at `pos`
/// and the remaining tail `b`.
proof fn lemma_tail_split(d: Seq<u8>, pos: int, a: Seq<u8>, b: Seq<u8>)
    requires
        tail_is(d, pos, a + b),
    ensures
        pos + a.len() <= d.len(),
        d.subrange(pos, pos + a.len() as int) == a,
        tail_is(d, pos + a.len() as int, b),
{
    assert((a + b).len() == a.len() + b.len());
    let e = pos + a.len() as int;
    assert forall|i: int| 0 <= i < a.len() implies d.subrange(pos, e)[i] == a[i] by {
        assert(d.subrange(pos, d.len() as int)[i] == (a + b)[i]);
    }
    assert(d.subrange(pos, e) =~= a);
    assert forall|i: int| 0 <= i < b.len() implies d.subrange(e, d.len() as int)[i] == b[i] by {
        assert(d.subrange(pos, d.len() as int)[a.len() + i] == (a + b)[a.len() + i]);
    }
    assert(d.subrange(e, d.len() as int) =~= b);
}

proof fn lemma_dec_u64_enc(d: Seq<u8>, pos: int, x: u64, rest: Seq<u8>)
    requires
        tail_is(d, pos, enc_u64(x) + rest),
    ensures
        dec_u64(d, pos) == Some((x, pos + 8)),
        tail_is(d, pos + 8, rest),
{
    lemma_auto_spec_u64_to_from_le_bytes();
    assert(enc_u64(x).len() == 8);
    lemma_tail_split(d, pos, enc_u64(x), rest);
}

proof fn lemma_dec_id_enc(d: Seq<u8>, pos: int, id: UserId, rest: Seq<u8>)
    requires
        tail_is(d, pos, enc_id(id) + rest),
    ensures
        dec_id(d, pos) == Some((id, pos + 32)),
        tail_is(d, pos + 32, rest),
{
    lemma_auto_spec_u64_to_from_le_bytes();
    assert(enc_id(id) + rest =~= enc_u64(id.w0) + (enc_u64(id.w1) + (enc_u64(id.w2) + (enc_u64(
        id.w3,
    ) + rest))));
    lemma_dec_u64_enc(d, pos, id.w0, enc_u64(id.w1) + (enc_u64(id.w2) + (enc_u64(id.w3) + rest)));
    lemma_dec_u64_enc(d, pos + 8, id.w1, enc_u64(id.w2) + (enc_u64(id.w3) + rest));
    lemma_dec_u64_enc(d, pos + 16, id.w2, enc_u64(id.w3) + rest);
    lemma_dec_u64_enc(d, pos + 24, id.w3, rest);
}

proof fn lemma_dec_str_enc(d: Seq<u8>, pos: int, s: Seq<char>, rest: Seq<u8>)
    requires
        tail_is(d, pos, enc_str(s) + rest),
        encode_utf8(s).len() <= u64::MAX as int,
    ensures
        ({
            let bytes = encode_utf8(s);
            &&& dec_str(d, pos) == Some((s, pos + 8 + bytes.len()))
            &&& tail_is(d, pos + 8 + bytes.len(), rest)
        }),
{
    broadcast use encode_utf8_valid_utf8, encode_utf8_decode_utf8;

    let bytes = encode_utf8(s);
    let n = bytes.len() as u64;
    assert(enc_str(s) + rest =~= enc_u64(n) + (bytes + rest));
    lemma_dec_u64_enc(d, pos, n, bytes + rest);
    let p = pos + 8;
    lemma_tail_split(d, p, bytes, rest);
    assert(p + n <= d.len());
    assert(d.subrange(p, p + n as int) == bytes);
}

proof fn lemma_dec_msg_enc(d: Seq<u8>, pos: int, m: MsgModel, rest: Seq<u8>)
    requires
        tail_is(d, pos, enc_msg(m) + rest),
        msg_fits(m),
    ensures
        ({
            let e = enc_msg(m).len();
            &&& dec_msg(d, pos, m.poi) == Some((m, pos + e))
            &&& tail_is(d, pos + e, rest)
        }),
{
    let pw = m.poi as u64;
    let tw = enc_time(m.time);
    assert(enc_msg(m) + rest =~= enc_id(m.sender) + (enc_u64(pw) + (enc_u64(tw) + (enc_str(m.text)
        + rest))));
    lemma_dec_id_enc(d, pos, m.sender, enc_u64(pw) + (enc_u64(tw) + (enc_str(m.text) + rest)));
    lemma_dec_u64_enc(d, pos + 32, pw, enc_u64(tw) + (enc_str(m.text) + rest));
    assert(pw as int == m.poi);
    lemma_dec_u64_enc(d, pos + 40, tw, enc_str(m.text) + rest);
    lemma_dec_str_enc(d, pos + 48, m.text, rest);
    assert(dec_time(tw) == m.time);
    let e = enc_msg(m).len();
    assert(e == 48 + enc_str(m.text).len());
    let dm = dec_msg(d, pos, m.poi);
    assert(dm matches Some(v) && v.0 =~= m && v.1 == pos + e);
}

proof fn lemma_dec_msgs_enc(d: Seq<u8>, pos: int, ms: Seq<MsgModel>, poi: int, rest: Seq<u8>)
    requires
        tail_is(d, pos, enc_msgs(ms) + rest),
        forall|j: int| 0 <= j < ms.len() ==> (#[trigger] ms[j]).poi == poi,
        forall|j: int| 0 <= j < ms.len() ==> msg_fits(#[trigger] ms[j]),
    ensures
        ({
            let e = enc_msgs(ms).len();
            &&& dec_msgs(d, pos, ms.len(), poi) == Some((ms, pos + e))
            &&& tail_is(d, pos + e, rest)
        }),
    decreases ms.len(),
{
    if ms.len() == 0 {
        assert(enc_msgs(ms) =~= Seq::<u8>::empty());
        assert(enc_msgs(ms) + rest =~= rest);
        assert(dec_msgs(d, pos, 0, poi) == Some((Seq::<MsgModel>::empty(), pos)));
        assert(Seq::<MsgModel>::empty() =~= ms);
    } else {
        let m0 = ms[0];
        let tailm = ms.drop_first();
        assert(enc_msgs(ms) + rest =~= enc_msg(m0) + (enc_msgs(tailm) + rest));
        lemma_dec_msg_enc(d, pos, m0, enc_msgs(tailm) + rest);
        let p = pos + enc_msg(m0).len();
        assert forall|j: int| 0 <= j < tailm.len() implies (#[trigger] tailm[j]).poi == poi
            && msg_fits(tailm[j]) by {
            assert(tailm[j] == ms[j + 1]);
        }
        lemma_dec_msgs_enc(d, p, tailm, poi, rest);
        assert(m0.poi == poi);
        assert(seq![m0] + tailm =~= ms);
        assert(enc_msgs(ms).len() == enc_msg(m0).len() + enc_msgs(tailm).len());
    }
}

proof fn lemma_dec_bucket_enc(d: Seq<u8>, pos: int, b: BucketModel, rest: Seq<u8>)
    requires
        tail_is(d, pos, enc_bucket(b) + rest),
        bucket_fits(b),
        b.wf(),
    ensures
        ({
            let e = enc_bucket(b).len();
            &&& dec_bucket(d, pos) == Some((b, pos + e))
            &&& tail_is(d, pos + e, rest)
        }),
{
    let pw = b.poi as u64;
    let n = b.msgs.len() as u64;
    assert(enc_bucket(b) + rest =~= enc_u64(pw) + (enc_u64(n) + (enc_msgs(b.msgs) + rest)));
    lemma_dec_u64_enc(d, pos, pw, enc_u64(n) + (enc_msgs(b.msgs) + rest));
    lemma_dec_u64_enc(d, pos + 8, n, enc_msgs(b.msgs) + rest);
    lemma_dec_msgs_enc(d, pos + 16, b.msgs, b.poi, rest);
    assert(pw <= usize::MAX as u64);
    assert(pw as int == b.poi);
    assert(n as nat == b.msgs.len());
    let e = enc_bucket(b).len();
    let db = dec_bucket(d, pos);
    assert(db matches Some(v) && v.0 =~= b && v.1 == pos + e);
}

proof fn lemma_dec_buckets_enc(d: Seq<u8>, pos: int, bs: Seq<BucketModel>, rest: Seq<u8>)
    requires
        tail_is(d, pos, enc_buckets(bs) + rest),
        forall|i: int| 0 <= i < bs.len() ==> bucket_fits(#[trigger] bs[i]),
        forall|i: int| 0 <= i < bs.len() ==> (#[trigger] bs[i]).wf(),
    ensures
        ({
            let e = enc_buckets(bs).len();
            &&& dec_buckets(d, pos, bs.len()) == Some((bs, pos + e))
            &&& tail_is(d, pos + e, rest)
        }),
    decreases bs.len(),
{
    if bs.len() == 0 {
        assert(enc_buckets(bs) + rest =~= rest);
        assert(Seq::<BucketModel>::empty() =~= bs);
    } else {
        let b0 = bs[0];
        let tailb = bs.drop_first();
        assert(enc_buckets(bs) + rest =~= enc_bucket(b0) + (enc_buckets(tailb) + rest));
        lemma_dec_bucket_enc(d, pos, b0, enc_buckets(tailb) + rest);
        let p = pos + enc_bucket(b0).len();
        assert forall|i: int| 0 <= i < tailb.len() implies bucket_fits(#[trigger] tailb[i])
            && tailb[i].wf() by {
            assert(tailb[i] == bs[i + 1]);
        }
        lemma_dec_buckets_enc(d, p, tailb, rest);
        assert(seq![b0] + tailb =~= bs);
        assert(enc_buckets(bs).len() == enc_bucket(b0).len() + enc_buckets(tailb).len());
    }
}

proof fn lemma_dec_user_enc(d: Seq<u8>, pos: int, u: UserModel, rest: Seq<u8>)
    requires
        tail_is(d, pos, enc_user(u) + rest),
        user_fits(u),
    ensures
        ({
            let e = enc_user(u).len();
            &&& dec_user(d, pos) == Some((u, pos + e))
            &&& tail_is(d, pos + e, rest)
        }),
{
    let pw = u.points as u64;
    assert(enc_user(u) + rest =~= enc_id(u.id) + (enc_str(u.name) + (enc_u64(pw) + rest)));
    lemma_dec_id_enc(d, pos, u.id, enc_str(u.name) + (enc_u64(pw) + rest));
    lemma_dec_str_enc(d, pos + 32, u.name, enc_u64(pw) + rest);
    let p = pos + 32 + 8 + encode_utf8(u.name).len();
    lemma_dec_u64_enc(d, p, pw, rest);
    assert(pw <= usize::MAX as u64);
    assert(pw as int == u.points);
    let e = enc_user(u).len();
    let du = dec_user(d, pos);
    assert(du matches Some(v) && v.0 =~= u && v.1 == pos + e);
}

proof fn lemma_dec_users_enc(d: Seq<u8>, pos: int, us: Seq<UserModel>, rest: Seq<u8>)
    requires
        tail_is(d, pos, enc_users(us) + rest),
        forall|i: int| 0 <= i < us.len() ==> user_fits(#[trigger] us[i]),
    ensures
        ({
            let e = enc_users(us).len();
            &&& dec_users(d, pos, us.len()) == Some((us, pos + e))
            &&& tail_is(d, pos + e, rest)
        }),
    decreases us.len(),
{
    if us.len() == 0 {
        assert(enc_users(us) + rest =~= rest);
        assert(Seq::<UserModel>::empty() =~= us);
    } else {
        let u0 = us[0];
        let tailu = us.drop_first();
        assert(enc_users(us) + rest =~= enc_user(u0) + (enc_users(tailu) + rest));
        lemma_dec_user_enc(d, pos, u0, enc_users(tailu) + rest);
        let p = pos + enc_user(u0).len();
        assert forall|i: int| 0 <= i < tailu.len() implies user_fits(#[trigger] tailu[i]) by {
            assert(tailu[i] == us[i + 1]);
        }
        lemma_dec_users_enc(d, p, tailu, rest);
        assert(seq![u0] + tailu =~= us);
        assert(enc_users(us).len() == enc_user(u0).len() + enc_users(tailu).len());
    }
}

/// Appending one message to a thread appends its record to the encoding.
proof fn lemma_enc_msgs_push(ms: Seq<MsgModel>, m: MsgModel)
    ensures
        enc_msgs(ms.push(m)) == enc_msgs(ms) + enc_msg(m),
    decreases ms.len(),
{
    if ms.len() == 0 {
        assert(ms.push(m)[0] == m);
        assert(ms.push(m).drop_first() =~= Seq::<MsgModel>::empty());
        assert(enc_msgs(Seq::<MsgModel>::empty()) == Seq::<u8>::empty());
        assert(enc_msg(m) + Seq::<u8>::empty() =~= enc_msg(m));
        assert(Seq::<u8>::empty() + enc_msg(m) =~= enc_msg(m));
    } else {
        assert(ms.push(m)[0] == ms[0]);
        assert(ms.push(m).drop_first() =~= ms.drop_first().push(m));
        lemma_enc_msgs_push(ms.drop_first(), m);
        lemma_concat_associative(enc_msg(ms[0]), enc_msgs(ms.drop_first()), enc_msg(m));
        assert(enc_msgs(ms.push(m)) == enc_msg(ms[0]) + enc_msgs(ms.drop_first().push(m)));
        assert(enc_msgs(ms) == enc_msg(ms[0]) + enc_msgs(ms.drop_first()));
    }
}

/// Appending one bucket appends its record to the encoding.
proof fn lemma_enc_buckets_push(bs: Seq<BucketModel>, b: BucketModel)
    ensures
        enc_buckets(bs.push(b)) == enc_buckets(bs) + enc_bucket(b),
    decreases bs.len(),
{
    if bs.len() == 0 {
        assert(bs.push(b)[0] == b);
        assert(bs.push(b).drop_first() =~= Seq::<BucketModel>::empty());
        assert(enc_buckets(Seq::<BucketModel>::empty()) == Seq::<u8>::empty());
        assert(enc_bucket(b) + Seq::<u8>::empty() =~= enc_bucket(b));
        assert(Seq::<u8>::empty() + enc_bucket(b) =~= enc_bucket(b));
    } else {
        assert(bs.push(b)[0] == bs[0]);
        assert(bs.push(b).drop_first() =~= bs.drop_first().push(b));
        lemma_enc_buckets_push(bs.drop_first(), b);
        lemma_concat_associative(enc_bucket(bs[0]), enc_buckets(bs.drop_first()), enc_bucket(b));
        assert(enc_buckets(bs.push(b)) == enc_bucket(bs[0]) + enc_buckets(bs.drop_first().push(b)));
        assert(enc_buckets(bs) == enc_bucket(bs[0]) + enc_buckets(bs.drop_first()));
    }
}

/// Appending one user appends their record to the encoding.
proof fn lemma_enc_users_push(us: Seq<UserModel>, u: UserModel)
    ensures
        enc_users(us.push(u)) == enc_users(us) + enc_user(u),
    decreases us.len(),
{
    if us.len() == 0 {
        assert(us.push(u)[0] == u);
        assert(us.push(u).drop_first() =~= Seq::<UserModel>::empty());
        assert(enc_users(Seq::<UserModel>::empty()) == Seq::<u8>::empty());
        assert(enc_user(u) + Seq::<u8>::empty() =~= enc_user(u));
        assert(Seq::<u8>::empty() + enc_user(u) =~= enc_user(u));
    } else {
        assert(us.push(u)[0] == us[0]);
        assert(us.push(u).drop_first() =~= us.drop_first().push(u));
        lemma_enc_users_push(us.drop_first(), u);
        lemma_concat_associative(enc_user(us[0]), enc_users(us.drop_first()), enc_user(u));
        assert(enc_users(us.push(u)) == enc_user(us[0]) + enc_users(us.drop_first().push(u)));
        assert(enc_users(us) == enc_user(us[0]) + enc_users(us.drop_first()));
    }
}

/// Round trip: decoding the encoding of a well-formed store that lies in the
/// machine's ranges yields exactly that store's contents.
pub proof fn lemma_store_round_trip(m: StoreModel)
    requires
        m.wf(),
        store_fits(m),
    ensures
        dec_store(enc_store(m)) == Some(m),
{
    let d = enc_store(m);
    let nb = m.buckets.len() as u64;
    let nu = m.users.len() as u64;
    assert(d =~= seq![STORE_FORMAT_VERSION] + (enc_u64(nb) + (enc_buckets(m.buckets) + (enc_u64(
        nu,
    ) + (enc_users(m.users) + Seq::<u8>::empty())))));
    assert(d[0] == STORE_FORMAT_VERSION);
    assert(tail_is(d, 1, enc_u64(nb) + (enc_buckets(m.buckets) + (enc_u64(nu) + (enc_users(
        m.users,
    ) + Seq::<u8>::empty()))))) by {
        assert(d.subrange(1, d.len() as int) =~= enc_u64(nb) + (enc_buckets(m.buckets) + (enc_u64(
            nu,
        ) + (enc_users(m.users) + Seq::<u8>::empty()))));
    }
    lemma_dec_u64_enc(d, 1, nb, enc_buckets(m.buckets) + (enc_u64(nu) + (enc_users(m.users)
        + Seq::<u8>::empty())));
    lemma_dec_buckets_enc(d, 9, m.buckets, enc_u64(nu) + (enc_users(m.users)
        + Seq::<u8>::empty()));
    let p1 = 9 + enc_buckets(m.buckets).len() as int;
    lemma_dec_u64_enc(d, p1, nu, enc_users(m.users) + Seq::<u8>::empty());
    lemma_dec_users_enc(d, p1 + 8, m.users, Seq::<u8>::empty());
    let p3 = p1 + 8 + enc_users(m.users).len();
    assert(p3 == d.len());
    assert(nb as nat == m.buckets.len());
    assert(nu as nat == m.users.len());
}

// ---------------------------------------------------------------------------
// Reading values back out of bytes
// ---------------------------------------------------------------------------

/// Relies on std's `str::from_utf8`: it returns `Ok` exactly when the bytes
/// are valid UTF-8, and the string it returns then consists of those bytes.
#[verifier::external_body]
fn bytes_to_string(v: &Vec<u8>) -> (r: Option<String>)
    ensures
        match r {
            Some(s) => valid_utf8(v@) && s@ == decode_utf8(v@),
            None => !valid_utf8(v@),
        },
{
    core::str::from_utf8(v.as_slice()).ok().map(|s| s.to_owned())
}

fn read_u64(d: &[u8], pos: usize) -> (r: Option<(u64, usize)>)
    ensures
        match r {
            Some(v) => dec_u64(d@, pos as int) == Some((v.0, v.1 as int)) && v.1 <= d@.len(),
            None => dec_u64(d@, pos as int) is None,
        },
{
    if pos <= d.len() && d.len() - pos >= 8 {
        let sub = slice_subrange(d, pos, pos + 8);
        Some((u64_from_le_bytes(sub), pos + 8))
    } else {
        None
    }
}

fn read_id(d: &[u8], pos: usize) -> (r: Option<(UserId, usize)>)
    ensures
        match r {
            Some(v) => dec_id(d@, pos as int) == Some((v.0, v.1 as int)) && v.1 <= d@.len(),
            None => dec_id(d@, pos as int) is None,
        },
{
    let (w0, p0) = match read_u64(d, pos) {
        Some(v) => v,
        None => {
            return None;
        },
    };
    let (w1, p1) = match read_u64(d, p0) {
        Some(v) => v,
        None => {
            return None;
        },
    };
    let (w2, p2) = match read_u64(d, p1) {
        Some(v) => v,
        None => {
            return None;
        },
    };
    let (w3, p3) = match read_u64(d, p2) {
        Some(v) => v,
        None => {
            return None;
        },
    };
    Some((UserId { w0, w1, w2, w3 }, p3))
}

fn read_str(d: &[u8], pos: usize) -> (r: Option<(String, usize)>)
    ensures
        match r {
            Some(v) => dec_str(d@, pos as int) matches Some(w) && w.0 == v.0@ && w.1 == v.1 as int
                && v.1 <= d@.len(),
            None => dec_str(d@, pos as int) is None,
        },
{
    let (n, p) = match read_u64(d, pos) {
        Some(v) => v,
        None => {
            return None;
        },
    };
    if n > (d.len() - p) as u64 {
        return None;
    }
    let len = n as usize;
    let bytes = slice_to_vec(slice_subrange(d, p, p + len));
    match bytes_to_string(&bytes) {
        Some(s) => Some((s, p + len)),
        None => None,
    }
}

fn read_msg(d: &[u8], pos: usize, poi: usize) -> (r: Option<(Message, usize)>)
    ensures
        match r {
            Some(v) => ({
                &&& dec_msg(d@, pos as int, poi as int) matches Some(w) && w.0 == v.0.model()
                    && w.1 == v.1 as int
                &&& v.0.poi == poi
                &&& v.1 <= d@.len()
            }),
            None => dec_msg(d@, pos as int, poi as int) is None,
        },
{
    let (sender, p0) = match read_id(d, pos) {
        Some(v) => v,
        None => {
            return None;
        },
    };
    let (pw, p1) = match read_u64(d, p0) {
        Some(v) => v,
        None => {
            return None;
        },
    };
    if pw != poi as u64 {
        return None;
    }
    let (tw, p2) = match read_u64(d, p1) {
        Some(v) => v,
        None => {
            return None;
        },
    };
    let (message, p3) = match read_str(d, p2) {
        Some(v) => v,
        None => {
            return None;
        },
    };
    let time = ((tw as i128) - (TIME_BIAS as i128)) as i64;
    proof {
        assert(time as int == dec_time(tw));
    }
    let m = Message { sender, poi, time, message };
    Some((m, p3))
}

fn read_msgs(d: &[u8], pos: usize, n: u64, poi: usize) -> (r: Option<(Vec<Message>, usize)>)
    ensures
        match r {
            Some(v) => ({
                &&& dec_msgs(d@, pos as int, n as nat, poi as int) matches Some(w) && w.0
                    == msgs_model(v.0@) && w.1 == v.1 as int
                &&& forall|k: int| 0 <= k < v.0@.len() ==> (#[trigger] v.0@[k]).poi == poi
            }),
            None => dec_msgs(d@, pos as int, n as nat, poi as int) is None,
        },
{
    let mut acc: Vec<Message> = Vec::new();
    let mut cur = pos;
    let mut k: u64 = 0;
    proof {
        assert(msgs_model(acc@) =~= Seq::<MsgModel>::empty());
    }
    while k < n
        invariant
            k <= n,
            forall|j: int| 0 <= j < acc@.len() ==> (#[trigger] acc@[j]).poi == poi,
            dec_msgs(d@, pos as int, n as nat, poi as int) == (match dec_msgs(
                d@,
                cur as int,
                (n - k) as nat,
                poi as int,
            ) {
                Some(w) => Some((msgs_model(acc@) + w.0, w.1)),
                None => None::<(Seq<MsgModel>, int)>,
            }),
        decreases n - k,
    {
        let (m, p) = match read_msg(d, cur, poi) {
            Some(v) => v,
            None => {
                return None;
            },
        };
        proof {
            let ghost prev = acc@;
            assert(msgs_model(prev.push(m)) =~= msgs_model(prev).push(m.model()));
            match dec_msgs(d@, p as int, (n - k - 1) as nat, poi as int) {
                Some(w) => {
                    assert(msgs_model(prev).push(m.model()) + w.0 =~= msgs_model(prev) + (seq![
                        m.model(),
                    ] + w.0));
                },
                None => {},
            }
        }
        acc.push(m);
        cur = p;
        k = k + 1;
    }
    proof {
        assert(msgs_model(acc@) + Seq::<MsgModel>::empty() =~= msgs_model(acc@));
    }
    Some((acc, cur))
}

fn read_bucket(d: &[u8], pos: usize) -> (r: Option<(Bucket, usize)>)
    ensures
        match r {
            Some(v) => ({
                &&& dec_bucket(d@, pos as int) matches Some(w) && w.0 == v.0.model() && w.1
                    == v.1 as int
                &&& v.0.model().wf()
            }),
            None => dec_bucket(d@, pos as int) is None,
        },
{
    let (pw, p0) = match read_u64(d, pos) {
        Some(v) => v,
        None => {
            return None;
        },
    };
    if pw > usize::MAX as u64 {
        return None;
    }
    let poi = pw as usize;
    let (n, p1) = match read_u64(d, p0) {
        Some(v) => v,
        None => {
            return None;
        },
    };
    let (msgs, q) = match read_msgs(d, p1, n, poi) {
        Some(v) => v,
        None => {
            return None;
        },
    };
    let b = Bucket { poi, msgs };
    proof {
        assert(b.model() =~~= BucketModel { poi: pw as int, msgs: msgs_model(b.msgs@) });
        assert forall|k: int| 0 <= k < b.model().msgs.len() implies (
        #[trigger] b.model().msgs[k]).poi == b.model().poi by {
            assert(b.model().msgs[k] == b.msgs@[k].model());
            assert(b.msgs@[k].poi == poi);
        }
        assert(b.model().wf());
    }
    Some((b, q))
}

fn read_buckets(d: &[u8], pos: usize, n: u64) -> (r: Option<(Vec<Bucket>, usize)>)
    ensures
        match r {
            Some(v) => ({
                &&& dec_buckets(d@, pos as int, n as nat) matches Some(w) && w.0 == buckets_model(
                    v.0@,
                ) && w.1 == v.1 as int
                &&& forall|k: int| 0 <= k < v.0@.len() ==> (#[trigger] v.0@[k]).model().wf()
            }),
            None => dec_buckets(d@, pos as int, n as nat) is None,
        },
{
    let mut acc: Vec<Bucket> = Vec::new();
    let mut cur = pos;
    let mut k: u64 = 0;
    proof {
        assert(buckets_model(acc@) =~= Seq::<BucketModel>::empty());
    }
    while k < n
        invariant
            k <= n,
            forall|j: int| 0 <= j < acc@.len() ==> (#[trigger] acc@[j]).model().wf(),
            dec_buckets(d@, pos as int, n as nat) == (match dec_buckets(
                d@,
                cur as int,
                (n - k) as nat,
            ) {
                Some(w) => Some((buckets_model(acc@) + w.0, w.1)),
                None => None::<(Seq<BucketModel>, int)>,
            }),
        decreases n - k,
    {
        let (b, p) = match read_bucket(d, cur) {
            Some(v) => v,
            None => {
                return None;
            },
        };
        proof {
            let ghost prev = acc@;
            assert(buckets_model(prev.push(b)) =~= buckets_model(prev).push(b.model()));
            match dec_buckets(d@, p as int, (n - k - 1) as nat) {
                Some(w) => {
                    assert(buckets_model(prev).push(b.model()) + w.0 =~= buckets_model(prev)
                        + (seq![b.model()] + w.0));
                },
                None => {},
            }
        }
        acc.push(b);
        cur = p;
        k = k + 1;
    }
    proof {
        assert(buckets_model(acc@) + Seq::<BucketModel>::empty() =~= buckets_model(acc@));
    }
    Some((acc, cur))
}

fn read_user(d: &[u8], pos: usize) -> (r: Option<(UserPrivate, usize)>)
    ensures
        match r {
            Some(v) => ({
                &&& dec_user(d@, pos as int) matches Some(w) && w.0 == v.0.model() && w.1
                    == v.1 as int
                &&& v.1 <= d@.len()
            }),
            None => dec_user(d@, pos as int) is None,
        },
{
    let (id, p0) = match read_id(d, pos) {
        Some(v) => v,
        None => {
            return None;
        },
    };
    let (name, p1) = match read_str(d, p0) {
        Some(v) => v,
        None => {
            return None;
        },
    };
    let (pw, p2) = match read_u64(d, p1) {
        Some(v) => v,
        None => {
            return None;
        },
    };
    if pw > usize::MAX as u64 {
        return None;
    }
    Some((UserPrivate { name, points: pw as usize, id_private: id }, p2))
}

fn read_users(d: &[u8], pos: usize, n: u64) -> (r: Option<(Vec<UserPrivate>, usize)>)
    ensures
        match r {
            Some(v) => ({
                &&& dec_users(d@, pos as int, n as nat) matches Some(w) && w.0 == users_model(
                    v.0@,
                ) && w.1 == v.1 as int
            }),
            None => dec_users(d@, pos as int, n as nat) is None,
        },
{
    let mut acc: Vec<UserPrivate> = Vec::new();
    let mut cur = pos;
    let mut k: u64 = 0;
    proof {
        assert(users_model(acc@) =~= Seq::<UserModel>::empty());
    }
    while k < n
        invariant
            k <= n,
            dec_users(d@, pos as int, n as nat) == (match dec_users(
                d@,
                cur as int,
                (n - k) as nat,
            ) {
                Some(w) => Some((users_model(acc@) + w.0, w.1)),
                None => None::<(Seq<UserModel>, int)>,
            }),
        decreases n - k,
    {
        let (u, p) = match read_user(d, cur) {
            Some(v) => v,
            None => {
                return None;
            },
        };
        proof {
            let ghost prev = acc@;
            assert(users_model(prev.push(u)) =~= users_model(prev).push(u.model()));
            match dec_users(d@, p as int, (n - k - 1) as nat) {
                Some(w) => {
                    assert(users_model(prev).push(u.model()) + w.0 =~= users_model(prev) + (seq![
                        u.model(),
                    ] + w.0));
                },
                None => {},
            }
        }
        acc.push(u);
        cur = p;
        k = k + 1;
    }
    proof {
        assert(users_model(acc@) + Seq::<UserModel>::empty() =~= users_model(acc@));
    }
    Some((acc, cur))
}

/// Whether all POI indices in a bucket list are pairwise distinct.
fn pois_unique(bs: &Vec<Bucket>) -> (r: bool)
    ensures
        r == (forall|a: int, b: int|
            0 <= a < b < bs@.len() ==> (#[trigger] bs@[a]).poi != (#[trigger] bs@[b]).poi),
{
    let n = bs.len();
    let mut i: usize = 0;
    while i < n
        invariant
            i <= n,
            n == bs@.len(),
            forall|a: int, b: int|
                0 <= a < b < n && a < i ==> (#[trigger] bs@[a]).poi != (#[trigger] bs@[b]).poi,
        decreases n - i,
    {
        let mut j = i + 1;
        while j < n
            invariant
                i < n,
                i < j <= n,
                n == bs@.len(),
                forall|a: int, b: int|
                    0 <= a < b < n && a < i ==> (#[trigger] bs@[a]).poi != (#[trigger] bs@[b]).poi,
                forall|b: int| i < b < j ==> (#[trigger] bs@[b]).poi != bs@[i as int].poi,
            decreases n - j,
        {
            if bs[i].poi == bs[j].poi {
                return false;
            }
            j += 1;
        }
        i += 1;
    }
    true
}

/// Whether all private identifiers in a registry list are pairwise distinct.
fn ids_unique(us: &Vec<UserPrivate>) -> (r: bool)
    ensures
        r == (forall|a: int, b: int|
            0 <= a < b < us@.len() ==> (#[trigger] us@[a]).id_private != (
            #[trigger] us@[b]).id_private),
{
    let n = us.len();
    let mut i: usize = 0;
    while i < n
        invariant
            i <= n,
            n == us@.len(),
            forall|a: int, b: int|
                0 <= a < b < n && a < i ==> (#[trigger] us@[a]).id_private != (
                #[trigger] us@[b]).id_private,
        decreases n - i,
    {
        let mut j = i + 1;
        while j < n
            invariant
                i < n,
                i < j <= n,
                n == us@.len(),
                forall|a: int, b: int|
                    0 <= a < b < n && a < i ==> (#[trigger] us@[a]).id_private != (
                    #[trigger] us@[b]).id_private,
                forall|b: int| i < b < j ==> (#[trigger] us@[b]).id_private != us@[
                    i as int
                ].id_private,
            decreases n - j,
        {
            if us[i].id_private == us[j].id_private {
                return false;
            }
            j += 1;
        }
        i += 1;
    }
    true
}

/// Parses a whole store's contents out of bytes, or rejects them.
fn decode_store(d: &[u8]) -> (r: Option<(Vec<Bucket>, Vec<UserPrivate>)>)
    ensures
        match r {
            Some(v) => ({
                let m = StoreModel { buckets: buckets_model(v.0@), users: users_model(v.1@) };
                &&& dec_store(d@) == Some(m)
                &&& m.wf()
            }),
            None => dec_store(d@) is None,
        },
{
    if d.len() < 1 {
        return None;
    }
    let ver = *slice_index_get(d, 0);
    if ver != STORE_FORMAT_VERSION {
        return None;
    }
    let (nb, p0) = match read_u64(d, 1) {
        Some(v) => v,
        None => {
            return None;
        },
    };
    let (bs, p1) = match read_buckets(d, p0, nb) {
        Some(v) => v,
        None => {
            return None;
        },
    };
    let (nu, p2) = match read_u64(d, p1) {
        Some(v) => v,
        None => {
            return None;
        },
    };
    let (us, p3) = match read_users(d, p2, nu) {
        Some(v) => v,
        None => {
            return None;
        },
    };
    let ghost m = StoreModel { buckets: buckets_model(bs@), users: users_model(us@) };
    if p3 != d.len() {
        proof {
            assert(!(p3 as int == d@.len() && m.wf()));
        }
        return None;
    }
    if !pois_unique(&bs) {
        proof {
            let (a, b) = choose|a: int, b: int|
                0 <= a < b < bs@.len() && (#[trigger] bs@[a]).poi == (#[trigger] bs@[b]).poi;
            assert(m.buckets[a].poi == m.buckets[b].poi);
            assert(!m.wf());
        }
        return None;
    }
    if !ids_unique(&us) {
        proof {
            let (a, b) = choose|a: int, b: int|
                0 <= a < b < us@.len() && (#[trigger] us@[a]).id_private == (
                #[trigger] us@[b]).id_private;
            assert(m.users[a].id == m.users[b].id);
            assert(!m.wf());
        }
        return None;
    }
    proof {
        assert forall|a: int, b: int|
            0 <= a < b < m.buckets.len() implies (#[trigger] m.buckets[a]).poi != (
        #[trigger] m.buckets[b]).poi by {
            assert(bs@[a].poi != bs@[b].poi);
        }
        assert forall|a: int, b: int|
            0 <= a < b < m.users.len() implies (#[trigger] m.users[a]).id != (
        #[trigger] m.users[b]).id by {
            assert(us@[a].id_private != us@[b].id_private);
        }
        assert forall|a: int| 0 <= a < m.buckets.len() implies (#[trigger] m.buckets[a]).wf() by {
            assert(bs@[a].model().wf());
        }
        assert(m.wf());
    }
    Some((bs, us))
}

impl Storage {
    /// Rebuilds a store from the bytes of its file. Bytes that do not parse
    /// as a complete, well-formed store yield a fresh empty store bound to
    /// the path: that is deliberate bootstrap behaviour, not an error, and it
    /// means a corrupted file is silently replaced by the next save.
    pub fn load(path: String, data: &[u8]) -> (s: Storage)
        ensures
            s.wf(),
            s.spec_path() == path@,
            (dec_store(data@) matches Some(m) ==> s.model() == m),
            dec_store(data@) is None ==> s.model() == StoreModel::empty(),
    {
        match decode_store(data) {
            Some((messages, private_users)) => {
                let s = Storage { messages, private_users, path };
                proof {
                    match dec_store(data@) {
                        Some(m) => {
                            assert(s.model() =~~= m);
                        },
                        None => {},
                    }
                }
                s
            },
            None => Storage::new(path),
        }
    }
}

// ---------------------------------------------------------------------------
// Writing values out as bytes
// ---------------------------------------------------------------------------

fn write_u64(out: &mut Vec<u8>, x: u64)
    ensures
        final(out)@ == old(out)@ + enc_u64(x),
{
    let mut b = u64_to_le_bytes(x);
    out.append(&mut b);
}

fn write_id(out: &mut Vec<u8>, id: &UserId)
    ensures
        final(out)@ == old(out)@ + enc_id(*id),
{
    write_u64(out, id.w0);
    write_u64(out, id.w1);
    write_u64(out, id.w2);
    write_u64(out, id.w3);
    proof {
        assert(out@ =~= old(out)@ + enc_id(*id));
    }
}

fn write_str(out: &mut Vec<u8>, s: &String)
    ensures
        final(out)@ == old(out)@ + enc_str(s@),
        encode_utf8(s@).len() <= u64::MAX as int,
{
    let mut bytes = s.as_str().as_bytes_vec();
    write_u64(out, bytes.len() as u64);
    out.append(&mut bytes);
    proof {
        assert(out@ =~= old(out)@ + enc_str(s@));
    }
}

fn write_msg(out: &mut Vec<u8>, m: &Message)
    ensures
        final(out)@ == old(out)@ + enc_msg(m.model()),
        msg_fits(m.model()),
{
    write_id(out, &m.sender);
    write_u64(out, m.poi as u64);
    let tw = ((m.time as i128) + (TIME_BIAS as i128)) as u64;
    proof {
        assert(tw == enc_time(m.time as int));
    }
    write_u64(out, tw);
    write_str(out, &m.message);
    proof {
        assert(out@ =~= old(out)@ + enc_msg(m.model()));
    }
}

fn write_bucket(out: &mut Vec<u8>, b: &Bucket)
    ensures
        final(out)@ == old(out)@ + enc_bucket(b.model()),
        bucket_fits(b.model()),
{
    let ghost ms = b.model().msgs;
    write_u64(out, b.poi as u64);
    let n = b.msgs.len();
    write_u64(out, n as u64);
    let ghost start = out@;
    let mut j: usize = 0;
    proof {
        assert(ms.take(0) =~= Seq::<MsgModel>::empty());
    }
    while j < n
        invariant
            n == b.msgs@.len(),
            ms == b.model().msgs,
            ms.len() == n,
            j <= n,
            out@ == start + enc_msgs(ms.take(j as int)),
            forall|k: int| 0 <= k < j ==> msg_fits(#[trigger] ms[k]),
        decreases n - j,
    {
        proof {
            assert(ms.take(j + 1) =~= ms.take(j as int).push(ms[j as int]));
            lemma_enc_msgs_push(ms.take(j as int), ms[j as int]);
        }
        write_msg(out, &b.msgs[j]);
        j += 1;
    }
    proof {
        assert(ms.take(n as int) =~= ms);
        assert(out@ =~= old(out)@ + enc_bucket(b.model()));
    }
}

fn write_user(out: &mut Vec<u8>, u: &UserPrivate)
    ensures
        final(out)@ == old(out)@ + enc_user(u.model()),
        user_fits(u.model()),
{
    write_id(out, &u.id_private);
    write_str(out, &u.name);
    write_u64(out, u.points as u64);
    proof {
        assert(out@ =~= old(out)@ + enc_user(u.model()));
    }
}

impl Storage {
    /// Serializes the store's contents (not the path it is bound to) to the
    /// bytes the file should hold. Decoding those bytes gives the contents
    /// back exactly.
    pub fn save_bytes(&self) -> (r: Vec<u8>)
        requires
            self.wf(),
        ensures
            r@ == enc_store(self.model()),
            store_fits(self.model()),
            dec_store(r@) == Some(self.model()),
    {
        let ghost bs = self.model().buckets;
        let ghost us = self.model().users;
        let mut out: Vec<u8> = Vec::new();
        out.push(STORE_FORMAT_VERSION);
        let nb = self.messages.len();
        write_u64(&mut out, nb as u64);
        let ghost start_b = out@;
        let mut i: usize = 0;
        proof {
            assert(bs.take(0) =~= Seq::<BucketModel>::empty());
        }
        while i < nb
            invariant
                nb == self.messages@.len(),
                bs == self.model().buckets,
                bs.len() == nb,
                i <= nb,
                out@ == start_b + enc_buckets(bs.take(i as int)),
                forall|k: int| 0 <= k < i ==> bucket_fits(#[trigger] bs[k]),
            decreases nb - i,
        {
            proof {
                assert(bs.take(i + 1) =~= bs.take(i as int).push(bs[i as int]));
                lemma_enc_buckets_push(bs.take(i as int), bs[i as int]);
            }
            write_bucket(&mut out, &self.messages[i]);
            i += 1;
        }
        proof {
            assert(bs.take(nb as int) =~= bs);
        }
        let nu = self.private_users.len();
        write_u64(&mut out, nu as u64);
        let ghost start_u = out@;
        let mut j: usize = 0;
        proof {
            assert(us.take(0) =~= Seq::<UserModel>::empty());
        }
        while j < nu
            invariant
                nu == self.private_users@.len(),
                us == self.model().users,
                us.len() == nu,
                j <= nu,
                out@ == start_u + enc_users(us.take(j as int)),
                forall|k: int| 0 <= k < j ==> user_fits(#[trigger] us[k]),
            decreases nu - j,
        {
            proof {
                assert(us.take(j + 1) =~= us.take(j as int).push(us[j as int]));
                lemma_enc_users_push(us.take(j as int), us[j as int]);
            }
            write_user(&mut out, &self.private_users[j]);
            j += 1;
        }
        proof {
            assert(us.take(nu as int) =~= us);
            assert(store_fits(self.model()));
            assert(out@ =~= enc_store(self.model()));
            lemma_store_round_trip(self.model());
        }
        out
    }
}

} // verus!
