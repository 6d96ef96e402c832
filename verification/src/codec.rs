use vstd::prelude::*;

use crate::id::Id;
use crate::message::{strings_of, views_of, Entry, EntryV, Message, MessageType, MessageTypeV,
    MessageV};
use crate::sequence_num::SequenceNumber;
use vstd::string::StrSliceExecFns;
use vstd::utf8::{decode_utf8, encode_utf8, valid_utf8};

verus! {

// ---------------------------------------------------------------------
// The frame format, as a mathematical function of a message's value:
// fixed-width big-endian integers, length-prefixed UTF-8 strings and
// length-prefixed lists, one tag byte per payload kind.
// ---------------------------------------------------------------------
pub open spec fn enc_u16(v: u16) -> Seq<u8> {
    seq![(v >> 8) as u8, v as u8]
}

pub open spec fn enc_u64(v: u64) -> Seq<u8> {
    seq![
        (v >> 56) as u8,
        (v >> 48) as u8,
        (v >> 40) as u8,
        (v >> 32) as u8,
        (v >> 24) as u8,
        (v >> 16) as u8,
        (v >> 8) as u8,
        v as u8,
    ]
}

/// A signed level travels shifted into the unsigned range.
pub open spec fn enc_i16(v: i16) -> Seq<u8> {
    enc_u16(((v as int) + 32768) as u16)
}

pub open spec fn enc_bool(v: bool) -> Seq<u8> {
    seq![if v { 1u8 } else { 0u8 }]
}

pub open spec fn enc_string(s: Seq<char>) -> Seq<u8> {
    enc_u64(encode_utf8(s).len() as u64) + encode_utf8(s)
}

pub open spec fn enc_entry(e: EntryV) -> Seq<u8> {
    enc_u16(e.id.tmp) + enc_u64(e.seq) + enc_string(e.key) + enc_string(e.val)
}

pub open spec fn enc_entries(es: Seq<EntryV>, i: int) -> Seq<u8>
    decreases es.len() - i,
{
    if i < 0 || i >= es.len() {
        Seq::empty()
    } else {
        enc_entry(es[i]) + enc_entries(es, i + 1)
    }
}

pub open spec fn enc_strings(ss: Seq<Seq<char>>, i: int) -> Seq<u8>
    decreases ss.len() - i,
{
    if i < 0 || i >= ss.len() {
        Seq::empty()
    } else {
        enc_string(ss[i]) + enc_strings(ss, i + 1)
    }
}

pub open spec fn enc_msg_type(mt: MessageTypeV) -> Seq<u8> {
    match mt {
        MessageTypeV::Verify(c, pad) => seq![1u8] + enc_string(c) + pad,
        MessageTypeV::Verified(c, n) => seq![2u8] + enc_string(c) + enc_bool(n),
        MessageTypeV::Get { key, count } => seq![3u8] + enc_string(key) + enc_u64(count as u64),
        MessageTypeV::Values(es) => seq![4u8] + enc_u64(es.len() as u64) + enc_entries(es, 0),
        MessageTypeV::SetEntry(e) => seq![5u8] + enc_entry(e),
        MessageTypeV::Link(a) => seq![6u8] + enc_string(a),
        MessageTypeV::Neighbors(ss) => seq![7u8] + enc_u64(ss.len() as u64) + enc_strings(ss, 0),
        MessageTypeV::GetTrust => seq![8u8],
        MessageTypeV::Trust(of, d) => seq![9u8] + enc_u16(of.tmp) + enc_i16(d),
    }
}

pub open spec fn enc_message(m: MessageV) -> Seq<u8> {
    enc_u16(m.from.tmp) + enc_msg_type(m.msg_type)
}

/// A message value that a machine-held [`Message`] can represent: its
/// padding is exactly 16 bytes, its lists and string encodings fit the
/// length prefixes.
pub open spec fn wf_string(s: Seq<char>) -> bool {
    encode_utf8(s).len() <= u64::MAX
}

pub open spec fn wf_entry(e: EntryV) -> bool {
    wf_string(e.key) && wf_string(e.val)
}

pub open spec fn wf_msgv(m: MessageV) -> bool {
    match m.msg_type {
        MessageTypeV::Verify(c, pad) => wf_string(c) && pad.len() == 16,
        MessageTypeV::Verified(c, _) => wf_string(c),
        MessageTypeV::Get { key, count } => wf_string(key) && count <= u64::MAX,
        MessageTypeV::Values(es) => es.len() <= u64::MAX && (forall|i: int|
            0 <= i < es.len() ==> wf_entry(#[trigger] es[i])),
        MessageTypeV::SetEntry(e) => wf_entry(e),
        MessageTypeV::Link(a) => wf_string(a),
        MessageTypeV::Neighbors(ss) => ss.len() <= u64::MAX && (forall|i: int|
            0 <= i < ss.len() ==> wf_string(#[trigger] ss[i])),
        MessageTypeV::GetTrust => true,
        MessageTypeV::Trust(_, _) => true,
    }
}

// ---------------------------------------------------------------------
// The decoder, as a mathematical function over a byte sequence and a
// cursor. A frame decodes to `Some` exactly when it is well-formed and
// fully consumed.
// ---------------------------------------------------------------------
pub open spec fn combine16(b0: u8, b1: u8) -> u16 {
    (((b0 as u16) << 8) | (b1 as u16)) as u16
}

pub open spec fn dec_u16_at(b: Seq<u8>, pos: int) -> Option<(u16, int)> {
    if pos < 0 || pos + 2 > b.len() {
        None
    } else {
        Some((combine16(b[pos], b[pos + 1]), pos + 2))
    }
}

pub open spec fn combine64(b: Seq<u8>, pos: int) -> u64 {
    (((b[pos] as u64) << 56) | ((b[pos + 1] as u64) << 48) | ((b[pos + 2] as u64) << 40) | ((b[pos
        + 3] as u64) << 32) | ((b[pos + 4] as u64) << 24) | ((b[pos + 5] as u64) << 16) | ((b[pos
        + 6] as u64) << 8) | (b[pos + 7] as u64)) as u64
}

pub open spec fn dec_u64_at(b: Seq<u8>, pos: int) -> Option<(u64, int)> {
    if pos < 0 || pos + 8 > b.len() {
        None
    } else {
        Some((combine64(b, pos), pos + 8))
    }
}

pub open spec fn dec_i16_at(b: Seq<u8>, pos: int) -> Option<(i16, int)> {
    match dec_u16_at(b, pos) {
        None => None,
        Some((u, p)) => Some((((u as int) - 32768) as i16, p)),
    }
}

pub open spec fn dec_bool_at(b: Seq<u8>, pos: int) -> Option<(bool, int)> {
    if pos < 0 || pos + 1 > b.len() {
        None
    } else if b[pos] == 0 {
        Some((false, pos + 1))
    } else if b[pos] == 1 {
        Some((true, pos + 1))
    } else {
        None
    }
}

pub open spec fn dec_pad_at(b: Seq<u8>, pos: int) -> Option<(Seq<u8>, int)> {
    if pos < 0 || pos + 16 > b.len() {
        None
    } else {
        Some((b.subrange(pos, pos + 16), pos + 16))
    }
}

pub open spec fn dec_string_at(b: Seq<u8>, pos: int) -> Option<(Seq<char>, int)> {
    match dec_u64_at(b, pos) {
        None => None,
        Some((len, p1)) => {
            let l = len as int;
            if p1 + l > b.len() {
                None
            } else {
                let bs = b.subrange(p1, p1 + l);
                if valid_utf8(bs) {
                    Some((decode_utf8(bs), p1 + l))
                } else {
                    None
                }
            }
        },
    }
}

pub open spec fn dec_entry_at(b: Seq<u8>, pos: int) -> Option<(EntryV, int)> {
    match dec_u16_at(b, pos) {
        None => None,
        Some((tmp, p1)) => match dec_u64_at(b, p1) {
            None => None,
            Some((sq, p2)) => match dec_string_at(b, p2) {
                None => None,
                Some((key, p3)) => match dec_string_at(b, p3) {
                    None => None,
                    Some((val, p4)) => Some(
                        (EntryV { id: Id { tmp }, seq: sq, key, val }, p4),
                    ),
                },
            },
        },
    }
}

pub open spec fn dec_entries_at(b: Seq<u8>, pos: int, count: int) -> Option<(Seq<EntryV>, int)>
    decreases count,
{
    if count <= 0 {
        Some((Seq::empty(), pos))
    } else {
        match dec_entry_at(b, pos) {
            None => None,
            Some((e, p1)) => match dec_entries_at(b, p1, count - 1) {
                None => None,
                Some((es, p2)) => Some((seq![e] + es, p2)),
            },
        }
    }
}

pub open spec fn dec_strings_at(b: Seq<u8>, pos: int, count: int) -> Option<(Seq<Seq<char>>, int)>
    decreases count,
{
    if count <= 0 {
        Some((Seq::empty(), pos))
    } else {
        match dec_string_at(b, pos) {
            None => None,
            Some((s, p1)) => match dec_strings_at(b, p1, count - 1) {
                None => None,
                Some((ss, p2)) => Some((seq![s] + ss, p2)),
            },
        }
    }
}

pub open spec fn dec_msg_type_at(b: Seq<u8>, pos: int) -> Option<(MessageTypeV, int)> {
    if pos < 0 || pos + 1 > b.len() {
        None
    } else {
        let tag = b[pos];
        let p0 = pos + 1;
        if tag == 1 {
            match dec_string_at(b, p0) {
                None => None,
                Some((c, p1)) => match dec_pad_at(b, p1) {
                    None => None,
                    Some((pad, p2)) => Some((MessageTypeV::Verify(c, pad), p2)),
                },
            }
        } else if tag == 2 {
            match dec_string_at(b, p0) {
                None => None,
                Some((c, p1)) => match dec_bool_at(b, p1) {
                    None => None,
                    Some((n, p2)) => Some((MessageTypeV::Verified(c, n), p2)),
                },
            }
        } else if tag == 3 {
            match dec_string_at(b, p0) {
                None => None,
                Some((key, p1)) => match dec_u64_at(b, p1) {
                    None => None,
                    Some((count, p2)) => if count <= usize::MAX as u64 {
                        Some((MessageTypeV::Get { key, count: count as usize }, p2))
                    } else {
                        None
                    },
                },
            }
        } else if tag == 4 {
            match dec_u64_at(b, p0) {
                None => None,
                Some((count, p1)) => match dec_entries_at(b, p1, count as int) {
                    None => None,
                    Some((es, p2)) => Some((MessageTypeV::Values(es), p2)),
                },
            }
        } else if tag == 5 {
            match dec_entry_at(b, p0) {
                None => None,
                Some((e, p1)) => Some((MessageTypeV::SetEntry(e), p1)),
            }
        } else if tag == 6 {
            match dec_string_at(b, p0) {
                None => None,
                Some((a, p1)) => Some((MessageTypeV::Link(a), p1)),
            }
        } else if tag == 7 {
            match dec_u64_at(b, p0) {
                None => None,
                Some((count, p1)) => match dec_strings_at(b, p1, count as int) {
                    None => None,
                    Some((ss, p2)) => Some((MessageTypeV::Neighbors(ss), p2)),
                },
            }
        } else if tag == 8 {
            Some((MessageTypeV::GetTrust, p0))
        } else if tag == 9 {
            match dec_u16_at(b, p0) {
                None => None,
                Some((tmp, p1)) => match dec_i16_at(b, p1) {
                    None => None,
                    Some((d, p2)) => Some((MessageTypeV::Trust(Id { tmp }, d), p2)),
                },
            }
        } else {
            None
        }
    }
}

/// The whole-frame decoder: sender tag, payload, nothing trailing.
pub open spec fn dec_message(b: Seq<u8>) -> Option<MessageV> {
    match dec_u16_at(b, 0) {
        None => None,
        Some((tmp, p1)) => match dec_msg_type_at(b, p1) {
            None => None,
            Some((mt, p2)) => if p2 == b.len() {
                Some(MessageV { from: Id { tmp }, msg_type: mt })
            } else {
                None
            },
        },
    }
}

// ---------------------------------------------------------------------
// Decoding inverts encoding: each piece, read back out of any byte
// sequence that embeds it, yields the encoded value and lands just past
// it.
// ---------------------------------------------------------------------
proof fn lemma_dec_u16(b: Seq<u8>, pos: int, v: u16)
    requires
        0 <= pos,
        pos + 2 <= b.len(),
        b.subrange(pos, pos + 2) == enc_u16(v),
    ensures
        dec_u16_at(b, pos) == Some((v, pos + 2)),
{
    assert(b[pos] == enc_u16(v)[0]);
    assert(b[pos + 1] == enc_u16(v)[1]);
    assert(combine16((v >> 8) as u8, v as u8) == v) by (bit_vector);
}

proof fn lemma_dec_u64(b: Seq<u8>, pos: int, v: u64)
    requires
        0 <= pos,
        pos + 8 <= b.len(),
        b.subrange(pos, pos + 8) == enc_u64(v),
    ensures
        dec_u64_at(b, pos) == Some((v, pos + 8)),
{
    assert(b[pos] == enc_u64(v)[0]);
    assert(b[pos + 1] == enc_u64(v)[1]);
    assert(b[pos + 2] == enc_u64(v)[2]);
    assert(b[pos + 3] == enc_u64(v)[3]);
    assert(b[pos + 4] == enc_u64(v)[4]);
    assert(b[pos + 5] == enc_u64(v)[5]);
    assert(b[pos + 6] == enc_u64(v)[6]);
    assert(b[pos + 7] == enc_u64(v)[7]);
    assert((((((v >> 56) as u8) as u64) << 56) | ((((v >> 48) as u8) as u64) << 48) | ((((v >> 40)
        as u8) as u64) << 40) | ((((v >> 32) as u8) as u64) << 32) | ((((v >> 24) as u8) as u64)
        << 24) | ((((v >> 16) as u8) as u64) << 16) | ((((v >> 8) as u8) as u64) << 8) | ((v
        as u8) as u64)) as u64 == v) by (bit_vector);
}

proof fn lemma_dec_i16(b: Seq<u8>, pos: int, v: i16)
    requires
        0 <= pos,
        pos + 2 <= b.len(),
        b.subrange(pos, pos + 2) == enc_i16(v),
    ensures
        dec_i16_at(b, pos) == Some((v, pos + 2)),
{
    let u = ((v as int) + 32768) as u16;
    lemma_dec_u16(b, pos, u);
    assert(((u as int) - 32768) as i16 == v);
}

proof fn lemma_dec_bool(b: Seq<u8>, pos: int, v: bool)
    requires
        0 <= pos,
        pos + 1 <= b.len(),
        b.subrange(pos, pos + 1) == enc_bool(v),
    ensures
        dec_bool_at(b, pos) == Some((v, pos + 1)),
{
    assert(b[pos] == enc_bool(v)[0]);
}

/// A window into an embedded block equals the block's own window.
proof fn lemma_sub_transfer(b: Seq<u8>, pos: int, total: Seq<u8>, lo: int, hi: int)
    requires
        0 <= pos,
        pos + total.len() <= b.len(),
        b.subrange(pos, pos + total.len()) == total,
        0 <= lo <= hi <= total.len(),
    ensures
        b.subrange(pos + lo, pos + hi) == total.subrange(lo, hi),
{
    assert forall|i: int| 0 <= i < hi - lo implies b.subrange(pos + lo, pos + hi)[i]
        == total.subrange(lo, hi)[i] by {
        assert(b.subrange(pos, pos + total.len())[lo + i] == total[lo + i]);
        assert(b.subrange(pos + lo, pos + hi)[i] == b[pos + lo + i]);
    }
    assert(b.subrange(pos + lo, pos + hi) =~= total.subrange(lo, hi));
}

proof fn lemma_dec_string(b: Seq<u8>, pos: int, s: Seq<char>)
    requires
        0 <= pos,
        wf_string(s),
        pos + enc_string(s).len() <= b.len(),
        b.subrange(pos, pos + enc_string(s).len()) == enc_string(s),
    ensures
        dec_string_at(b, pos) == Some((s, pos + enc_string(s).len())),
{
    let eb = encode_utf8(s);
    let l = eb.len() as int;
    let total = enc_string(s);
    lemma_sub_transfer(b, pos, total, 0, 8);
    assert(total.subrange(0, 8) =~= enc_u64(eb.len() as u64));
    lemma_dec_u64(b, pos, eb.len() as u64);
    assert((eb.len() as u64) as int == l);
    lemma_sub_transfer(b, pos, total, 8, 8 + l);
    assert(total.subrange(8, 8 + l) =~= eb);
    assert(b.subrange(pos + 8, pos + 8 + l) == eb);
    vstd::utf8::encode_utf8_valid_utf8(s);
    vstd::utf8::encode_utf8_decode_utf8(s);
    assert(valid_utf8(eb));
    assert(decode_utf8(eb) == s);
}

proof fn lemma_dec_pad(b: Seq<u8>, pos: int, pad: Seq<u8>)
    requires
        0 <= pos,
        pad.len() == 16,
        pos + 16 <= b.len(),
        b.subrange(pos, pos + 16) == pad,
    ensures
        dec_pad_at(b, pos) == Some((pad, pos + 16)),
{
}

proof fn lemma_dec_entry(b: Seq<u8>, pos: int, e: EntryV)
    requires
        0 <= pos,
        wf_entry(e),
        pos + enc_entry(e).len() <= b.len(),
        b.subrange(pos, pos + enc_entry(e).len()) == enc_entry(e),
    ensures
        dec_entry_at(b, pos) == Some((e, pos + enc_entry(e).len())),
{
    let pa = enc_u16(e.id.tmp);
    let pb = enc_u64(e.seq);
    let pk = enc_string(e.key);
    let pv = enc_string(e.val);
    let total = enc_entry(e);
    let la = pa.len() as int;
    let lb = pb.len() as int;
    let lk = pk.len() as int;
    let lv = pv.len() as int;
    lemma_sub_transfer(b, pos, total, 0, la);
    assert(total.subrange(0, la) =~= pa);
    lemma_sub_transfer(b, pos, total, la, la + lb);
    assert(total.subrange(la, la + lb) =~= pb);
    lemma_sub_transfer(b, pos, total, la + lb, la + lb + lk);
    assert(total.subrange(la + lb, la + lb + lk) =~= pk);
    lemma_sub_transfer(b, pos, total, la + lb + lk, la + lb + lk + lv);
    assert(total.subrange(la + lb + lk, la + lb + lk + lv) =~= pv);
    let p1 = pos + la;
    let p2 = p1 + lb;
    let p3 = p2 + lk;
    let p4 = p3 + lv;
    lemma_dec_u16(b, pos, e.id.tmp);
    lemma_dec_u64(b, p1, e.seq);
    lemma_dec_string(b, p2, e.key);
    lemma_dec_string(b, p3, e.val);
    assert(Id { tmp: e.id.tmp } == e.id);
    assert(EntryV { id: e.id, seq: e.seq, key: e.key, val: e.val } =~= e);
}

proof fn lemma_dec_entries(b: Seq<u8>, pos: int, es: Seq<EntryV>, i: int)
    requires
        0 <= i <= es.len(),
        0 <= pos,
        forall|j: int| i <= j < es.len() ==> wf_entry(#[trigger] es[j]),
        pos + enc_entries(es, i).len() <= b.len(),
        b.subrange(pos, pos + enc_entries(es, i).len()) == enc_entries(es, i),
    ensures
        dec_entries_at(b, pos, es.len() - i) == Some((es.skip(i), pos + enc_entries(es, i).len())),
    decreases es.len() - i,
{
    if i == es.len() {
        assert(es.skip(i) =~= Seq::<EntryV>::empty());
    } else {
        let head = enc_entry(es[i]);
        let rest = enc_entries(es, i + 1);
        let total = enc_entries(es, i);
        let lh = head.len() as int;
        let lr = rest.len() as int;
        assert(total == head + rest);
        lemma_sub_transfer(b, pos, total, 0, lh);
        assert(total.subrange(0, lh) =~= head);
        lemma_sub_transfer(b, pos, total, lh, lh + lr);
        assert(total.subrange(lh, lh + lr) =~= rest);
        let p1 = pos + lh;
        lemma_dec_entry(b, pos, es[i]);
        lemma_dec_entries(b, p1, es, i + 1);
        assert(seq![es[i]] + es.skip(i + 1) =~= es.skip(i));
    }
}

proof fn lemma_dec_strings(b: Seq<u8>, pos: int, ss: Seq<Seq<char>>, i: int)
    requires
        0 <= i <= ss.len(),
        0 <= pos,
        forall|j: int| i <= j < ss.len() ==> wf_string(#[trigger] ss[j]),
        pos + enc_strings(ss, i).len() <= b.len(),
        b.subrange(pos, pos + enc_strings(ss, i).len()) == enc_strings(ss, i),
    ensures
        dec_strings_at(b, pos, ss.len() - i) == Some((ss.skip(i), pos + enc_strings(ss, i).len())),
    decreases ss.len() - i,
{
    if i == ss.len() {
        assert(ss.skip(i) =~= Seq::<Seq<char>>::empty());
    } else {
        let head = enc_string(ss[i]);
        let rest = enc_strings(ss, i + 1);
        let total = enc_strings(ss, i);
        let lh = head.len() as int;
        let lr = rest.len() as int;
        assert(total == head + rest);
        lemma_sub_transfer(b, pos, total, 0, lh);
        assert(total.subrange(0, lh) =~= head);
        lemma_sub_transfer(b, pos, total, lh, lh + lr);
        assert(total.subrange(lh, lh + lr) =~= rest);
        let p1 = pos + lh;
        lemma_dec_string(b, pos, ss[i]);
        lemma_dec_strings(b, p1, ss, i + 1);
        assert(seq![ss[i]] + ss.skip(i + 1) =~= ss.skip(i));
    }
}

proof fn lemma_tag(b: Seq<u8>, pos: int, total: Seq<u8>)
    requires
        0 <= pos,
        total.len() >= 1,
        pos + total.len() <= b.len(),
        b.subrange(pos, pos + total.len()) == total,
    ensures
        b[pos] == total[0],
{
    assert(b.subrange(pos, pos + total.len())[0] == total[0]);
}

proof fn lemma_dec_mt_verify(b: Seq<u8>, pos: int, c: Seq<char>, pad: Seq<u8>)
    requires
        0 <= pos,
        wf_string(c),
        pad.len() == 16,
        pos + enc_msg_type(MessageTypeV::Verify(c, pad)).len() <= b.len(),
        b.subrange(pos, pos + enc_msg_type(MessageTypeV::Verify(c, pad)).len()) == enc_msg_type(
            MessageTypeV::Verify(c, pad),
        ),
    ensures
        dec_msg_type_at(b, pos) == Some(
            (MessageTypeV::Verify(c, pad), pos + enc_msg_type(MessageTypeV::Verify(c, pad)).len()),
        ),
{
    let total = enc_msg_type(MessageTypeV::Verify(c, pad));
    lemma_tag(b, pos, total);
    let p0 = pos + 1;
    let lc = enc_string(c).len() as int;
    lemma_sub_transfer(b, pos, total, 1, 1 + lc);
    assert(total.subrange(1, 1 + lc) =~= enc_string(c));
    lemma_sub_transfer(b, pos, total, 1 + lc, 1 + lc + 16);
    assert(total.subrange(1 + lc, 1 + lc + 16) =~= pad);
    lemma_dec_string(b, p0, c);
    lemma_dec_pad(b, p0 + lc, pad);
}

proof fn lemma_dec_mt_verified(b: Seq<u8>, pos: int, c: Seq<char>, n: bool)
    requires
        0 <= pos,
        wf_string(c),
        pos + enc_msg_type(MessageTypeV::Verified(c, n)).len() <= b.len(),
        b.subrange(pos, pos + enc_msg_type(MessageTypeV::Verified(c, n)).len()) == enc_msg_type(
            MessageTypeV::Verified(c, n),
        ),
    ensures
        dec_msg_type_at(b, pos) == Some(
            (MessageTypeV::Verified(c, n), pos + enc_msg_type(
                MessageTypeV::Verified(c, n),
            ).len()),
        ),
{
    let total = enc_msg_type(MessageTypeV::Verified(c, n));
    lemma_tag(b, pos, total);
    let p0 = pos + 1;
    let lc = enc_string(c).len() as int;
    lemma_sub_transfer(b, pos, total, 1, 1 + lc);
    assert(total.subrange(1, 1 + lc) =~= enc_string(c));
    lemma_sub_transfer(b, pos, total, 1 + lc, 1 + lc + 1);
    assert(total.subrange(1 + lc, 1 + lc + 1) =~= enc_bool(n));
    lemma_dec_string(b, p0, c);
    lemma_dec_bool(b, p0 + lc, n);
}

proof fn lemma_dec_mt_get(b: Seq<u8>, pos: int, key: Seq<char>, count: usize)
    requires
        0 <= pos,
        wf_string(key),
        pos + enc_msg_type(MessageTypeV::Get { key, count }).len() <= b.len(),
        b.subrange(pos, pos + enc_msg_type(MessageTypeV::Get { key, count }).len())
            == enc_msg_type(MessageTypeV::Get { key, count }),
    ensures
        dec_msg_type_at(b, pos) == Some(
            (MessageTypeV::Get { key, count }, pos + enc_msg_type(
                MessageTypeV::Get { key, count },
            ).len()),
        ),
{
    let total = enc_msg_type(MessageTypeV::Get { key, count });
    lemma_tag(b, pos, total);
    let p0 = pos + 1;
    let lk = enc_string(key).len() as int;
    lemma_sub_transfer(b, pos, total, 1, 1 + lk);
    assert(total.subrange(1, 1 + lk) =~= enc_string(key));
    lemma_sub_transfer(b, pos, total, 1 + lk, 1 + lk + 8);
    assert(total.subrange(1 + lk, 1 + lk + 8) =~= enc_u64(count as u64));
    lemma_dec_string(b, p0, key);
    lemma_dec_u64(b, p0 + lk, count as u64);
    assert((count as u64) <= usize::MAX as u64);
    assert((count as u64) as usize == count);
}

proof fn lemma_dec_mt_values(b: Seq<u8>, pos: int, es: Seq<EntryV>)
    requires
        0 <= pos,
        es.len() <= u64::MAX,
        forall|i: int| 0 <= i < es.len() ==> wf_entry(#[trigger] es[i]),
        pos + enc_msg_type(MessageTypeV::Values(es)).len() <= b.len(),
        b.subrange(pos, pos + enc_msg_type(MessageTypeV::Values(es)).len()) == enc_msg_type(
            MessageTypeV::Values(es),
        ),
    ensures
        dec_msg_type_at(b, pos) == Some(
            (MessageTypeV::Values(es), pos + enc_msg_type(MessageTypeV::Values(es)).len()),
        ),
{
    let total = enc_msg_type(MessageTypeV::Values(es));
    lemma_tag(b, pos, total);
    let p0 = pos + 1;
    let le = enc_entries(es, 0).len() as int;
    lemma_sub_transfer(b, pos, total, 1, 9);
    assert(total.subrange(1, 9) =~= enc_u64(es.len() as u64));
    lemma_sub_transfer(b, pos, total, 9, 9 + le);
    assert(total.subrange(9, 9 + le) =~= enc_entries(es, 0));
    lemma_dec_u64(b, p0, es.len() as u64);
    lemma_dec_entries(b, pos + 9, es, 0);
    assert((es.len() as u64) as int == es.len() as int);
    assert(es.skip(0) =~= es);
}

proof fn lemma_dec_mt_neighbors(b: Seq<u8>, pos: int, ss: Seq<Seq<char>>)
    requires
        0 <= pos,
        ss.len() <= u64::MAX,
        forall|i: int| 0 <= i < ss.len() ==> wf_string(#[trigger] ss[i]),
        pos + enc_msg_type(MessageTypeV::Neighbors(ss)).len() <= b.len(),
        b.subrange(pos, pos + enc_msg_type(MessageTypeV::Neighbors(ss)).len()) == enc_msg_type(
            MessageTypeV::Neighbors(ss),
        ),
    ensures
        dec_msg_type_at(b, pos) == Some(
            (MessageTypeV::Neighbors(ss), pos + enc_msg_type(MessageTypeV::Neighbors(ss)).len()),
        ),
{
    let total = enc_msg_type(MessageTypeV::Neighbors(ss));
    lemma_tag(b, pos, total);
    let p0 = pos + 1;
    let ls = enc_strings(ss, 0).len() as int;
    lemma_sub_transfer(b, pos, total, 1, 9);
    assert(total.subrange(1, 9) =~= enc_u64(ss.len() as u64));
    lemma_sub_transfer(b, pos, total, 9, 9 + ls);
    assert(total.subrange(9, 9 + ls) =~= enc_strings(ss, 0));
    lemma_dec_u64(b, p0, ss.len() as u64);
    lemma_dec_strings(b, pos + 9, ss, 0);
    assert((ss.len() as u64) as int == ss.len() as int);
    assert(ss.skip(0) =~= ss);
}

#[verifier::spinoff_prover]
proof fn lemma_dec_msg_type(b: Seq<u8>, pos: int, mt: MessageTypeV)
    requires
        0 <= pos,
        wf_msgv(MessageV { from: Id { tmp: 0 }, msg_type: mt }),
        pos + enc_msg_type(mt).len() <= b.len(),
        b.subrange(pos, pos + enc_msg_type(mt).len()) == enc_msg_type(mt),
    ensures
        dec_msg_type_at(b, pos) == Some((mt, pos + enc_msg_type(mt).len())),
{
    let total = enc_msg_type(mt);
    lemma_tag(b, pos, total);
    let p0 = pos + 1;
    match mt {
        MessageTypeV::Verify(c, pad) => {
            lemma_dec_mt_verify(b, pos, c, pad);
        },
        MessageTypeV::Verified(c, n) => {
            lemma_dec_mt_verified(b, pos, c, n);
        },
        MessageTypeV::Get { key, count } => {
            lemma_dec_mt_get(b, pos, key, count);
        },
        MessageTypeV::Values(es) => {
            lemma_dec_mt_values(b, pos, es);
        },
        MessageTypeV::SetEntry(e) => {
            let le = enc_entry(e).len() as int;
            lemma_sub_transfer(b, pos, total, 1, 1 + le);
            assert(total.subrange(1, 1 + le) =~= enc_entry(e));
            lemma_dec_entry(b, p0, e);
        },
        MessageTypeV::Link(a) => {
            let la = enc_string(a).len() as int;
            lemma_sub_transfer(b, pos, total, 1, 1 + la);
            assert(total.subrange(1, 1 + la) =~= enc_string(a));
            lemma_dec_string(b, p0, a);
        },
        MessageTypeV::Neighbors(ss) => {
            lemma_dec_mt_neighbors(b, pos, ss);
        },
        MessageTypeV::GetTrust => {
        },
        MessageTypeV::Trust(of, d) => {
            lemma_sub_transfer(b, pos, total, 1, 3);
            assert(total.subrange(1, 3) =~= enc_u16(of.tmp));
            lemma_sub_transfer(b, pos, total, 3, 5);
            assert(total.subrange(3, 5) =~= enc_i16(d));
            lemma_dec_u16(b, p0, of.tmp);
            lemma_dec_i16(b, pos + 3, d);
            assert(Id { tmp: of.tmp } == of);
        },
    }
}

/// Decoding a well-formed message's frame returns exactly that message:
/// the codec round-trips.
pub proof fn lemma_codec_round_trip(m: MessageV)
    requires
        wf_msgv(m),
    ensures
        dec_message(enc_message(m)) == Some(m),
{
    let b = enc_message(m);
    let ph = enc_u16(m.from.tmp);
    let pt = enc_msg_type(m.msg_type);
    let lt = pt.len() as int;
    assert(b.subrange(0, b.len() as int) =~= b);
    lemma_sub_transfer(b, 0, b, 0, 2);
    assert(b.subrange(0, 2) =~= ph);
    lemma_sub_transfer(b, 0, b, 2, 2 + lt);
    assert(b.subrange(2, 2 + lt) =~= pt);
    lemma_dec_u16(b, 0, m.from.tmp);
    assert(wf_msgv(MessageV { from: Id { tmp: 0 }, msg_type: m.msg_type }));
    lemma_dec_msg_type(b, 2, m.msg_type);
    assert(Id { tmp: m.from.tmp } == m.from);
    assert(MessageV { from: m.from, msg_type: m.msg_type } =~= m);
}

// ---------------------------------------------------------------------
// The executable codec, verified against the mathematical one.
// ---------------------------------------------------------------------
fn write_u16(out: &mut Vec<u8>, v: u16)
    ensures
        final(out)@ == old(out)@ + enc_u16(v),
{
    out.push((v >> 8) as u8);
    out.push(v as u8);
    proof {
        assert(out@ =~= old(out)@ + enc_u16(v));
    }
}

fn write_u64(out: &mut Vec<u8>, v: u64)
    ensures
        final(out)@ == old(out)@ + enc_u64(v),
{
    out.push((v >> 56) as u8);
    out.push((v >> 48) as u8);
    out.push((v >> 40) as u8);
    out.push((v >> 32) as u8);
    out.push((v >> 24) as u8);
    out.push((v >> 16) as u8);
    out.push((v >> 8) as u8);
    out.push(v as u8);
    proof {
        assert(out@ =~= old(out)@ + enc_u64(v));
    }
}

fn write_i16(out: &mut Vec<u8>, v: i16)
    ensures
        final(out)@ == old(out)@ + enc_i16(v),
{
    let u: u16 = ((v as i32) + 32768) as u16;
    proof {
        assert(u as int == (v as int) + 32768);
    }
    write_u16(out, u);
}

fn write_bool(out: &mut Vec<u8>, v: bool)
    ensures
        final(out)@ == old(out)@ + enc_bool(v),
{
    out.push(if v { 1u8 } else { 0u8 });
    proof {
        assert(out@ =~= old(out)@ + enc_bool(v));
    }
}

fn write_string(out: &mut Vec<u8>, s: &String)
    ensures
        final(out)@ == old(out)@ + enc_string(s@),
        wf_string(s@),
{
    let mut bytes = s.as_str().as_bytes_vec();
    proof {
        assert(bytes@ == encode_utf8(s@));
    }
    write_u64(out, bytes.len() as u64);
    let ghost mid = out@;
    out.append(&mut bytes);
    proof {
        assert(out@ =~= old(out)@ + enc_string(s@));
    }
}

fn write_entry(out: &mut Vec<u8>, e: &Entry)
    ensures
        final(out)@ == old(out)@ + enc_entry(e@),
        wf_entry(e@),
{
    write_u16(out, e.id.tmp);
    write_u64(out, e.seq.num);
    write_string(out, &e.key);
    write_string(out, &e.val);
    proof {
        assert(out@ =~= old(out)@ + enc_entry(e@));
    }
}

fn write_entries(out: &mut Vec<u8>, es: &Vec<Entry>)
    ensures
        final(out)@ == old(out)@ + enc_u64(es@.len() as u64) + enc_entries(views_of(es@), 0),
        forall|i: int| 0 <= i < es@.len() ==> wf_entry(#[trigger] views_of(es@)[i]),
        es@.len() <= u64::MAX,
{
    let n = es.len();
    write_u64(out, n as u64);
    let ghost base = out@;
    let ghost vs = views_of(es@);
    let mut i: usize = 0;
    while i < n
        invariant
            i <= n,
            n == es@.len(),
            vs == views_of(es@),
            out@ + enc_entries(vs, i as int) == base + enc_entries(vs, 0),
            forall|m: int| 0 <= m < i ==> wf_entry(#[trigger] vs[m]),
        decreases n - i,
    {
        write_entry(out, &es[i]);
        proof {
            assert(vs[i as int] == es@[i as int]@);
            assert(out@ + enc_entries(vs, i + 1) =~= base + enc_entries(vs, 0));
        }
        i += 1;
    }
    proof {
        assert(enc_entries(vs, n as int) =~= Seq::<u8>::empty());
        assert(out@ =~= out@ + enc_entries(vs, n as int));
        assert(out@ =~= base + enc_entries(vs, 0));
    }
}

fn write_strings(out: &mut Vec<u8>, ss: &Vec<String>)
    ensures
        final(out)@ == old(out)@ + enc_u64(ss@.len() as u64) + enc_strings(strings_of(ss@), 0),
        forall|i: int| 0 <= i < ss@.len() ==> wf_string(#[trigger] strings_of(ss@)[i]),
        ss@.len() <= u64::MAX,
{
    let n = ss.len();
    write_u64(out, n as u64);
    let ghost base = out@;
    let ghost vs = strings_of(ss@);
    let mut i: usize = 0;
    while i < n
        invariant
            i <= n,
            n == ss@.len(),
            vs == strings_of(ss@),
            out@ + enc_strings(vs, i as int) == base + enc_strings(vs, 0),
            forall|m: int| 0 <= m < i ==> wf_string(#[trigger] vs[m]),
        decreases n - i,
    {
        write_string(out, &ss[i]);
        proof {
            assert(vs[i as int] == ss@[i as int]@);
            assert(out@ + enc_strings(vs, i + 1) =~= base + enc_strings(vs, 0));
        }
        i += 1;
    }
    proof {
        assert(enc_strings(vs, n as int) =~= Seq::<u8>::empty());
        assert(out@ =~= out@ + enc_strings(vs, n as int));
        assert(out@ =~= base + enc_strings(vs, 0));
    }
}

fn write_pad(out: &mut Vec<u8>, pad: &[u8; 16])
    ensures
        final(out)@ == old(out)@ + pad@,
{
    let mut i: usize = 0;
    while i < 16
        invariant
            i <= 16,
            out@ == old(out)@ + pad@.take(i as int),
        decreases 16 - i,
    {
        out.push(pad[i]);
        i += 1;
        proof {
            assert(out@ =~= old(out)@ + pad@.take(i as int));
        }
    }
    proof {
        assert(pad@.take(16) =~= pad@);
    }
}

impl Message {
    /// Encode this message as one self-describing frame.
    pub fn serialize(&self) -> (r: Vec<u8>)
        ensures
            r@ == enc_message(self@),
            wf_msgv(self@),
    {
        let mut out: Vec<u8> = Vec::new();
        write_u16(&mut out, self.from().tmp);
        let ghost base = out@;
        match self.msg_type() {
            MessageType::Verify(c, pad) => {
                out.push(1u8);
                write_string(&mut out, c);
                write_pad(&mut out, pad);
                proof {
                    assert(out@ =~= base + enc_msg_type(self@.msg_type));
                    assert(wf_msgv(self@));
                }
            },
            MessageType::Verified(c, n) => {
                out.push(2u8);
                write_string(&mut out, c);
                write_bool(&mut out, *n);
                proof {
                    assert(out@ =~= base + enc_msg_type(self@.msg_type));
                    assert(wf_msgv(self@));
                }
            },
            MessageType::Get { key, count } => {
                out.push(3u8);
                write_string(&mut out, key);
                write_u64(&mut out, *count as u64);
                proof {
                    assert(out@ =~= base + enc_msg_type(self@.msg_type));
                    assert(wf_msgv(self@));
                }
            },
            MessageType::Values(es) => {
                out.push(4u8);
                write_entries(&mut out, es);
                proof {
                    assert(out@ =~= base + enc_msg_type(self@.msg_type));
                    assert(wf_msgv(self@));
                }
            },
            MessageType::SetEntry(e) => {
                out.push(5u8);
                write_entry(&mut out, e);
                proof {
                    assert(out@ =~= base + enc_msg_type(self@.msg_type));
                    assert(wf_msgv(self@));
                }
            },
            MessageType::Link(a) => {
                out.push(6u8);
                write_string(&mut out, a);
                proof {
                    assert(out@ =~= base + enc_msg_type(self@.msg_type));
                    assert(wf_msgv(self@));
                }
            },
            MessageType::Neighbors(ss) => {
                out.push(7u8);
                write_strings(&mut out, ss);
                proof {
                    assert(out@ =~= base + enc_msg_type(self@.msg_type));
                    assert(wf_msgv(self@));
                }
            },
            MessageType::GetTrust => {
                out.push(8u8);
                proof {
                    assert(out@ =~= base + enc_msg_type(self@.msg_type));
                    assert(wf_msgv(self@));
                }
            },
            MessageType::Trust(of, d) => {
                out.push(9u8);
                write_u16(&mut out, of.tmp);
                write_i16(&mut out, *d);
                proof {
                    assert(out@ =~= base + enc_msg_type(self@.msg_type));
                    assert(wf_msgv(self@));
                }
            },
        }
        proof {
            assert(out@ =~= enc_message(self@));
        }
        out
    }
}

fn read_u16(b: &[u8], pos: usize) -> (r: Option<(u16, usize)>)
    ensures
        match r {
            Some((v, end)) => dec_u16_at(b@, pos as int) == Some((v, end as int)),
            None => dec_u16_at(b@, pos as int) is None,
        },
{
    if b.len() < 2 || pos > b.len() - 2 {
        return None;
    }
    let b0 = *vstd::slice::slice_index_get(b, pos);
    let b1 = *vstd::slice::slice_index_get(b, pos + 1);
    let v: u16 = (((b0 as u16) << 8) | (b1 as u16)) as u16;
    Some((v, pos + 2))
}

fn read_u64(b: &[u8], pos: usize) -> (r: Option<(u64, usize)>)
    ensures
        match r {
            Some((v, end)) => dec_u64_at(b@, pos as int) == Some((v, end as int)),
            None => dec_u64_at(b@, pos as int) is None,
        },
{
    if b.len() < 8 || pos > b.len() - 8 {
        return None;
    }
    let b0 = *vstd::slice::slice_index_get(b, pos);
    let b1 = *vstd::slice::slice_index_get(b, pos + 1);
    let b2 = *vstd::slice::slice_index_get(b, pos + 2);
    let b3 = *vstd::slice::slice_index_get(b, pos + 3);
    let b4 = *vstd::slice::slice_index_get(b, pos + 4);
    let b5 = *vstd::slice::slice_index_get(b, pos + 5);
    let b6 = *vstd::slice::slice_index_get(b, pos + 6);
    let b7 = *vstd::slice::slice_index_get(b, pos + 7);
    let v: u64 = (((b0 as u64) << 56) | ((b1 as u64) << 48) | ((b2 as u64) << 40) | ((b3 as u64)
        << 32) | ((b4 as u64) << 24) | ((b5 as u64) << 16) | ((b6 as u64) << 8) | (b7
        as u64)) as u64;
    Some((v, pos + 8))
}

fn read_i16(b: &[u8], pos: usize) -> (r: Option<(i16, usize)>)
    ensures
        match r {
            Some((v, end)) => dec_i16_at(b@, pos as int) == Some((v, end as int)),
            None => dec_i16_at(b@, pos as int) is None,
        },
{
    match read_u16(b, pos) {
        None => None,
        Some((u, end)) => {
            let v: i16 = ((u as i32) - 32768) as i16;
            proof {
                assert(v as int == (u as int) - 32768);
            }
            Some((v, end))
        },
    }
}

fn read_bool(b: &[u8], pos: usize) -> (r: Option<(bool, usize)>)
    ensures
        match r {
            Some((v, end)) => dec_bool_at(b@, pos as int) == Some((v, end as int)),
            None => dec_bool_at(b@, pos as int) is None,
        },
{
    if pos >= b.len() {
        return None;
    }
    let c = *vstd::slice::slice_index_get(b, pos);
    if c == 0 {
        Some((false, pos + 1))
    } else if c == 1 {
        Some((true, pos + 1))
    } else {
        None
    }
}

fn read_pad(b: &[u8], pos: usize) -> (r: Option<([u8; 16], usize)>)
    ensures
        match r {
            Some((v, end)) => dec_pad_at(b@, pos as int) == Some((v@, end as int)),
            None => dec_pad_at(b@, pos as int) is None,
        },
{
    if b.len() < 16 || pos > b.len() - 16 {
        return None;
    }
    let pad: [u8; 16] = [
        *vstd::slice::slice_index_get(b, pos),
        *vstd::slice::slice_index_get(b, pos + 1),
        *vstd::slice::slice_index_get(b, pos + 2),
        *vstd::slice::slice_index_get(b, pos + 3),
        *vstd::slice::slice_index_get(b, pos + 4),
        *vstd::slice::slice_index_get(b, pos + 5),
        *vstd::slice::slice_index_get(b, pos + 6),
        *vstd::slice::slice_index_get(b, pos + 7),
        *vstd::slice::slice_index_get(b, pos + 8),
        *vstd::slice::slice_index_get(b, pos + 9),
        *vstd::slice::slice_index_get(b, pos + 10),
        *vstd::slice::slice_index_get(b, pos + 11),
        *vstd::slice::slice_index_get(b, pos + 12),
        *vstd::slice::slice_index_get(b, pos + 13),
        *vstd::slice::slice_index_get(b, pos + 14),
        *vstd::slice::slice_index_get(b, pos + 15),
    ];
    proof {
        assert(pad@ =~= b@.subrange(pos as int, pos as int + 16));
    }
    Some((pad, pos + 16))
}

/// Relies on core::str::from_utf8: it returns `Ok` exactly on valid UTF-8
/// input, and the returned view borrows those same bytes.
#[verifier::external_body]
fn utf8_to_string(v: &[u8]) -> (r: Option<String>)
    ensures
        match r {
            Some(s) => valid_utf8(v@) && s@ == decode_utf8(v@),
            None => !valid_utf8(v@),
        },
{
    match core::str::from_utf8(v) {
        Ok(s) => Some(s.to_owned()),
        Err(_) => None,
    }
}

fn read_string(b: &[u8], pos: usize) -> (r: Option<(String, usize)>)
    ensures
        match r {
            Some((s, end)) => dec_string_at(b@, pos as int) == Some((s@, end as int)),
            None => dec_string_at(b@, pos as int) is None,
        },
{
    let (len, p1) = match read_u64(b, pos) {
        None => {
            return None;
        },
        Some(x) => x,
    };
    if len > (b.len() - p1) as u64 {
        return None;
    }
    let l = len as usize;
    let bs = vstd::slice::slice_subrange(b, p1, p1 + l);
    match utf8_to_string(bs) {
        None => None,
        Some(s) => Some((s, p1 + l)),
    }
}

fn read_entry(b: &[u8], pos: usize) -> (r: Option<(Entry, usize)>)
    ensures
        match r {
            Some((e, end)) => dec_entry_at(b@, pos as int) == Some((e@, end as int)),
            None => dec_entry_at(b@, pos as int) is None,
        },
{
    let (tmp, p1) = match read_u16(b, pos) {
        None => {
            return None;
        },
        Some(x) => x,
    };
    let (sq, p2) = match read_u64(b, p1) {
        None => {
            return None;
        },
        Some(x) => x,
    };
    let (key, p3) = match read_string(b, p2) {
        None => {
            return None;
        },
        Some(x) => x,
    };
    let (val, p4) = match read_string(b, p3) {
        None => {
            return None;
        },
        Some(x) => x,
    };
    let e = Entry { id: Id { tmp }, seq: SequenceNumber { num: sq }, key, val };
    Some((e, p4))
}

fn read_entries(b: &[u8], pos: usize, count: u64) -> (r: Option<(Vec<Entry>, usize)>)
    ensures
        match r {
            Some((es, end)) => dec_entries_at(b@, pos as int, count as int) == Some(
                (views_of(es@), end as int),
            ),
            None => dec_entries_at(b@, pos as int, count as int) is None,
        },
{
    let mut out: Vec<Entry> = Vec::new();
    let mut p = pos;
    let mut i: u64 = 0;
    while i < count
        invariant
            i <= count,
            p <= usize::MAX,
            dec_entries_at(b@, pos as int, count as int) == (match dec_entries_at(
                b@,
                p as int,
                count as int - i as int,
            ) {
                Option::None => Option::<(Seq<EntryV>, int)>::None,
                Option::Some((es, end)) => Option::Some((views_of(out@) + es, end)),
            }),
        decreases count - i,
    {
        let ghost out0 = out@;
        let (e, p2) = match read_entry(b, p) {
            None => {
                return None;
            },
            Some(x) => x,
        };
        out.push(e);
        proof {
            assert(out@ == out0.push(e));
            assert(views_of(out@) =~= views_of(out0) + seq![e@]);
            assert forall|es2: Seq<EntryV>|
                true implies views_of(out0) + (seq![e@] + es2) =~= views_of(out@) + es2 by {}
        }
        p = p2;
        i += 1;
    }
    proof {
        assert(dec_entries_at(b@, p as int, 0) == Option::Some((Seq::<EntryV>::empty(), p as int)));
        assert(views_of(out@) + Seq::<EntryV>::empty() =~= views_of(out@));
    }
    Some((out, p))
}

fn read_strings(b: &[u8], pos: usize, count: u64) -> (r: Option<(Vec<String>, usize)>)
    ensures
        match r {
            Some((ss, end)) => dec_strings_at(b@, pos as int, count as int) == Some(
                (strings_of(ss@), end as int),
            ),
            None => dec_strings_at(b@, pos as int, count as int) is None,
        },
{
    let mut out: Vec<String> = Vec::new();
    let mut p = pos;
    let mut i: u64 = 0;
    while i < count
        invariant
            i <= count,
            p <= usize::MAX,
            dec_strings_at(b@, pos as int, count as int) == (match dec_strings_at(
                b@,
                p as int,
                count as int - i as int,
            ) {
                Option::None => Option::<(Seq<Seq<char>>, int)>::None,
                Option::Some((ss, end)) => Option::Some((strings_of(out@) + ss, end)),
            }),
        decreases count - i,
    {
        let ghost out0 = out@;
        let (s, p2) = match read_string(b, p) {
            None => {
                return None;
            },
            Some(x) => x,
        };
        out.push(s);
        proof {
            assert(out@ == out0.push(s));
            assert(strings_of(out@) =~= strings_of(out0) + seq![s@]);
            assert forall|ss2: Seq<Seq<char>>|
                true implies strings_of(out0) + (seq![s@] + ss2) =~= strings_of(out@) + ss2 by {}
        }
        p = p2;
        i += 1;
    }
    proof {
        assert(dec_strings_at(b@, p as int, 0) == Option::Some(
            (Seq::<Seq<char>>::empty(), p as int),
        ));
        assert(strings_of(out@) + Seq::<Seq<char>>::empty() =~= strings_of(out@));
    }
    Some((out, p))
}

fn read_msg_type(b: &[u8], pos: usize) -> (r: Option<(MessageType, usize)>)
    ensures
        match r {
            Some((mt, end)) => dec_msg_type_at(b@, pos as int) == Some((mt@, end as int)),
            None => dec_msg_type_at(b@, pos as int) is None,
        },
{
    if pos >= b.len() {
        return None;
    }
    let tag = *vstd::slice::slice_index_get(b, pos);
    let p0 = pos + 1;
    if tag == 1 {
        let (c, p1) = match read_string(b, p0) {
            None => {
                return None;
            },
            Some(x) => x,
        };
        match read_pad(b, p1) {
            None => None,
            Some((pad, p2)) => Some((MessageType::Verify(c, pad), p2)),
        }
    } else if tag == 2 {
        let (c, p1) = match read_string(b, p0) {
            None => {
                return None;
            },
            Some(x) => x,
        };
        match read_bool(b, p1) {
            None => None,
            Some((n, p2)) => Some((MessageType::Verified(c, n), p2)),
        }
    } else if tag == 3 {
        let (key, p1) = match read_string(b, p0) {
            None => {
                return None;
            },
            Some(x) => x,
        };
        match read_u64(b, p1) {
            None => None,
            Some((count, p2)) => if count <= usize::MAX as u64 {
                Some((MessageType::Get { key, count: count as usize }, p2))
            } else {
                None
            },
        }
    } else if tag == 4 {
        let (count, p1) = match read_u64(b, p0) {
            None => {
                return None;
            },
            Some(x) => x,
        };
        match read_entries(b, p1, count) {
            None => None,
            Some((es, p2)) => Some((MessageType::Values(es), p2)),
        }
    } else if tag == 5 {
        match read_entry(b, p0) {
            None => None,
            Some((e, p1)) => Some((MessageType::SetEntry(e), p1)),
        }
    } else if tag == 6 {
        match read_string(b, p0) {
            None => None,
            Some((a, p1)) => Some((MessageType::Link(a), p1)),
        }
    } else if tag == 7 {
        let (count, p1) = match read_u64(b, p0) {
            None => {
                return None;
            },
            Some(x) => x,
        };
        match read_strings(b, p1, count) {
            None => None,
            Some((ss, p2)) => Some((MessageType::Neighbors(ss), p2)),
        }
    } else if tag == 8 {
        Some((MessageType::GetTrust, p0))
    } else if tag == 9 {
        let (tmp, p1) = match read_u16(b, p0) {
            None => {
                return None;
            },
            Some(x) => x,
        };
        match read_i16(b, p1) {
            None => None,
            Some((d, p2)) => Some((MessageType::Trust(Id { tmp }, d), p2)),
        }
    } else {
        None
    }
}

impl Message {
    /// Decode one frame; malformed or trailing bytes yield nothing.
    pub fn deserialize(data: &[u8]) -> (r: Option<Message>)
        ensures
            match r {
                Some(m) => dec_message(data@) == Some(m@),
                None => dec_message(data@) is None,
            },
    {
        let (tmp, p1) = match read_u16(data, 0) {
            None => {
                return None;
            },
            Some(x) => x,
        };
        let (mt, p2) = match read_msg_type(data, p1) {
            None => {
                return None;
            },
            Some(x) => x,
        };
        if p2 == data.len() {
            Some(Message::new(Id { tmp }, mt))
        } else {
            None
        }
    }
}

} // verus!
