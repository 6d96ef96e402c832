use vstd::prelude::*;

use crate::id::Id;
use crate::sequence_num::SequenceNumber;

verus! {

/// A versioned key/value datum authored by a specific peer. An entry is
/// identified by the triple `(key, seq, id)`.
#[derive(Debug, Clone, PartialEq, Eq)]
pub struct Entry {
    pub id: Id,
    pub seq: SequenceNumber,
    pub key: String,
    pub val: String,
}

/// The mathematical value of an [`Entry`]: plain fields with strings as
/// character sequences.
#[verifier::ext_equal]
pub struct EntryV {
    pub id: Id,
    pub seq: u64,
    pub key: Seq<char>,
    pub val: Seq<char>,
}

impl View for Entry {
    type V = EntryV;

    open spec fn view(&self) -> EntryV {
        EntryV { id: self.id, seq: self.seq.num, key: self.key@, val: self.val@ }
    }
}

impl Entry {
    /// A copy with the same mathematical value; the derived clone carries
    /// no specification, so contracts use this instead.
    pub fn duplicate(&self) -> (r: Entry)
        ensures
            r@ == self@,
    {
        let r = Entry {
            id: self.id,
            seq: SequenceNumber { num: self.seq.num },
            key: self.key.clone(),
            val: self.val.clone(),
        };
        proof {
            assert(r@ =~= self@);
        }
        r
    }
}

/// One frame on the wire: the sender's tag and a tagged payload.
#[derive(Debug, Clone, PartialEq, Eq)]
pub struct Message {
    from: Id,
    msg_type: MessageType,
}

/// The tagged union of payloads a frame can carry.
#[derive(Debug, Clone, PartialEq, Eq)]
pub enum MessageType {
    /// Handshake initiation: a random challenge and fixed padding.
    /// Before any other traffic is sent to an address, that address must
    /// answer such a challenge.
    Verify(String, [u8; 16]),
    /// Handshake reply: the returned challenge, and whether the replying
    /// node is willing to act as a gossip neighbor.
    Verified(String, bool),
    /// Request up to `count` newest entries stored under `key`.
    Get { key: String, count: usize },
    /// Entries answering a `Get`, or gossip propagation.
    Values(Vec<Entry>),
    /// Client request to author a new value; the sequence number is
    /// recomputed by the receiving node.
    SetEntry(Entry),
    /// Client request to open a connection to another node's address.
    Link(String),
    /// A partial list of peer addresses, pushed through the gossip mesh.
    Neighbors(Vec<String>),
    /// Request the full base-trust table of the receiver.
    GetTrust,
    /// Either a client command to change base trust of the target by the
    /// given ten-thousandths, or a peer reporting its own opinion of the
    /// target; the two are told apart by the frame's sender.
    Trust(Id, i16),
}

/// The mathematical value of a [`MessageType`].
#[verifier::ext_equal]
pub enum MessageTypeV {
    Verify(Seq<char>, Seq<u8>),
    Verified(Seq<char>, bool),
    Get { key: Seq<char>, count: usize },
    Values(Seq<EntryV>),
    SetEntry(EntryV),
    Link(Seq<char>),
    Neighbors(Seq<Seq<char>>),
    GetTrust,
    Trust(Id, i16),
}

/// The mathematical value of a [`Message`].
#[verifier::ext_equal]
pub struct MessageV {
    pub from: Id,
    pub msg_type: MessageTypeV,
}

/// The mathematical values of a sequence of entries.
pub open spec fn views_of(s: Seq<Entry>) -> Seq<EntryV> {
    s.map_values(|e: Entry| e@)
}

/// The mathematical values of a sequence of strings.
pub open spec fn strings_of(s: Seq<String>) -> Seq<Seq<char>> {
    s.map_values(|x: String| x@)
}

impl View for MessageType {
    type V = MessageTypeV;

    open spec fn view(&self) -> MessageTypeV {
        match self {
            MessageType::Verify(c, pad) => MessageTypeV::Verify(c@, pad@),
            MessageType::Verified(c, n) => MessageTypeV::Verified(c@, *n),
            MessageType::Get { key, count } => MessageTypeV::Get { key: key@, count: *count },
            MessageType::Values(es) => MessageTypeV::Values(views_of(es@)),
            MessageType::SetEntry(e) => MessageTypeV::SetEntry(e@),
            MessageType::Link(a) => MessageTypeV::Link(a@),
            MessageType::Neighbors(ns) => MessageTypeV::Neighbors(strings_of(ns@)),
            MessageType::GetTrust => MessageTypeV::GetTrust,
            MessageType::Trust(of, delta) => MessageTypeV::Trust(*of, *delta),
        }
    }
}

impl View for Message {
    type V = MessageV;

    closed spec fn view(&self) -> MessageV {
        MessageV { from: self.from, msg_type: self.msg_type@ }
    }
}

impl Message {
    pub fn from(&self) -> (r: &Id)
        ensures
            *r == self@.from,
    {
        &self.from
    }

    pub fn msg_type(&self) -> (r: &MessageType)
        ensures
            r@ == self@.msg_type,
    {
        &self.msg_type
    }

    pub fn take_msg_type(self) -> (r: MessageType)
        ensures
            r@ == self@.msg_type,
    {
        self.msg_type
    }

    pub fn new(from: Id, msg_type: MessageType) -> (r: Self)
        ensures
            r@ == (MessageV { from, msg_type: msg_type@ }),
    {
        Self { from, msg_type }
    }

    pub fn get(from: Id, key: String, count: usize) -> (r: Self)
        ensures
            r@ == (MessageV { from, msg_type: MessageTypeV::Get { key: key@, count } }),
    {
        Self { from, msg_type: MessageType::Get { key, count } }
    }

    pub fn values(from: Id, entries: Vec<Entry>) -> (r: Self)
        ensures
            r@ == (MessageV {
                from,
                msg_type: MessageTypeV::Values(views_of(entries@)),
            }),
    {
        Self { from, msg_type: MessageType::Values(entries) }
    }

    /// The sequence number of the carried entry is a placeholder: the node
    /// that honors the request assigns the real one.
    pub fn set(from: Id, key: String, val: String) -> (r: Self)
        ensures
            r@ == (MessageV {
                from,
                msg_type: MessageTypeV::SetEntry(EntryV { id: from, seq: 0, key: key@, val: val@ }),
            }),
    {
        let entry = Entry { id: from.clone(), key, val, seq: SequenceNumber { num: 0 } };
        Self { from, msg_type: MessageType::SetEntry(entry) }
    }

    pub fn verify(from: Id, challenge: String) -> (r: Message)
        ensures
            r@ == (MessageV {
                from,
                msg_type: MessageTypeV::Verify(challenge@, Seq::new(16, |i: int| 0u8)),
            }),
    {
        let pad = [0u8; 16];
        proof {
            assert(pad@ =~= Seq::new(16, |i: int| 0u8));
        }
        Message { from, msg_type: MessageType::Verify(challenge, pad) }
    }

    pub fn verified(from: Id, challenge: String, can_be_neighbor: bool) -> (r: Message)
        ensures
            r@ == (MessageV {
                from,
                msg_type: MessageTypeV::Verified(challenge@, can_be_neighbor),
            }),
    {
        Message { from, msg_type: MessageType::Verified(challenge, can_be_neighbor) }
    }

    pub fn link(from: Id, addr: String) -> (r: Message)
        ensures
            r@ == (MessageV { from, msg_type: MessageTypeV::Link(addr@) }),
    {
        Message { from, msg_type: MessageType::Link(addr) }
    }

    pub fn neighbors(from: Id, addrs: Vec<String>) -> (r: Message)
        ensures
            r@ == (MessageV {
                from,
                msg_type: MessageTypeV::Neighbors(strings_of(addrs@)),
            }),
    {
        Message { from, msg_type: MessageType::Neighbors(addrs) }
    }

    pub fn get_trust(from: Id) -> (r: Message)
        ensures
            r@ == (MessageV { from, msg_type: MessageTypeV::GetTrust }),
    {
        Message { from, msg_type: MessageType::GetTrust }
    }

    pub fn trust(from: Id, target_id: Id, delta: i16) -> (r: Message)
        ensures
            r@ == (MessageV { from, msg_type: MessageTypeV::Trust(target_id, delta) }),
    {
        Message { from, msg_type: MessageType::Trust(target_id, delta) }
    }
}

impl Entry {
    /// Do two entries carry the same mathematical value?
    pub fn matches(&self, other: &Entry) -> (r: bool)
        ensures
            r == (self@ == other@),
    {
        let r = self.id == other.id && self.seq.num == other.seq.num && self.key.eq(&other.key)
            && self.val.eq(&other.val);
        proof {
            if r {
                assert(self@ =~= other@);
            }
        }
        r
    }
}

fn eq_pad(a: &[u8; 16], b: &[u8; 16]) -> (r: bool)
    ensures
        r == (a@ == b@),
{
    for i in 0..16
        invariant
            forall|m: int| 0 <= m < i ==> a@[m] == b@[m],
    {
        if a[i] != b[i] {
            return false;
        }
    }
    proof {
        assert(a@ =~= b@);
    }
    true
}

fn eq_entries(a: &Vec<Entry>, b: &Vec<Entry>) -> (r: bool)
    ensures
        r == (views_of(a@) == views_of(b@)),
{
    if a.len() != b.len() {
        proof {
            assert(views_of(a@).len() != views_of(b@).len());
        }
        return false;
    }
    let n = a.len();
    for i in 0..n
        invariant
            n == a@.len() == b@.len(),
            forall|m: int| 0 <= m < i ==> a@[m]@ == b@[m]@,
    {
        if !a[i].matches(&b[i]) {
            proof {
                assert(views_of(a@)[i as int] != views_of(b@)[i as int]);
            }
            return false;
        }
    }
    proof {
        assert(views_of(a@) =~= views_of(b@));
    }
    true
}

fn eq_strings(a: &Vec<String>, b: &Vec<String>) -> (r: bool)
    ensures
        r == (strings_of(a@) == strings_of(b@)),
{
    if a.len() != b.len() {
        proof {
            assert(strings_of(a@).len() != strings_of(b@).len());
        }
        return false;
    }
    let n = a.len();
    for i in 0..n
        invariant
            n == a@.len() == b@.len(),
            forall|m: int| 0 <= m < i ==> a@[m]@ == b@[m]@,
    {
        if !a[i].eq(&b[i]) {
            proof {
                assert(strings_of(a@)[i as int] != strings_of(b@)[i as int]);
            }
            return false;
        }
    }
    proof {
        assert(strings_of(a@) =~= strings_of(b@));
    }
    true
}

impl MessageType {
    /// Do two payloads carry the same mathematical value?
    pub fn matches(&self, other: &MessageType) -> (r: bool)
        ensures
            r == (self@ == other@),
    {
        let r = match (self, other) {
            (MessageType::Verify(c1, p1), MessageType::Verify(c2, p2)) => c1.eq(c2) && eq_pad(
                p1,
                p2,
            ),
            (MessageType::Verified(c1, n1), MessageType::Verified(c2, n2)) => c1.eq(c2) && n1
                == n2,
            (
                MessageType::Get { key: k1, count: c1 },
                MessageType::Get { key: k2, count: c2 },
            ) => k1.eq(k2) && c1 == c2,
            (MessageType::Values(e1), MessageType::Values(e2)) => eq_entries(e1, e2),
            (MessageType::SetEntry(e1), MessageType::SetEntry(e2)) => e1.matches(e2),
            (MessageType::Link(a1), MessageType::Link(a2)) => a1.eq(a2),
            (MessageType::Neighbors(n1), MessageType::Neighbors(n2)) => eq_strings(n1, n2),
            (MessageType::GetTrust, MessageType::GetTrust) => true,
            (MessageType::Trust(o1, d1), MessageType::Trust(o2, d2)) => o1 == o2 && d1 == d2,
            _ => false,
        };
        proof {
            if r {
                assert(self@ =~= other@);
            }
        }
        r
    }
}

impl Message {
    /// Do two frames carry the same mathematical value? The dedupe map uses
    /// this to recognize a payload it has broadcast before.
    pub fn matches(&self, other: &Message) -> (r: bool)
        ensures
            r == (self@ == other@),
    {
        let r = self.from == other.from && self.msg_type.matches(&other.msg_type);
        proof {
            if r {
                assert(self@ =~= other@);
            }
        }
        r
    }

    /// A copy with the same mathematical value; the derived clone carries
    /// no specification, so contracts use this instead.
    pub fn duplicate(&self) -> (r: Message)
        ensures
            r@ == self@,
    {
        let mt: MessageType = match &self.msg_type {
            MessageType::Verify(c, pad) => MessageType::Verify(c.clone(), *pad),
            MessageType::Verified(c, n) => MessageType::Verified(c.clone(), *n),
            MessageType::Get { key, count } => MessageType::Get {
                key: key.clone(),
                count: *count,
            },
            MessageType::Values(es) => MessageType::Values(dup_entries(es)),
            MessageType::SetEntry(e) => MessageType::SetEntry(e.duplicate()),
            MessageType::Link(a) => MessageType::Link(a.clone()),
            MessageType::Neighbors(ns) => MessageType::Neighbors(dup_strings(ns)),
            MessageType::GetTrust => MessageType::GetTrust,
            MessageType::Trust(of, d) => MessageType::Trust(*of, *d),
        };
        proof {
            assert(mt@ =~= self.msg_type@);
        }
        let r = Message { from: self.from, msg_type: mt };
        proof {
            assert(r@ =~= self@);
        }
        r
    }
}

fn dup_entries(es: &Vec<Entry>) -> (r: Vec<Entry>)
    ensures
        views_of(r@) == views_of(es@),
{
    let n = es.len();
    let mut out: Vec<Entry> = Vec::new();
    for i in 0..n
        invariant
            n == es@.len(),
            out@.len() == i,
            forall|m: int| 0 <= m < i ==> out@[m]@ == es@[m]@,
    {
        out.push(es[i].duplicate());
    }
    proof {
        assert(views_of(out@) =~= views_of(es@));
    }
    out
}

fn dup_strings(ss: &Vec<String>) -> (r: Vec<String>)
    ensures
        strings_of(r@) == strings_of(ss@),
{
    let n = ss.len();
    let mut out: Vec<String> = Vec::new();
    for i in 0..n
        invariant
            n == ss@.len(),
            out@.len() == i,
            forall|m: int| 0 <= m < i ==> out@[m]@ == ss@[m]@,
    {
        out.push(ss[i].clone());
    }
    proof {
        assert(strings_of(out@) =~= strings_of(ss@));
    }
    out
}

} // verus!
