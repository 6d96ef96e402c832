use vstd::prelude::*;

use crate::data::Data;
use crate::id::Id;
use crate::identification::Identification;
use crate::message::{strings_of, views_of, Entry, EntryV, Message, MessageType, MessageTypeV,
    MessageV};
use crate::network::{addr_among, alpha_challenge, Datagram, Network, FANOUT, MAX_TIME,
    TARGET_CONNECTIONS};

verus! {

/// Handshake frames are the only traffic allowed toward addresses that are
/// not verified peers.
pub open spec fn is_handshake(m: MessageV) -> bool {
    m.msg_type is Verify || m.msg_type is Verified
}

/// The first `n` entries of a gossiped batch that survive the ingestion
/// filter: author not distrusted and the identifying triple not yet stored.
pub open spec fn fresh_upto(es: Seq<EntryV>, n: int, store: Data, ident: Identification) -> Seq<
    EntryV,
>
    decreases n,
{
    if n <= 0 {
        Seq::empty()
    } else {
        fresh_upto(es, n - 1, store, ident) + if !ident.spec_distrusted(es[n - 1].id)
            && !store.contains_triple(es[n - 1].key, es[n - 1].seq, es[n - 1].id) {
            seq![es[n - 1]]
        } else {
            Seq::empty()
        }
    }
}

/// The entries of a gossiped batch that are relayed onward.
pub open spec fn values_fresh(es: Seq<EntryV>, store: Data, ident: Identification) -> Seq<EntryV> {
    fresh_upto(es, es.len() as int, store, ident)
}

/// The first `n` entries whose author the ledger trusts.
pub open spec fn trusted_upto(es: Seq<EntryV>, n: int, ident: Identification) -> Seq<EntryV>
    decreases n,
{
    if n <= 0 {
        Seq::empty()
    } else {
        trusted_upto(es, n - 1, ident) + if ident.spec_trusted(es[n - 1].id) {
            seq![es[n - 1]]
        } else {
            Seq::empty()
        }
    }
}

/// The entries of a relayed batch that the store ingests.
pub open spec fn values_trusted(es: Seq<EntryV>, ident: Identification) -> Seq<EntryV> {
    trusted_upto(es, es.len() as int, ident)
}

/// Does some entry of the list carry the identifying triple `(k, s, a)`?
pub open spec fn triple_in(es: Seq<EntryV>, k: Seq<char>, s: u64, a: Id) -> bool {
    exists|m: int|
        0 <= m < es.len() && (#[trigger] es[m]).key == k && es[m].seq == s && es[m].id == a
}

/// Does some slot of the list hold this address?
pub open spec fn addr_in_views(ss: Seq<Seq<char>>, a: Seq<char>) -> bool {
    exists|j: int| 0 <= j < ss.len() && ss[j] == a
}

/// Every ingested entry of a relayed batch has a trusted author.
pub proof fn lemma_trusted_all(es: Seq<EntryV>, n: int, ident: Identification, e: int)
    requires
        0 <= e < trusted_upto(es, n, ident).len(),
    ensures
        ident.spec_trusted(trusted_upto(es, n, ident)[e].id),
    decreases n,
{
    if n > 0 {
        let prefix = trusted_upto(es, n - 1, ident);
        if e < prefix.len() {
            lemma_trusted_all(es, n - 1, ident, e);
        }
    }
}

/// Every surviving entry of a filtered batch has an author that is not
/// distrusted.
pub proof fn lemma_fresh_not_distrusted(
    es: Seq<EntryV>,
    n: int,
    store: Data,
    ident: Identification,
    e: int,
)
    requires
        0 <= e < fresh_upto(es, n, store, ident).len(),
    ensures
        !ident.spec_distrusted(fresh_upto(es, n, store, ident)[e].id),
    decreases n,
{
    if n > 0 {
        let prefix = fresh_upto(es, n - 1, store, ident);
        if e < prefix.len() {
            lemma_fresh_not_distrusted(es, n - 1, store, ident, e);
        }
    }
}

/// One gossip node: its tag, its peer view, its store and its ledger, all
/// driven by a single-threaded dispatch loop that the caller runs.
pub struct Node {
    id: Id,
    network: Network,
    data: Data,
    identification: Identification,
}

impl Node {
    pub closed spec fn id_spec(self) -> Id {
        self.id
    }

    pub closed spec fn net(self) -> Network {
        self.network
    }

    pub closed spec fn store(self) -> Data {
        self.data
    }

    pub closed spec fn ident(self) -> Identification {
        self.identification
    }

    pub open spec fn wf(self) -> bool {
        &&& self.net().wf()
        &&& self.store().wf()
        &&& self.ident().wf()
        &&& self.ident().us_spec() == self.id_spec()
        &&& self.net().id_spec() == self.id_spec()
    }

    pub open spec fn times_le(self, now: u64) -> bool {
        self.net().times_le(now)
    }

    pub fn new(id: Id) -> (r: Node)
        ensures
            r.wf(),
            r.id_spec() == id,
            forall|now: u64| r.times_le(now),
            forall|k: Seq<char>, s: u64, a: Id| !r.store().contains_triple(k, s, a),
            forall|x: Id| r.ident().spec_trust(x) == 5000,
            forall|c: Seq<char>| !r.net().has_challenge(c),
    {
        Node {
            id,
            network: Network::new(id),
            data: Data::new(),
            identification: Identification::new(id),
        }
    }

    pub fn network_ref(&self) -> (r: &Network)
        ensures
            *r == self.net(),
    {
        &self.network
    }

    pub fn data_ref(&self) -> (r: &Data)
        ensures
            *r == self.store(),
    {
        &self.data
    }

    pub fn ident_ref(&self) -> (r: &Identification)
        ensures
            *r == self.ident(),
    {
        &self.identification
    }

    /// Handle one received frame, returning the datagrams to send. A frame
    /// from a distrusted sender is dropped whole; a `Verify` carrying one
    /// of our own outstanding challenges is dropped as a reflection; only
    /// entries with trusted authors reach the store, unless the local node
    /// itself authors a value. Each payload kind's effect is pinned by its
    /// own group of clauses below.
    #[verifier::rlimit(100)]
    #[verifier::spinoff_prover]
    pub fn process_msg(&mut self, from: String, msg: Message, now: u64) -> (out: Vec<Datagram>)
        requires
            old(self).wf(),
            old(self).times_le(now),
            now <= MAX_TIME,
        ensures
            final(self).wf(),
            final(self).times_le(now),
            final(self).id_spec() == old(self).id_spec(),
            old(self).ident().spec_distrusted(msg@.from) ==> *final(self) == *old(self)
                && out@.len() == 0,
            // Verify: reflection guard, else an exact reply and no state change
            (!old(self).ident().spec_distrusted(msg@.from) && (msg@.msg_type matches
            MessageTypeV::Verify(c, p) && old(self).net().has_challenge(c))) ==> *final(self)
                == *old(self) && out@.len() == 0,
            (!old(self).ident().spec_distrusted(msg@.from) && (msg@.msg_type matches
            MessageTypeV::Verify(c, p) && !old(self).net().has_challenge(c))) ==> *final(self)
                == *old(self) && out@.len() == 1 && out@[0].0@ == from@ && out@[0].1@ == (MessageV {
                from: old(self).id_spec(),
                msg_type: MessageTypeV::Verified(msg@.msg_type->Verify_0, true),
            }),
            // Verified: an answered challenge installs the peer and flushes
            // its buffered frames, in order
            (!old(self).ident().spec_distrusted(msg@.from) && msg@.msg_type is Verified) ==> final(self).store() == old(self).store() && final(self).ident() == old(self).ident(),
            !old(self).ident().spec_distrusted(msg@.from) ==> (msg@.msg_type matches
            MessageTypeV::Verified(c, nb) ==> ((!old(self).net().has_challenge(c) ==> *final(self)
                == *old(self) && out@.len() == 0) && (old(self).net().has_challenge(c) ==> final(self).net().is_verified_at(old(self).net().challenge_addr(c), now) && final(self).net().addr_record(old(self).net().challenge_addr(c)) == (now, nb) && !final(self).net().has_pending(old(self).net().challenge_addr(c)) && out@.len() == old(self).net().pending_msgs(old(self).net().challenge_addr(c)).len() && (forall|i: int|
                0 <= i < out@.len() ==> (#[trigger] out@[i]).0@ == old(self).net().challenge_addr(
                    c,
                ) && out@[i].1@ == old(self).net().pending_msgs(old(self).net().challenge_addr(c))[i].0)))),
            // Get: the stored read answers through the send discipline
            (!old(self).ident().spec_distrusted(msg@.from) && msg@.msg_type is Get) ==> final(self).store() == old(self).store() && final(self).ident() == old(self).ident(),
            !old(self).ident().spec_distrusted(msg@.from) ==> (msg@.msg_type matches
            MessageTypeV::Get { key, count } ==> (old(self).net().is_verified_at(from@, now)
                ==> final(self).net() == old(self).net() && out@.len() == 1 && out@[0].0@ == from@
                && out@[0].1@ == (MessageV {
                from: old(self).id_spec(),
                msg_type: MessageTypeV::Values(
                    old(self).store().entries_desc(key).take(
                        vstd::math::min(
                            count as int,
                            old(self).store().entries_desc(key).len() as int,
                        ),
                    ),
                ),
            }))),
            !old(self).ident().spec_distrusted(msg@.from) ==> (msg@.msg_type matches
            MessageTypeV::Get { key, count } ==> (!old(self).net().is_verified_at(from@, now)
                ==> out@.len() == 1 && out@[0].0@ == from@ && out@[0].1@.msg_type is Verify
                && final(self).net().pending_msgs(from@) == old(self).net().pending_msgs(
                from@,
            ).push(
                (
                    MessageV {
                        from: old(self).id_spec(),
                        msg_type: MessageTypeV::Values(
                            old(self).store().entries_desc(key).take(
                                vstd::math::min(
                                    count as int,
                                    old(self).store().entries_desc(key).len() as int,
                                ),
                            ),
                        ),
                    },
                    now,
                ),
            ))),
            // Values: filter, relay the filtered batch, ingest its trusted part
            (!old(self).ident().spec_distrusted(msg@.from) && msg@.msg_type is Values) ==> final(self).ident() == old(self).ident(),
            !old(self).ident().spec_distrusted(msg@.from) ==> (msg@.msg_type matches
            MessageTypeV::Values(es) ==> (values_fresh(es, old(self).store(), old(self).ident()).len()
                == 0 ==> *final(self) == *old(self) && out@.len() == 0)),
            !old(self).ident().spec_distrusted(msg@.from) ==> (msg@.msg_type matches
            MessageTypeV::Values(es) ==> (values_fresh(es, old(self).store(), old(self).ident()).len()
                > 0 ==> (forall|k: Seq<char>, s: u64, a: Id|
                final(self).store().contains_triple(k, s, a) <==> old(self).store().contains_triple(
                    k,
                    s,
                    a,
                ) || triple_in(
                    values_trusted(
                        values_fresh(es, old(self).store(), old(self).ident()),
                        old(self).ident(),
                    ),
                    k,
                    s,
                    a,
                )))),
            !old(self).ident().spec_distrusted(msg@.from) ==> (msg@.msg_type matches
            MessageTypeV::Values(es) ==> (values_fresh(es, old(self).store(), old(self).ident()).len()
                > 0 ==> (forall|i: int|
                0 <= i < out@.len() ==> (#[trigger] out@[i]).1@ == (MessageV {
                    from: old(self).id_spec(),
                    msg_type: MessageTypeV::Values(
                        values_fresh(es, old(self).store(), old(self).ident()),
                    ),
                })) && (!old(self).net().recently_broadcast(
                MessageV {
                    from: old(self).id_spec(),
                    msg_type: MessageTypeV::Values(
                        values_fresh(es, old(self).store(), old(self).ident()),
                    ),
                },
                now,
            ) ==> out@.len() as int == vstd::math::min(
                FANOUT as int,
                old(self).net().neighbor_count(now),
            )))),
            // SetEntry from the local client: stamp with the next sequence
            // number, store, gossip exactly that entry
            msg@.from == old(self).id_spec() ==> (msg@.msg_type matches MessageTypeV::SetEntry(e)
                ==> (old(self).store().contains_seq(e.key, u64::MAX) ==> *final(self) == *old(self)
                && out@.len() == 0)),
            msg@.from == old(self).id_spec() ==> (msg@.msg_type matches MessageTypeV::SetEntry(e)
                ==> (!old(self).store().contains_seq(e.key, u64::MAX) ==> final(self).ident()
                == old(self).ident() && (forall|k: Seq<char>, s: u64, a: Id|
                final(self).store().contains_triple(k, s, a) <==> old(self).store().contains_triple(
                    k,
                    s,
                    a,
                ) || (k == e.key && s as int == old(self).store().next_seq_spec(e.key) && a
                    == e.id)) && final(self).store().value_at(
                e.key,
                old(self).store().next_seq_spec(e.key) as u64,
                e.id,
            ) == e.val && (forall|i: int|
                0 <= i < out@.len() ==> (#[trigger] out@[i]).1@ == (MessageV {
                    from: old(self).id_spec(),
                    msg_type: MessageTypeV::Values(
                        seq![
                            EntryV {
                                id: e.id,
                                seq: old(self).store().next_seq_spec(e.key) as u64,
                                key: e.key,
                                val: e.val,
                            },
                        ],
                    ),
                })) && (!old(self).net().recently_broadcast(
                MessageV {
                    from: old(self).id_spec(),
                    msg_type: MessageTypeV::Values(
                        seq![
                            EntryV {
                                id: e.id,
                                seq: old(self).store().next_seq_spec(e.key) as u64,
                                key: e.key,
                                val: e.val,
                            },
                        ],
                    ),
                },
                now,
            ) ==> out@.len() as int == vstd::math::min(
                FANOUT as int,
                old(self).net().neighbor_count(now),
            )))),
            // client-only operations from a non-local sender do nothing
            (!old(self).ident().spec_distrusted(msg@.from) && msg@.from != old(self).id_spec() && (
            msg@.msg_type is SetEntry || msg@.msg_type is Link)) ==> *final(self) == *old(self)
                && out@.len() == 0,
            // Link from the local client: one fresh handshake toward the address
            msg@.from == old(self).id_spec() ==> (msg@.msg_type matches MessageTypeV::Link(a)
                ==> final(self).store() == old(self).store() && final(self).ident() == old(self).ident() && out@.len() == 1 && out@[0].0@ == a && out@[0].1@.from == old(self).id_spec() && (out@[0].1@.msg_type matches MessageTypeV::Verify(c, p)
                && alpha_challenge(c) && final(self).net().has_challenge(c) && final(self).net().challenge_addr(c) == a)),
            // Neighbors: handshakes toward unknown candidates of the list
            // (the sender included), up to the connection deficit
            !old(self).ident().spec_distrusted(msg@.from) ==> (msg@.msg_type matches
            MessageTypeV::Neighbors(list) ==> final(self).store() == old(self).store() && final(self).ident() == old(self).ident() && (out@.len() + old(self).net().peer_count()
                <= TARGET_CONNECTIONS || out@.len() == 0) && (forall|i: int|
                0 <= i < out@.len() ==> !old(self).net().stores_addr((#[trigger] out@[i]).0@)
                    && addr_in_views(list.push(from@), out@[i].0@)) && (forall|a2: Seq<char>|
                final(self).net().stores_addr(a2) == old(self).net().stores_addr(a2)) && (out@.len()
                < (if old(self).net().peer_count() >= TARGET_CONNECTIONS {
                0int
            } else {
                TARGET_CONNECTIONS - old(self).net().peer_count()
            }) ==> (forall|j: int|
                0 <= j < list.push(from@).len() && !old(self).net().stores_addr(
                    #[trigger] list.push(from@)[j],
                ) ==> crate::network::target_in(out@, list.push(from@)[j])))),
            // GetTrust: one Trust frame per stored base row, through the
            // send discipline
            (!old(self).ident().spec_distrusted(msg@.from) && msg@.msg_type is GetTrust) ==> final(self).store() == old(self).store() && final(self).ident() == old(self).ident() && out@.len()
                == old(self).ident().base_trust_rows().len() && (forall|
                u: int,
            |
                0 <= u < out@.len() ==> is_handshake((#[trigger] out@[u]).1@) || (out@[u].0@
                    == from@ && out@[u].1@.from == old(self).id_spec() && (out@[u].1@.msg_type
                    matches MessageTypeV::Trust(of2, lvl) && old(self).ident().stores_base(of2)
                    && lvl as int == old(self).ident().spec_base(of2)))),
            (!old(self).ident().spec_distrusted(msg@.from) && msg@.msg_type is GetTrust && old(self).net().is_verified_at(from@, now)) ==> *final(self) == *old(self) && out@.len() == old(self).ident().base_trust_rows().len() && (forall|i: int|
                0 <= i < out@.len() ==> (#[trigger] out@[i]).0@ == from@ && out@[i].1@ == (MessageV {
                    from: old(self).id_spec(),
                    msg_type: MessageTypeV::Trust(
                        old(self).ident().base_trust_rows()[i].0,
                        old(self).ident().base_trust_rows()[i].1 as i16,
                    ),
                })),
            // Trust: the local client moves base trust; a peer's report is
            // recorded second hand
            msg@.from == old(self).id_spec() ==> (msg@.msg_type matches MessageTypeV::Trust(of, d)
                ==> final(self).net() == old(self).net() && final(self).store() == old(self).store() && out@.len() == 0 && crate::identification::change_trust_post(
                old(self).ident(),
                final(self).ident(),
                of,
                d as int,
            )),
            (!old(self).ident().spec_distrusted(msg@.from) && msg@.from != old(self).id_spec())
                ==> (msg@.msg_type matches MessageTypeV::Trust(of, d) ==> final(self).net() == old(self).net() && final(self).store() == old(self).store() && out@.len() == 0
                && crate::identification::adjust_offset_post(
                old(self).ident(),
                final(self).ident(),
                msg@.from,
                of,
                d as int,
            )),
            // safety clauses that hold of every dispatch
            forall|k: Seq<char>, s: u64, a: Id|
                final(self).store().contains_triple(k, s, a) && !old(self).store().contains_triple(
                    k,
                    s,
                    a,
                ) ==> old(self).ident().spec_trusted(a) || (msg@.from == old(self).id_spec()
                    && msg@.msg_type is SetEntry),
            forall|i: int|
                0 <= i < out@.len() ==> is_handshake((#[trigger] out@[i]).1@) || final(self).net().is_verified_at(out@[i].0@, now),
            (msg@.from != old(self).id_spec() && msg@.msg_type is Values) ==> forall|i: int, e: int|
                #![trigger out@[i].1@.msg_type->Values_0[e]]
                0 <= i < out@.len() && (out@[i].1@.msg_type matches MessageTypeV::Values(es) && 0
                    <= e < es.len()) ==> !old(self).ident().spec_distrusted(
                    out@[i].1@.msg_type->Values_0[e].id,
                ),
    {
        let msg_id = *msg.from();
        if self.identification.is_distrusted(&msg_id) {
            proof {
                // the ledger pins the node's own score at neutral, so a
                // frame from the node itself is never dropped here
                crate::identification::lemma_no_self_trust(old(self).ident());
            }
            return Vec::new();
        }
        match msg.take_msg_type() {
            MessageType::Verify(challenge, _padding) => {
                // a peer wants to reach us: answer, unless the challenge is
                // one of our own bouncing back
                if !self.network.challenge_exists(&challenge) {
                    let dg = self.network.verify(&from, challenge);
                    let mut out: Vec<Datagram> = Vec::new();
                    out.push(dg);
                    out
                } else {
                    Vec::new()
                }
            },
            MessageType::Verified(challenge, is_neighbor) => {
                self.network.verified(&challenge, is_neighbor, now)
            },
            MessageType::Get { key, count } => {
                let entries = self.data.get(&key, count);
                let reply = Message::values(self.id, entries);
                let (_, out) = self.network.send_addr(from, reply, now);
                out
            },
            MessageType::Values(entries) => {
                let ghost esv = views_of(entries@);
                // keep entries that are neither from distrusted authors nor
                // already stored
                let n = entries.len();
                let mut fresh: Vec<Entry> = Vec::new();
                let mut i: usize = 0;
                while i < n
                    invariant
                        i <= n,
                        n == entries@.len(),
                        esv == views_of(entries@),
                        self.wf(),
                        *self == *old(self),
                        views_of(fresh@) == fresh_upto(esv, i as int, old(self).store(), old(self).ident()),
                    decreases n - i,
                {
                    let e = &entries[i];
                    proof {
                        assert(e@ == esv[i as int]);
                    }
                    let ghost fresh1 = fresh@;
                    if !self.identification.is_distrusted(&e.id) && !self.data.contains(e) {
                        fresh.push(e.duplicate());
                        proof {
                            assert(views_of(fresh@) =~= views_of(fresh1) + seq![esv[i as int]]);
                            assert(views_of(fresh@) =~= fresh_upto(
                                esv,
                                i + 1,
                                old(self).store(),
                                old(self).ident(),
                            ));
                        }
                    } else {
                        proof {
                            assert(views_of(fresh@) =~= fresh_upto(
                                esv,
                                i + 1,
                                old(self).store(),
                                old(self).ident(),
                            ));
                        }
                    }
                    i += 1;
                }
                let ghost freshv = values_fresh(esv, old(self).store(), old(self).ident());
                proof {
                    assert(views_of(fresh@) == freshv);
                }
                if fresh.len() == 0 {
                    proof {
                        assert(freshv.len() == 0);
                    }
                    return Vec::new();
                }
                // relay onward, then ingest only what trusted authors wrote
                let mut trusted: Vec<Entry> = Vec::new();
                let fn_ = fresh.len();
                let mut i: usize = 0;
                while i < fn_
                    invariant
                        i <= fn_,
                        fn_ == fresh@.len(),
                        views_of(fresh@) == freshv,
                        self.wf(),
                        *self == *old(self),
                        views_of(trusted@) == trusted_upto(freshv, i as int, old(self).ident()),
                    decreases fn_ - i,
                {
                    let e = &fresh[i];
                    proof {
                        assert(e@ == freshv[i as int]);
                    }
                    let ghost tr1 = trusted@;
                    if self.identification.is_trusted(&e.id) {
                        trusted.push(e.duplicate());
                        proof {
                            assert(views_of(trusted@) =~= views_of(tr1) + seq![freshv[i as int]]);
                            assert(views_of(trusted@) =~= trusted_upto(
                                freshv,
                                i + 1,
                                old(self).ident(),
                            ));
                        }
                    } else {
                        proof {
                            assert(views_of(trusted@) =~= trusted_upto(
                                freshv,
                                i + 1,
                                old(self).ident(),
                            ));
                        }
                    }
                    i += 1;
                }
                let ghost trv = values_trusted(freshv, old(self).ident());
                let ghost trusted0 = trusted@;
                proof {
                    assert(views_of(trusted@) == trv);
                }
                let relay = Message::values(self.id, fresh);
                let out = self.network.send_several(relay, now);
                self.data.ingest(trusted);
                proof {
                    assert(relay@ == (MessageV {
                        from: old(self).id_spec(),
                        msg_type: MessageTypeV::Values(freshv),
                    }));
                    assert forall|k: Seq<char>, s: u64, a: Id|
                        self.store().contains_triple(k, s, a) <==> old(self).store().contains_triple(k, s, a) || triple_in(trv, k, s, a) by {
                        if triple_in(trv, k, s, a) {
                            let m = choose|m: int|
                                0 <= m < trv.len() && (#[trigger] trv[m]).key == k && trv[m].seq
                                    == s && trv[m].id == a;
                            assert(trusted0[m]@ == trv[m]);
                            assert(crate::data::among(trusted0, trusted0.len() as int, k, s, a));
                        }
                        if crate::data::among(trusted0, trusted0.len() as int, k, s, a) {
                            let m = choose|m: int|
                                0 <= m < trusted0.len() && (#[trigger] trusted0[m])@.key == k
                                    && trusted0[m]@.seq == s && trusted0[m]@.id == a;
                            assert(trv[m] == trusted0[m]@);
                            assert(triple_in(trv, k, s, a));
                        }
                    }
                    assert forall|k: Seq<char>, s: u64, a: Id|
                        self.store().contains_triple(k, s, a) && !old(self).store().contains_triple(k, s, a) implies old(self).ident().spec_trusted(
                        a,
                    ) by {
                        let m = choose|m: int|
                            0 <= m < trusted0.len() && (#[trigger] trusted0[m])@.key == k
                                && trusted0[m]@.seq == s && trusted0[m]@.id == a;
                        assert(trv[m] == trusted0[m]@);
                        lemma_trusted_all(freshv, freshv.len() as int, old(self).ident(), m);
                    }
                    assert forall|i2: int, e2: int|
                        #![trigger out@[i2].1@.msg_type->Values_0[e2]]
                        0 <= i2 < out@.len() && (out@[i2].1@.msg_type matches MessageTypeV::Values(
                            es,
                        ) && 0 <= e2 < es.len()) implies !old(self).ident().spec_distrusted(
                        out@[i2].1@.msg_type->Values_0[e2].id,
                    ) by {
                        assert(out@[i2].1@ == relay@);
                        assert(out@[i2].1@.msg_type->Values_0 == freshv);
                        lemma_fresh_not_distrusted(
                            esv,
                            esv.len() as int,
                            old(self).store(),
                            old(self).ident(),
                            e2,
                        );
                    }
                }
                out
            },
            MessageType::SetEntry(entry) => {
                if self.identification.is_us(&msg_id) {
                    // the node itself authors the value: give it the next
                    // sequence number for its key, store it, gossip it
                    if self.data.has_seq(&entry.key, u64::MAX) {
                        return Vec::new();
                    }
                    let next_seq = self.data.get_next_id(&entry.key);
                    let stamped = Entry {
                        id: entry.id,
                        seq: next_seq,
                        key: entry.key,
                        val: entry.val,
                    };
                    let copy = stamped.duplicate();
                    let ghost stv = stamped@;
                    self.data.insert(stamped);
                    let mut single: Vec<Entry> = Vec::new();
                    single.push(copy);
                    proof {
                        assert(views_of(single@) =~= seq![stv]);
                    }
                    let gossip = Message::values(self.id, single);
                    let out = self.network.send_several(gossip, now);
                    proof {
                        assert(gossip@ == (MessageV {
                            from: old(self).id_spec(),
                            msg_type: MessageTypeV::Values(seq![stv]),
                        }));
                    }
                    out
                } else {
                    Vec::new()
                }
            },
            MessageType::Link(addr) => {
                if self.identification.is_us(&msg_id) {
                    let dg = self.network.request_verification(self.id, addr, now);
                    let mut out: Vec<Datagram> = Vec::new();
                    out.push(dg);
                    out
                } else {
                    Vec::new()
                }
            },
            MessageType::Neighbors(mut neighbors) => {
                let ghost list0 = strings_of(neighbors@);
                // the sender itself is a candidate too
                neighbors.push(from);
                let ghost cand = neighbors@;
                let out = self.network.swapped_neighbors(neighbors, now);
                proof {
                    assert(strings_of(cand) =~= list0.push(cand.last()@));
                    assert forall|i: int| 0 <= i < out@.len() implies addr_in_views(
                        list0.push(cand.last()@),
                        (#[trigger] out@[i]).0@,
                    ) by {
                        assert(crate::network::addr_among(cand, out@[i].0@));
                        let j = choose|j: int|
                            0 <= j < cand.len() && (#[trigger] cand[j])@ == out@[i].0@;
                        assert(strings_of(cand)[j] == out@[i].0@);
                    }
                    if out@.len() < (if old(self).net().peer_count() >= TARGET_CONNECTIONS {
                        0int
                    } else {
                        TARGET_CONNECTIONS - old(self).net().peer_count()
                    }) {
                        assert forall|j: int|
                            0 <= j < strings_of(cand).len() && !old(self).net().stores_addr(
                                #[trigger] strings_of(cand)[j],
                            ) implies crate::network::target_in(out@, strings_of(cand)[j]) by {
                            assert(strings_of(cand)[j] == cand[j]@);
                            assert(crate::network::target_in(out@, cand[j]@));
                        }
                    }
                }
                out
            },
            MessageType::GetTrust => {
                // answer with one Trust frame per stored base opinion
                let rows = self.identification.base_trust();
                let n = rows.len();
                let mut out: Vec<Datagram> = Vec::new();
                let mut i: usize = 0;
                while i < n
                    invariant
                        i <= n,
                        n == rows@.len(),
                        self.wf(),
                        self.times_le(now),
                        now <= MAX_TIME,
                        self.id_spec() == old(self).id_spec(),
                        self.store() == old(self).store(),
                        self.ident() == old(self).ident(),
                        rows@.len() == old(self).ident().base_trust_rows().len(),
                        out@.len() == i,
                        forall|i2: int|
                            0 <= i2 < rows@.len() ==> rows@[i2] == old(self).ident().base_trust_rows()[i2] && 0 <= (#[trigger] rows@[i2]).1
                                <= 10000 && old(self).ident().stores_base(rows@[i2].0) && rows@[i2].1
                                as int == old(self).ident().spec_base(rows@[i2].0),
                        forall|u: int|
                            0 <= u < out@.len() ==> is_handshake((#[trigger] out@[u]).1@)
                                || self.net().is_verified_at(out@[u].0@, now),
                        forall|u: int|
                            0 <= u < out@.len() ==> is_handshake((#[trigger] out@[u]).1@) || (
                            out@[u].0@ == from@ && out@[u].1@.from == old(self).id_spec() && (
                            out@[u].1@.msg_type matches MessageTypeV::Trust(of2, lvl) && old(self).ident().stores_base(of2) && lvl as int == old(self).ident().spec_base(
                                of2,
                            ))),
                        old(self).net().is_verified_at(from@, now) ==> *self == *old(self)
                            && out@.len() == i && (forall|u: int|
                            0 <= u < out@.len() ==> (#[trigger] out@[u]).0@ == from@ && out@[u].1@
                                == (MessageV {
                                from: old(self).id_spec(),
                                msg_type: MessageTypeV::Trust(rows@[u].0, rows@[u].1 as i16),
                            })),
                    decreases n - i,
                {
                    let level = rows[i].1 as i16;
                    let reply = Message::trust(self.id, rows[i].0, level);
                    let (_, mut sent) = self.network.send_addr(from.clone(), reply, now);
                    let ghost out0 = out@;
                    let ghost sent0 = sent@;
                    out.append(&mut sent);
                    proof {
                        assert(out@ == out0 + sent0);
                        assert forall|u: int|
                            0 <= u < out@.len() implies (is_handshake((#[trigger] out@[u]).1@)
                            || self.net().is_verified_at(out@[u].0@, now)) && (is_handshake(
                            out@[u].1@,
                        ) || (out@[u].0@ == from@ && out@[u].1@.from == old(self).id_spec() && (
                        out@[u].1@.msg_type matches MessageTypeV::Trust(of2, lvl) && old(self).ident().stores_base(of2) && lvl as int == old(self).ident().spec_base(
                            of2,
                        )))) by {
                            if u < out0.len() {
                                assert(out@[u] == out0[u]);
                            } else {
                                assert(out@[u] == sent0[u - out0.len()]);
                            }
                        }
                    }
                    i += 1;
                }
                out
            },
            MessageType::Trust(of, delta) => {
                if self.identification.is_us(&msg_id) {
                    // the local client steers base trust directly
                    self.identification.change_trust(of, delta as i32);
                } else {
                    // a peer reports its own opinion: record it as second
                    // hand, never as base trust
                    self.identification.adjust_offset(msg_id, of, delta);
                }
                Vec::new()
            },
        }
    }

    /// The periodic housekeeping pass: evict expired peers, prune the
    /// dedupe map, flush or discard buffered frames, then offer a neighbor
    /// sample to the mesh. The store and the ledger never move.
    pub fn upkeep(&mut self, now: u64) -> (out: Vec<Datagram>)
        requires
            old(self).wf(),
            old(self).times_le(now),
            now <= MAX_TIME,
        ensures
            final(self).wf(),
            final(self).times_le(now),
            final(self).id_spec() == old(self).id_spec(),
            final(self).store() == old(self).store(),
            final(self).ident() == old(self).ident(),
            // peers expire exactly at the verification lifetime
            forall|a: Seq<char>|
                final(self).net().stores_addr(a) <==> (old(self).net().stores_addr(a) && old(
                    self,
                ).net().addr_record(a).0 + crate::network::VERIFICATION_TIMEOUT >= now),
            forall|a: Seq<char>|
                final(self).net().stores_addr(a) ==> final(self).net().addr_record(a) == old(
                    self,
                ).net().addr_record(a),
            // a verified address keeps no buffer; others keep exactly the
            // unexpired messages
            forall|a: Seq<char>|
                final(self).net().is_verified_at(a, now) ==> !final(self).net().has_pending(a),
            forall|a: Seq<char>|
                !final(self).net().is_verified_at(a, now) ==> crate::network::kept_row_ok(
                    final(self).net().pending_msgs(a),
                    old(self).net().pending_msgs(a),
                    now,
                ),
            // every buffered frame of a surviving verified peer goes out
            forall|a: Seq<char>, j: int|
                #![trigger old(self).net().pending_msgs(a)[j]]
                final(self).net().is_verified_at(a, now) && 0 <= j < old(self).net().pending_msgs(
                    a,
                ).len() ==> crate::network::dg_in(out@, a, old(self).net().pending_msgs(a)[j].0),
            // everything sent is a flushed buffer frame or the neighbor round
            forall|i: int|
                0 <= i < out@.len() ==> final(self).net().is_verified_at(
                    (#[trigger] out@[i]).0@,
                    now,
                ) && (crate::network::pending_had(old(self).net(), out@[i].0@, out@[i].1@)
                    || out@[i].1@.msg_type is Neighbors),
            // outstanding challenges stay as they are
            forall|c: Seq<char>|
                final(self).net().has_challenge(c) == old(self).net().has_challenge(c) && (old(
                    self,
                ).net().has_challenge(c) ==> final(self).net().challenge_addr(c) == old(
                    self,
                ).net().challenge_addr(c)),
            // the dedupe map keeps exactly the recent entries, plus at most
            // the fresh neighbor round
            forall|m: MessageV|
                !(m.msg_type is Neighbors) ==> ((final(self).net().rb_has(m) <==> (old(
                    self,
                ).net().rb_has(m) && old(self).net().rb_time(m) + crate::network::REBROADCAST_TIMEOUT
                    > now)) && (final(self).net().rb_has(m) ==> final(self).net().rb_time(m) == old(
                    self,
                ).net().rb_time(m))),
    {
        let mut out = self.network.clean(now);
        let ghost mid = self.network;
        let ghost out0 = out@;
        let mut more = self.network.swap_neighbors(now);
        let ghost more0 = more@;
        out.append(&mut more);
        proof {
            assert(out@ == out0 + more0);
            assert forall|a: Seq<char>| !self.net().is_verified_at(a, now) implies
                crate::network::kept_row_ok(
                self.net().pending_msgs(a),
                old(self).net().pending_msgs(a),
                now,
            ) by {
                assert(self.net().stores_addr(a) == mid.stores_addr(a));
                if mid.stores_addr(a) {
                    assert(self.net().addr_record(a) == mid.addr_record(a));
                }
                assert(!mid.is_verified_at(a, now));
                assert(self.net().pending_msgs(a) == mid.pending_msgs(a));
            }
            assert forall|i: int| 0 <= i < out@.len() implies self.net().is_verified_at(
                (#[trigger] out@[i]).0@,
                now,
            ) && (crate::network::pending_had(old(self).net(), out@[i].0@, out@[i].1@)
                || out@[i].1@.msg_type is Neighbors) by {
                if i < out0.len() {
                    assert(out@[i] == out0[i]);
                    assert(mid.is_verified_at(out0[i].0@, now));
                } else {
                    assert(out@[i] == more0[i - out0.len()]);
                }
            }
            assert forall|a: Seq<char>, j: int|
                #![trigger old(self).net().pending_msgs(a)[j]]
                self.net().is_verified_at(a, now) && 0 <= j < old(self).net().pending_msgs(
                    a,
                ).len() implies crate::network::dg_in(out@, a, old(self).net().pending_msgs(a)[j].0) by {
                assert(mid.is_verified_at(a, now));
                assert(crate::network::dg_in(out0, a, old(self).net().pending_msgs(a)[j].0));
                let u = choose|u: int|
                    0 <= u < out0.len() && (#[trigger] out0[u]).0@ == a && out0[u].1@ == old(
                        self,
                    ).net().pending_msgs(a)[j].0;
                assert(out@[u] == out0[u]);
            }
        }
        out
    }
}

} // verus!