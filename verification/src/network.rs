use vstd::prelude::*;

use rand::distr::{Alphabetic, SampleString};
use rand::seq::{IndexedRandom, SliceRandom};

use crate::assoc::{lemma_rows_from_grow, lemma_rows_from_push, lemma_srows_unique, rows_from,
    srows_at, srows_find, srows_has, srows_idx, srows_remove, srows_set, srows_unique};
use crate::id::Id;
use crate::message::{strings_of, Message, MessageTypeV, MessageV};

verus! {

/// A peer stays verified this many seconds after its handshake.
pub const VERIFICATION_TIMEOUT: u64 = 600;

/// A buffered message waits this many seconds for the handshake to finish.
pub const PENDING_TIMEOUT: u64 = 16;

/// An identical payload is not broadcast twice within this many seconds.
pub const REBROADCAST_TIMEOUT: u64 = 60;

/// How many verified connections the node tries to keep.
pub const TARGET_CONNECTIONS: usize = 10;

/// How many random neighbors one gossip round reaches at most.
pub const FANOUT: usize = 10;

/// Clocks handed to the network stay below this bound, so that adding a
/// timeout can never overflow.
pub const MAX_TIME: u64 = 0x7fff_ffff_ffff_ffff;

/// One outbound datagram: a peer address (as `host:port` text) and the
/// frame to send there.
pub type Datagram = (String, Message);

/// An ASCII letter.
pub open spec fn is_alpha(c: char) -> bool {
    ('a' <= c && c <= 'z') || ('A' <= c && c <= 'Z')
}

/// The shape of every handshake challenge: exactly ten ASCII letters.
pub open spec fn alpha_challenge(c: Seq<char>) -> bool {
    c.len() == 10 && (forall|i: int| 0 <= i < c.len() ==> is_alpha(#[trigger] c[i]))
}

/// Does some slot of the list hold this address?
pub open spec fn addr_among(ss: Seq<String>, a: Seq<char>) -> bool {
    exists|j: int| 0 <= j < ss.len() && (#[trigger] ss[j])@ == a
}

/// Does some datagram of the batch carry this frame to this address?
pub open spec fn dg_in(out: Seq<Datagram>, a: Seq<char>, m: MessageV) -> bool {
    exists|u: int| 0 <= u < out.len() && (#[trigger] out[u]).0@ == a && out[u].1@ == m
}

/// Does some datagram of the batch target this address?
pub open spec fn target_in(out: Seq<Datagram>, a: Seq<char>) -> bool {
    exists|u: int| 0 <= u < out.len() && (#[trigger] out[u]).0@ == a
}

/// Was this frame buffered for this address?
pub open spec fn pending_had(net: Network, a: Seq<char>, m: MessageV) -> bool {
    exists|j: int| 0 <= j < net.pending_msgs(a).len() && (#[trigger] net.pending_msgs(a)[j]).0 == m
}

/// How many of the first `n` peer rows are unexpired gossip neighbors.
pub open spec fn count_neighbors_upto(rows: Seq<(String, (u64, bool))>, n: int, now: u64) -> int
    decreases n,
{
    if n <= 0 {
        0
    } else {
        count_neighbors_upto(rows, n - 1, now) + if rows[n - 1].1.1 && rows[n - 1].1.0
            + VERIFICATION_TIMEOUT >= now {
            1int
        } else {
            0int
        }
    }
}

/// Relies on rand's Alphabetic distribution: `sample_string` returns
/// exactly the requested number of characters, each an ASCII letter
/// (a-z or A-Z).
#[verifier::external_body]
fn gen_challenge() -> (r: String)
    ensures
        alpha_challenge(r@),
{
    Alphabetic.sample_string(&mut rand::rng(), 10)
}

/// Relies on rand's IndexedRandom::sample: it draws `min(amount, n)`
/// distinct elements of the slice, without repetition.
#[verifier::external_body]
fn sample_indices(n: usize, amount: usize) -> (r: Vec<usize>)
    ensures
        r@.len() == vstd::math::min(amount as int, n as int),
        forall|i: int| 0 <= i < r@.len() ==> (#[trigger] r@[i]) < n,
        forall|i: int, j: int| 0 <= i < j < r@.len() ==> r@[i] != r@[j],
{
    let all: Vec<usize> = (0..n).collect();
    all.sample(&mut rand::rng(), amount).cloned().collect()
}

/// Relies on rand's SliceRandom::shuffle: it permutes the slice in place.
#[verifier::external_body]
fn shuffle_strings(v: &mut Vec<String>)
    ensures
        final(v)@.to_multiset() == old(v)@.to_multiset(),
{
    v.shuffle(&mut rand::rng());
}

/// Two lists with the same multiset of elements hold the same elements.
proof fn lemma_multiset_member(orig: Seq<String>, cand: Seq<String>, x: String)
    requires
        cand.to_multiset() == orig.to_multiset(),
        cand.contains(x),
    ensures
        orig.contains(x),
{
    broadcast use vstd::seq_lib::group_to_multiset_ensures;

    assert(cand.to_multiset().count(x) > 0);
    assert(orig.to_multiset().count(x) > 0);
}

/// Broadcast-dedupe rows keyed by a message's value.
pub open spec fn mrows_has(rows: Seq<(Message, u64)>, m: MessageV) -> bool {
    exists|i: int| 0 <= i < rows.len() && rows[i].0@ == m
}

pub open spec fn mrows_idx(rows: Seq<(Message, u64)>, m: MessageV) -> int {
    choose|i: int| 0 <= i < rows.len() && rows[i].0@ == m
}

pub open spec fn mrows_at(rows: Seq<(Message, u64)>, m: MessageV) -> u64 {
    rows[mrows_idx(rows, m)].1
}

pub open spec fn mrows_unique(rows: Seq<(Message, u64)>) -> bool {
    forall|i: int, j: int| 0 <= i < j < rows.len() ==> rows[i].0@ != rows[j].0@
}

pub proof fn lemma_mrows_unique(rows: Seq<(Message, u64)>, m: MessageV, i: int)
    requires
        mrows_unique(rows),
        0 <= i < rows.len(),
        rows[i].0@ == m,
    ensures
        mrows_has(rows, m),
        mrows_idx(rows, m) == i,
        mrows_at(rows, m) == rows[i].1,
{
    assert(mrows_has(rows, m));
    let j = mrows_idx(rows, m);
    if i < j {
        assert(rows[i].0@ != rows[j].0@);
    } else if j < i {
        assert(rows[j].0@ != rows[i].0@);
    }
}

/// The node's view of its peers: who answered a handshake and when, which
/// challenges are outstanding, what waits for a handshake to finish, and
/// what was broadcast recently.
pub struct Network {
    id: Id,
    verified_addrs: Vec<(String, (u64, bool))>,
    challenges: Vec<(String, String)>,
    pending: Vec<(String, Vec<(Message, u64)>)>,
    recent_broadcasts: Vec<(Message, u64)>,
}

impl Network {
    pub closed spec fn id_spec(self) -> Id {
        self.id
    }

    pub closed spec fn wf(self) -> bool {
        &&& srows_unique(self.verified_addrs@)
        &&& srows_unique(self.challenges@)
        &&& srows_unique(self.pending@)
        &&& mrows_unique(self.recent_broadcasts@)
    }

    /// Every timestamp the tables hold lies at or before `now`.
    pub closed spec fn times_le(self, now: u64) -> bool {
        &&& forall|i: int|
            0 <= i < self.verified_addrs@.len() ==> (#[trigger] self.verified_addrs@[i]).1.0
                <= now
        &&& forall|i: int, j: int|
            0 <= i < self.pending@.len() && 0 <= j < self.pending@[i].1@.len() ==> (
            #[trigger] self.pending@[i].1@[j]).1 <= now
        &&& forall|i: int|
            0 <= i < self.recent_broadcasts@.len() ==> (
            #[trigger] self.recent_broadcasts@[i]).1 <= now
    }

    /// Is a peer record stored for this address, expired or not?
    pub closed spec fn stores_addr(self, a: Seq<char>) -> bool {
        srows_has(self.verified_addrs@, a)
    }

    pub closed spec fn addr_record(self, a: Seq<char>) -> (u64, bool) {
        srows_at(self.verified_addrs@, a)
    }

    /// Is this address verified and not yet expired at time `now`?
    pub open spec fn is_verified_at(self, a: Seq<char>, now: u64) -> bool {
        self.stores_addr(a) && self.addr_record(a).0 + VERIFICATION_TIMEOUT >= now
    }

    /// A verified peer that opted in as a gossip target.
    pub open spec fn is_neighbor_at(self, a: Seq<char>, now: u64) -> bool {
        self.is_verified_at(a, now) && self.addr_record(a).1
    }

    pub closed spec fn has_challenge(self, c: Seq<char>) -> bool {
        srows_has(self.challenges@, c)
    }

    pub closed spec fn challenge_addr(self, c: Seq<char>) -> Seq<char> {
        srows_at(self.challenges@, c)@
    }

    pub closed spec fn has_pending(self, a: Seq<char>) -> bool {
        srows_has(self.pending@, a)
    }

    /// The values of the messages buffered for an address.
    pub closed spec fn pending_msgs(self, a: Seq<char>) -> Seq<(MessageV, u64)> {
        if srows_has(self.pending@, a) {
            row_views(srows_at(self.pending@, a)@)
        } else {
            Seq::empty()
        }
    }

    pub closed spec fn rb_has(self, m: MessageV) -> bool {
        mrows_has(self.recent_broadcasts@, m)
    }

    pub closed spec fn rb_time(self, m: MessageV) -> u64 {
        mrows_at(self.recent_broadcasts@, m)
    }

    /// Was this exact payload broadcast within the suppression window?
    pub open spec fn recently_broadcast(self, m: MessageV, now: u64) -> bool {
        self.rb_has(m) && self.rb_time(m) + REBROADCAST_TIMEOUT > now
    }

    pub fn new(id: Id) -> (r: Network)
        ensures
            r.wf(),
            r.id_spec() == id,
            forall|a: Seq<char>| !r.stores_addr(a),
            forall|c: Seq<char>| !r.has_challenge(c),
            forall|a: Seq<char>| !r.has_pending(a),
            forall|m: MessageV| !r.rb_has(m),
            forall|now: u64| r.times_le(now),
    {
        Network {
            id,
            verified_addrs: Vec::new(),
            challenges: Vec::new(),
            pending: Vec::new(),
            recent_broadcasts: Vec::new(),
        }
    }

    /// Is this address a verified, unexpired peer right now?
    pub fn is_verified(&self, addr: &String, now: u64) -> (r: bool)
        requires
            self.wf(),
            self.times_le(now),
            now <= MAX_TIME,
        ensures
            r == self.is_verified_at(addr@, now),
    {
        match srows_find(&self.verified_addrs, addr) {
            Some(i) => {
                proof {
                    lemma_srows_unique(self.verified_addrs@, addr@, i as int);
                }
                self.verified_addrs[i].1.0 + VERIFICATION_TIMEOUT >= now
            },
            None => false,
        }
    }

    pub fn challenge_exists(&self, challenge: &String) -> (r: bool)
        ensures
            r == self.has_challenge(challenge@),
    {
        match srows_find(&self.challenges, challenge) {
            Some(_) => true,
            None => false,
        }
    }

    /// Answer a peer's handshake: return its challenge, offering to be a
    /// neighbor. Nothing changes locally and the peer is not yet trusted
    /// as a destination.
    pub fn verify(&self, addr: &String, challenge: String) -> (out: Datagram)
        ensures
            out.0@ == addr@,
            out.1@ == (MessageV {
                from: self.id_spec(),
                msg_type: MessageTypeV::Verified(challenge@, true),
            }),
    {
        (addr.clone(), Message::verified(self.id, challenge, true))
    }

    /// Open a handshake toward `addr`: record a fresh random challenge and
    /// emit the `Verify` datagram carrying it.
    pub fn request_verification(&mut self, from: Id, addr: String, now: u64) -> (out: Datagram)
        requires
            old(self).wf(),
            old(self).times_le(now),
        ensures
            final(self).wf(),
            final(self).times_le(now),
            final(self).id_spec() == old(self).id_spec(),
            out.0@ == addr@,
            out.1@.from == from,
            (out.1@.msg_type matches MessageTypeV::Verify(c, _) && alpha_challenge(c) && final(self).has_challenge(c) && final(self).challenge_addr(c) == addr@ && (forall|c2: Seq<char>|
                c2 != c ==> final(self).has_challenge(c2) == old(self).has_challenge(c2) && (old(self).has_challenge(c2) ==> final(self).challenge_addr(c2) == old(self).challenge_addr(
                    c2,
                )))),
            forall|a: Seq<char>| final(self).stores_addr(a) == old(self).stores_addr(a),
            forall|a: Seq<char>|
                old(self).stores_addr(a) ==> final(self).addr_record(a) == old(self).addr_record(
                    a,
                ),
            forall|a: Seq<char>| final(self).pending_msgs(a) == old(self).pending_msgs(a),
            forall|a: Seq<char>| final(self).has_pending(a) == old(self).has_pending(a),
            forall|m: MessageV| final(self).rb_has(m) == old(self).rb_has(m),
            forall|m: MessageV|
                old(self).rb_has(m) ==> final(self).rb_time(m) == old(self).rb_time(m),
    {
        let challenge = gen_challenge();
        let reply = Message::verify(from, challenge.clone());
        srows_set(&mut self.challenges, challenge, addr.clone());
        (addr, reply)
    }
}

fn mrows_find(rows: &Vec<(Message, u64)>, m: &Message) -> (r: Option<usize>)
    ensures
        match r {
            Some(i) => i < rows@.len() && rows@[i as int].0@ == m@ && mrows_has(rows@, m@),
            None => !mrows_has(rows@, m@),
        },
{
    let n = rows.len();
    for i in 0..n
        invariant
            n == rows@.len(),
            forall|j: int| 0 <= j < i ==> rows@[j].0@ != m@,
    {
        if rows[i].0.matches(m) {
            return Some(i);
        }
    }
    None
}

/// Bind the message's value to `t`, replacing any earlier binding.
fn mrows_set(rows: &mut Vec<(Message, u64)>, m: Message, t: u64)
    requires
        mrows_unique(old(rows)@),
    ensures
        mrows_unique(final(rows)@),
        mrows_has(final(rows)@, m@),
        mrows_at(final(rows)@, m@) == t,
        forall|m2: MessageV|
            m2 != m@ ==> ((mrows_has(final(rows)@, m2) <==> mrows_has(old(rows)@, m2)) && (
            mrows_has(old(rows)@, m2) ==> mrows_at(final(rows)@, m2) == mrows_at(old(rows)@, m2))),
        forall|i: int| 0 <= i < final(rows)@.len() ==> (#[trigger] final(rows)@[i]).1 == t
            || exists|j: int| 0 <= j < old(rows)@.len() && final(rows)@[i] == #[trigger] old(
            rows,
        )@[j],
{
    let ghost rows0 = rows@;
    match mrows_find(rows, &m) {
        Some(i) => {
            proof {
                lemma_mrows_unique(rows0, m@, i as int);
            }
            let _ = rows.swap_remove(i);
            let ghost rows1 = rows@;
            rows.push((m, t));
            proof {
                let rows2 = rows@;
                let n0 = rows0.len() as int;
                let n1 = rows1.len() as int;
                assert forall|u: int| 0 <= u < n1 implies ((rows1[u] == rows0[u] && u != i as int)
                    || (u == i as int && rows1[u] == rows0[n0 - 1] && i as int != n0 - 1)) by {
                    if u == i as int {
                        assert(rows1[u] == rows0[n0 - 1]);
                    }
                }
                assert forall|u: int| 0 <= u < n1 implies rows1[u].0@ != rows2.last().0@ by {
                    let ou = if u == i as int {
                        n0 - 1
                    } else {
                        u
                    };
                    assert(rows1[u] == rows0[ou]);
                    if ou != i as int {
                        if ou < i as int {
                            assert(rows0[ou].0@ != rows0[i as int].0@);
                        } else {
                            assert(rows0[i as int].0@ != rows0[ou].0@);
                        }
                    }
                }
                assert forall|u: int, w: int| 0 <= u < w < rows2.len() implies rows2[u].0@
                    != rows2[w].0@ by {
                    if w < n1 {
                        let ou = if u == i as int {
                            n0 - 1
                        } else {
                            u
                        };
                        let ow = if w == i as int {
                            n0 - 1
                        } else {
                            w
                        };
                        assert(rows2[u] == rows0[ou] && rows2[w] == rows0[ow]);
                        assert(ou != ow);
                    } else {
                        assert(rows2[u] == rows1[u]);
                    }
                }
                lemma_mrows_unique(rows2, m@, n1);
                assert forall|m2: MessageV| m2 != m@ implies ((mrows_has(rows2, m2) <==> mrows_has(
                    rows0,
                    m2,
                )) && (mrows_has(rows0, m2) ==> mrows_at(rows2, m2) == mrows_at(rows0, m2))) by {
                    if mrows_has(rows0, m2) {
                        let u = mrows_idx(rows0, m2);
                        assert(rows0[u].0@ == m2);
                        lemma_mrows_unique(rows0, m2, u);
                        assert(u != i as int);
                        if u == n0 - 1 {
                            assert((i as int) < n0 - 1);
                            assert(rows1[i as int] == rows0[u]);
                            assert(rows2[i as int] == rows0[u]);
                            lemma_mrows_unique(rows2, m2, i as int);
                        } else {
                            assert(rows1[u] == rows0[u]);
                            assert(rows2[u] == rows0[u]);
                            lemma_mrows_unique(rows2, m2, u);
                        }
                    } else {
                        if mrows_has(rows2, m2) {
                            let u = mrows_idx(rows2, m2);
                            assert(0 <= u < n1);
                            let ou = if u == i as int {
                                n0 - 1
                            } else {
                                u
                            };
                            assert(rows2[u] == rows0[ou]);
                            assert(rows0[ou].0@ == m2);
                            assert(false);
                        }
                    }
                }
                assert forall|u: int| 0 <= u < rows2.len() implies (#[trigger] rows2[u]).1 == t
                    || exists|j: int| 0 <= j < rows0.len() && rows2[u] == #[trigger] rows0[j] by {
                    if u < n1 {
                        let ou = if u == i as int {
                            n0 - 1
                        } else {
                            u
                        };
                        assert(rows2[u] == rows0[ou]);
                    }
                }
            }
        },
        None => {
            rows.push((m, t));
            proof {
                let rows2 = rows@;
                let n0 = rows0.len() as int;
                assert forall|u: int, w: int| 0 <= u < w < rows2.len() implies rows2[u].0@
                    != rows2[w].0@ by {
                    if w < n0 {
                        assert(rows2[u] == rows0[u] && rows2[w] == rows0[w]);
                    } else {
                        assert(rows2[u] == rows0[u]);
                    }
                }
                lemma_mrows_unique(rows2, m@, n0);
                assert forall|m2: MessageV| m2 != m@ implies ((mrows_has(rows2, m2) <==> mrows_has(
                    rows0,
                    m2,
                )) && (mrows_has(rows0, m2) ==> mrows_at(rows2, m2) == mrows_at(rows0, m2))) by {
                    if mrows_has(rows0, m2) {
                        let u = mrows_idx(rows0, m2);
                        assert(rows0[u].0@ == m2);
                        lemma_mrows_unique(rows0, m2, u);
                        assert(rows2[u] == rows0[u]);
                        lemma_mrows_unique(rows2, m2, u);
                    } else {
                        if mrows_has(rows2, m2) {
                            let u = mrows_idx(rows2, m2);
                            assert(0 <= u < n0);
                            assert(rows0[u].0@ == m2);
                            assert(false);
                        }
                    }
                }
                assert forall|u: int| 0 <= u < rows2.len() implies (#[trigger] rows2[u]).1 == t
                    || exists|j: int| 0 <= j < rows0.len() && rows2[u] == #[trigger] rows0[j] by {
                    if u < n0 {
                        assert(rows2[u] == rows0[u]);
                    }
                }
            }
        },
    }
}

impl Network {
    /// A peer answered our challenge: mark its address verified as of
    /// `now`, remember whether it offered to be a neighbor, and flush every
    /// message that was waiting for this handshake. An unknown challenge
    /// changes nothing.
    pub fn verified(&mut self, challenge: &String, is_neighbor: bool, now: u64) -> (out: Vec<
        Datagram,
    >)
        requires
            old(self).wf(),
            old(self).times_le(now),
            now <= MAX_TIME,
        ensures
            final(self).wf(),
            final(self).times_le(now),
            final(self).id_spec() == old(self).id_spec(),
            !old(self).has_challenge(challenge@) ==> *final(self) == *old(self) && out@.len() == 0,
            old(self).has_challenge(challenge@) ==> final(self).is_verified_at(
                old(self).challenge_addr(challenge@),
                now,
            ) && final(self).addr_record(old(self).challenge_addr(challenge@)) == (
            now,
            is_neighbor,
            ) && !final(self).has_challenge(challenge@) && !final(self).has_pending(
                old(self).challenge_addr(challenge@),
            ),
            old(self).has_challenge(challenge@) ==> forall|c2: Seq<char>|
                c2 != challenge@ ==> (final(self).has_challenge(c2) == old(self).has_challenge(c2)
                    && (old(self).has_challenge(c2) ==> final(self).challenge_addr(c2) == old(self).challenge_addr(c2))),
            old(self).has_challenge(challenge@) ==> forall|a2: Seq<char>|
                a2 != old(self).challenge_addr(challenge@) ==> (final(self).stores_addr(a2) == old(self).stores_addr(a2) && (old(self).stores_addr(a2) ==> final(self).addr_record(a2)
                    == old(self).addr_record(a2)) && final(self).pending_msgs(a2) == old(self).pending_msgs(a2) && final(self).has_pending(a2) == old(self).has_pending(a2)),
            old(self).has_challenge(challenge@) ==> out@.len() == old(self).pending_msgs(
                old(self).challenge_addr(challenge@),
            ).len() && (forall|i: int|
                0 <= i < out@.len() ==> (#[trigger] out@[i]).0@ == old(self).challenge_addr(
                    challenge@,
                ) && out@[i].1@ == old(self).pending_msgs(old(self).challenge_addr(challenge@))[i].0),
            forall|m2: MessageV|
                final(self).rb_has(m2) == old(self).rb_has(m2) && (old(self).rb_has(m2) ==> final(self).rb_time(m2) == old(self).rb_time(m2)),
            forall|i: int|
                0 <= i < out@.len() ==> final(self).is_verified_at((#[trigger] out@[i]).0@, now),
    {
        let addr = match srows_remove(&mut self.challenges, challenge) {
            None => {
                return Vec::new();
            },
            Some(a) => a,
        };
        srows_set(&mut self.verified_addrs, addr.clone(), (now, is_neighbor));
        let row = srows_remove(&mut self.pending, &addr);
        let mut out: Vec<Datagram> = Vec::new();
        let ghost pmsgs = old(self).pending_msgs(addr@);
        match row {
            None => {
                proof {
                    assert(pmsgs =~= Seq::<(MessageV, u64)>::empty());
                }
            },
            Some(mut msgs) => {
                proof {
                    assert(pmsgs == row_views(msgs@));
                }
                let ghost orig = msgs@;
                while msgs.len() > 0
                    invariant
                        out@.len() + msgs@.len() == orig.len(),
                        msgs@ == orig.skip(out@.len() as int),
                        forall|i: int|
                            0 <= i < out@.len() ==> (#[trigger] out@[i]).0@ == addr@ && out@[i].1@
                                == orig[i].0@,
                    decreases msgs@.len(),
                {
                    let (m, _) = msgs.remove(0);
                    proof {
                        assert(orig.skip(out@.len() as int).remove(0) =~= orig.skip(
                            out@.len() as int + 1,
                        ));
                        assert(orig.skip(out@.len() as int)[0] == orig[out@.len() as int]);
                    }
                    out.push((addr.clone(), m));
                }
                proof {
                    assert forall|i: int| 0 <= i < out@.len() implies (#[trigger] out@[i]).0@
                        == addr@ && out@[i].1@ == pmsgs[i].0 by {
                        assert(pmsgs[i] == (orig[i].0@, orig[i].1));
                    }
                }
            },
        }
        out
    }

    /// Send one frame toward an address. A verified, unexpired peer gets
    /// it at once; otherwise the frame is buffered, a stale record is
    /// evicted, and a fresh handshake opens toward the address.
    pub fn send_addr(&mut self, addr: String, msg: Message, now: u64) -> (r: (bool, Vec<Datagram>))
        requires
            old(self).wf(),
            old(self).times_le(now),
            now <= MAX_TIME,
        ensures
            final(self).wf(),
            final(self).times_le(now),
            final(self).id_spec() == old(self).id_spec(),
            r.0 == old(self).is_verified_at(addr@, now),
            r.0 ==> *final(self) == *old(self) && r.1@.len() == 1 && r.1@[0].0@ == addr@
                && r.1@[0].1@ == msg@,
            !r.0 ==> !final(self).stores_addr(addr@) && final(self).pending_msgs(addr@) == old(self).pending_msgs(addr@).push((msg@, now)) && r.1@.len() == 1 && r.1@[0].0@ == addr@ && (
            r.1@[0].1@.msg_type matches MessageTypeV::Verify(c, _) && alpha_challenge(c)
                && final(self).has_challenge(c) && final(self).challenge_addr(c) == addr@ && (
            forall|c2: Seq<char>|
                c2 != c ==> final(self).has_challenge(c2) == old(self).has_challenge(c2) && (old(self).has_challenge(c2) ==> final(self).challenge_addr(c2) == old(self).challenge_addr(c2)))) && r.1@[0].1@.from == old(self).id_spec(),
            !r.0 ==> forall|a2: Seq<char>|
                a2 != addr@ ==> (final(self).stores_addr(a2) == old(self).stores_addr(a2) && (old(self).stores_addr(a2) ==> final(self).addr_record(a2) == old(self).addr_record(a2))
                    && final(self).pending_msgs(a2) == old(self).pending_msgs(a2) && final(self).has_pending(a2) == old(self).has_pending(a2)),
            forall|m2: MessageV|
                final(self).rb_has(m2) == old(self).rb_has(m2) && (old(self).rb_has(m2) ==> final(self).rb_time(m2) == old(self).rb_time(m2)),
            forall|i: int|
                0 <= i < r.1@.len() ==> final(self).is_verified_at((#[trigger] r.1@[i]).0@, now)
                    || r.1@[i].1@.msg_type is Verify,
    {
        let verified_now = match srows_find(&self.verified_addrs, &addr) {
            Some(i) => {
                proof {
                    lemma_srows_unique(self.verified_addrs@, addr@, i as int);
                }
                let t = self.verified_addrs[i].1.0;
                t + VERIFICATION_TIMEOUT >= now
            },
            None => false,
        };
        if verified_now {
            let mut out: Vec<Datagram> = Vec::new();
            out.push((addr, msg));
            return (true, out);
        }
        let _ = srows_remove(&mut self.verified_addrs, &addr);
        let mut row: Vec<(Message, u64)> = match srows_remove(&mut self.pending, &addr) {
            Some(v) => v,
            None => Vec::new(),
        };
        let ghost row0 = row@;
        proof {
            if old(self).has_pending(addr@) {
                assert(old(self).pending_msgs(addr@) == row0.map_values(
                    |p: (Message, u64)| (p.0@, p.1),
                ));
            } else {
                assert(old(self).pending_msgs(addr@) =~= Seq::<(MessageV, u64)>::empty());
                assert(row0 =~= Seq::<(Message, u64)>::empty());
            }
        }
        row.push((msg, now));
        srows_set(&mut self.pending, addr.clone(), row);
        proof {
            assert(self.pending_msgs(addr@) =~= old(self).pending_msgs(addr@).push((msg@, now)));
        }
        let dg = self.request_verification(self.id, addr, now);
        let mut out: Vec<Datagram> = Vec::new();
        out.push(dg);
        (false, out)
    }
}

/// A surviving pending row holds exactly the not-yet-expired messages of
/// the old row (compared by value, order aside).
pub open spec fn kept_row_ok(newr: Seq<(MessageV, u64)>, oldr: Seq<(MessageV, u64)>, now: u64) -> bool {
    &&& forall|j: int|
        0 <= j < newr.len() ==> oldr.contains(#[trigger] newr[j]) && newr[j].1 + PENDING_TIMEOUT
            > now
    &&& forall|u: int|
        0 <= u < oldr.len() && (#[trigger] oldr[u]).1 + PENDING_TIMEOUT > now ==> newr.contains(
            oldr[u],
        )
}

impl Network {
    /// Gossip one frame to up to [`FANOUT`] random neighbors, unless the
    /// identical payload already went out within the suppression window;
    /// afterwards the payload is remembered as freshly broadcast.
    pub fn send_several(&mut self, msg: Message, now: u64) -> (out: Vec<Datagram>)
        requires
            old(self).wf(),
            old(self).times_le(now),
            now <= MAX_TIME,
        ensures
            final(self).wf(),
            final(self).times_le(now),
            final(self).id_spec() == old(self).id_spec(),
            old(self).recently_broadcast(msg@, now) ==> *final(self) == *old(self) && out@.len()
                == 0,
            !old(self).recently_broadcast(msg@, now) ==> out@.len() <= FANOUT,
            !old(self).recently_broadcast(msg@, now) ==> out@.len() as int == vstd::math::min(
                FANOUT as int,
                old(self).neighbor_count(now),
            ),
            !old(self).recently_broadcast(msg@, now) ==> (forall|i: int|
                0 <= i < out@.len() ==> (#[trigger] out@[i]).1@ == msg@ && old(self).is_neighbor_at(out@[i].0@, now)),
            !old(self).recently_broadcast(msg@, now) ==> (forall|i: int, j: int|
                0 <= i < j < out@.len() ==> out@[i].0@ != out@[j].0@),
            !old(self).recently_broadcast(msg@, now) ==> final(self).rb_has(msg@) && final(self).rb_time(msg@) == now,
            !old(self).recently_broadcast(msg@, now) ==> (forall|m2: MessageV|
                m2 != msg@ ==> ((final(self).rb_has(m2) <==> old(self).rb_has(m2)) && (old(self).rb_has(m2) ==> final(self).rb_time(m2) == old(self).rb_time(m2)))),
            forall|a: Seq<char>|
                final(self).stores_addr(a) == old(self).stores_addr(a) && (old(self).stores_addr(
                    a,
                ) ==> final(self).addr_record(a) == old(self).addr_record(a)),
            forall|a: Seq<char>|
                final(self).pending_msgs(a) == old(self).pending_msgs(a) && final(self).has_pending(a) == old(self).has_pending(a),
            forall|c: Seq<char>|
                final(self).has_challenge(c) == old(self).has_challenge(c) && (old(self).has_challenge(c) ==> final(self).challenge_addr(c) == old(self).challenge_addr(
                    c,
                )),
            forall|i: int|
                0 <= i < out@.len() ==> final(self).is_verified_at((#[trigger] out@[i]).0@, now),
    {
        let suppressed = match mrows_find(&self.recent_broadcasts, &msg) {
            Some(i) => {
                proof {
                    lemma_mrows_unique(self.recent_broadcasts@, msg@, i as int);
                }
                let t = self.recent_broadcasts[i].1;
                t + REBROADCAST_TIMEOUT > now
            },
            None => false,
        };
        if suppressed {
            return Vec::new();
        }
        let mut neighbors: Vec<String> = Vec::new();
        let n = self.verified_addrs.len();
        for i in 0..n
            invariant
                n == self.verified_addrs@.len(),
                self.wf(),
                self.times_le(now),
                now <= MAX_TIME,
                forall|j: int|
                    0 <= j < neighbors@.len() ==> self.is_neighbor_at(
                        (#[trigger] neighbors@[j])@,
                        now,
                    ),
                forall|j: int|
                    0 <= j < neighbors@.len() ==> srows_idx(
                        self.verified_addrs@,
                        (#[trigger] neighbors@[j])@,
                    ) < i,
                forall|j1: int, j2: int|
                    0 <= j1 < j2 < neighbors@.len() ==> neighbors@[j1]@ != neighbors@[j2]@,
                neighbors@.len() as int == count_neighbors_upto(self.verified_addrs@, i as int, now),
        {
            let keep = self.verified_addrs[i].1.1 && self.verified_addrs[i].1.0
                + VERIFICATION_TIMEOUT >= now;
            if keep {
                proof {
                    lemma_srows_unique(
                        self.verified_addrs@,
                        self.verified_addrs@[i as int].0@,
                        i as int,
                    );
                }
                neighbors.push(self.verified_addrs[i].0.clone());
                proof {
                    assert forall|j1: int, j2: int|
                        0 <= j1 < j2 < neighbors@.len() implies neighbors@[j1]@
                        != neighbors@[j2]@ by {
                        if j2 == neighbors@.len() - 1 {
                            assert(srows_idx(self.verified_addrs@, neighbors@[j1]@) < i);
                            assert(srows_idx(self.verified_addrs@, neighbors@[j2]@) == i);
                        }
                    }
                }
            }
        }
        let idxs = sample_indices(neighbors.len(), FANOUT);
        let k = idxs.len();
        let mut out: Vec<Datagram> = Vec::new();
        let ghost pre_rb = *self;
        for t in 0..k
            invariant
                k == idxs@.len() <= FANOUT,
                forall|u: int| 0 <= u < k ==> (#[trigger] idxs@[u]) < neighbors@.len(),
                forall|u: int, w: int| 0 <= u < w < k ==> idxs@[u] != idxs@[w],
                out@.len() == t,
                forall|u: int|
                    0 <= u < t ==> (#[trigger] out@[u]).0@ == neighbors@[idxs@[u] as int]@
                        && out@[u].1@ == msg@,
                forall|j: int|
                    0 <= j < neighbors@.len() ==> self.is_neighbor_at(
                        (#[trigger] neighbors@[j])@,
                        now,
                    ),
                forall|j1: int, j2: int|
                    0 <= j1 < j2 < neighbors@.len() ==> neighbors@[j1]@ != neighbors@[j2]@,
                *self == pre_rb,
        {
            let a = neighbors[idxs[t]].clone();
            out.push((a, msg.duplicate()));
        }
        proof {
            assert forall|i: int, j: int| 0 <= i < j < out@.len() implies out@[i].0@
                != out@[j].0@ by {
                assert(idxs@[i] != idxs@[j]);
            }
        }
        mrows_set(&mut self.recent_broadcasts, msg, now);
        out
    }

    /// Offer a random sample of our own neighbors to the mesh, as one
    /// gossip round carrying their addresses.
    pub fn swap_neighbors(&mut self, now: u64) -> (out: Vec<Datagram>)
        requires
            old(self).wf(),
            old(self).times_le(now),
            now <= MAX_TIME,
        ensures
            final(self).wf(),
            final(self).times_le(now),
            final(self).id_spec() == old(self).id_spec(),
            out@.len() <= FANOUT,
            forall|i: int|
                0 <= i < out@.len() ==> (#[trigger] out@[i]).1@.from == old(self).id_spec()
                    && out@[i].1@.msg_type is Neighbors && old(self).is_neighbor_at(
                    out@[i].0@,
                    now,
                ) && final(self).is_verified_at(out@[i].0@, now),
            forall|i: int|
                0 <= i < out@.len() ==> ((#[trigger] out@[i]).1@.msg_type matches
                MessageTypeV::Neighbors(ss) && ss.len() <= FANOUT && (forall|j: int|
                    0 <= j < ss.len() ==> old(self).is_neighbor_at(#[trigger] ss[j], now))),
            forall|a: Seq<char>|
                final(self).stores_addr(a) == old(self).stores_addr(a) && (old(self).stores_addr(
                    a,
                ) ==> final(self).addr_record(a) == old(self).addr_record(a)),
            forall|a: Seq<char>|
                final(self).pending_msgs(a) == old(self).pending_msgs(a) && final(self).has_pending(a) == old(self).has_pending(a),
            forall|c: Seq<char>|
                final(self).has_challenge(c) == old(self).has_challenge(c) && (old(self).has_challenge(c) ==> final(self).challenge_addr(c) == old(self).challenge_addr(
                    c,
                )),
            forall|m: MessageV|
                m.msg_type is Neighbors || (final(self).rb_has(m) == old(self).rb_has(m) && (old(
                    self,
                ).rb_has(m) ==> final(self).rb_time(m) == old(self).rb_time(m))),
    {
        let mut neighbors: Vec<String> = Vec::new();
        let n = self.verified_addrs.len();
        for i in 0..n
            invariant
                n == self.verified_addrs@.len(),
                self.wf(),
                self.times_le(now),
                now <= MAX_TIME,
                forall|j: int|
                    0 <= j < neighbors@.len() ==> self.is_neighbor_at(
                        (#[trigger] neighbors@[j])@,
                        now,
                    ),
        {
            let keep = self.verified_addrs[i].1.1 && self.verified_addrs[i].1.0
                + VERIFICATION_TIMEOUT >= now;
            if keep {
                proof {
                    lemma_srows_unique(
                        self.verified_addrs@,
                        self.verified_addrs@[i as int].0@,
                        i as int,
                    );
                }
                neighbors.push(self.verified_addrs[i].0.clone());
            }
        }
        let idxs = sample_indices(neighbors.len(), FANOUT);
        let k = idxs.len();
        let mut selected: Vec<String> = Vec::new();
        for t in 0..k
            invariant
                k == idxs@.len() <= FANOUT,
                forall|u: int| 0 <= u < k ==> (#[trigger] idxs@[u]) < neighbors@.len(),
                self.wf(),
                selected@.len() == t,
                forall|j: int|
                    0 <= j < neighbors@.len() ==> self.is_neighbor_at(
                        (#[trigger] neighbors@[j])@,
                        now,
                    ),
                forall|j: int|
                    0 <= j < selected@.len() ==> self.is_neighbor_at(
                        (#[trigger] selected@[j])@,
                        now,
                    ),
        {
            selected.push(neighbors[idxs[t]].clone());
        }
        let ghost sel0 = selected@;
        let ghost pre = *self;
        let msg = Message::neighbors(self.id, selected);
        let out = self.send_several(msg, now);
        proof {
            assert forall|i: int| 0 <= i < out@.len() implies ((#[trigger] out@[i]).1@.msg_type
                matches MessageTypeV::Neighbors(ss) && ss.len() <= FANOUT && (forall|j: int|
                0 <= j < ss.len() ==> pre.is_neighbor_at(#[trigger] ss[j], now))) by {
                assert(out@[i].1@ == msg@);
                assert(msg@.msg_type->Neighbors_0 == strings_of(sel0));
                assert forall|j: int|
                    0 <= j < strings_of(sel0).len() implies pre.is_neighbor_at(
                    #[trigger] strings_of(sel0)[j],
                    now,
                ) by {
                    assert(strings_of(sel0)[j] == sel0[j]@);
                }
            }
        }
        out
    }

    /// Absorb a gossiped list of candidate peer addresses: open handshakes
    /// toward unknown ones, in random order, up to the connection deficit.
    pub fn swapped_neighbors(&mut self, neighbors: Vec<String>, now: u64) -> (out: Vec<Datagram>)
        requires
            old(self).wf(),
            old(self).times_le(now),
            now <= MAX_TIME,
        ensures
            final(self).wf(),
            final(self).times_le(now),
            final(self).id_spec() == old(self).id_spec(),
            out@.len() + old(self).peer_count() <= TARGET_CONNECTIONS || out@.len() == 0,
            forall|i: int|
                0 <= i < out@.len() ==> (#[trigger] out@[i]).1@.msg_type is Verify
                    && out@[i].1@.from == old(self).id_spec() && !old(self).stores_addr(
                    out@[i].0@,
                ),
            forall|a: Seq<char>|
                final(self).stores_addr(a) == old(self).stores_addr(a) && (old(self).stores_addr(
                    a,
                ) ==> final(self).addr_record(a) == old(self).addr_record(a)),
            forall|a: Seq<char>|
                final(self).pending_msgs(a) == old(self).pending_msgs(a) && final(self).has_pending(a) == old(self).has_pending(a),
            forall|m2: MessageV|
                final(self).rb_has(m2) == old(self).rb_has(m2) && (old(self).rb_has(m2) ==> final(self).rb_time(m2) == old(self).rb_time(m2)),
            forall|u: int| 0 <= u < out@.len() ==> addr_among(neighbors@, (#[trigger] out@[u]).0@),
            out@.len() < (if old(self).peer_count() >= TARGET_CONNECTIONS {
                0int
            } else {
                TARGET_CONNECTIONS - old(self).peer_count()
            }) ==> (forall|j: int|
                0 <= j < neighbors@.len() && !old(self).stores_addr((#[trigger] neighbors@[j])@)
                    ==> target_in(out@, neighbors@[j]@)),
    {
        let mut candidates = neighbors;
        shuffle_strings(&mut candidates);
        let ghost cand0 = candidates@;
        let have = self.verified_addrs.len();
        let deficit = if have >= TARGET_CONNECTIONS {
            0
        } else {
            TARGET_CONNECTIONS - have
        };
        let mut out: Vec<Datagram> = Vec::new();
        let n = candidates.len();
        let ghost start = *self;
        let mut i: usize = 0;
        while i < n && out.len() < deficit
            invariant
                i <= n,
                n == candidates@.len(),
                candidates@ == cand0,
                cand0.to_multiset() == neighbors@.to_multiset(),
                self.wf(),
                self.times_le(now),
                now <= MAX_TIME,
                deficit == if start.peer_count() >= TARGET_CONNECTIONS {
                    0int
                } else {
                    TARGET_CONNECTIONS - start.peer_count()
                },
                out@.len() <= deficit,
                self.id_spec() == start.id_spec(),
                forall|u: int|
                    0 <= u < out@.len() ==> (#[trigger] out@[u]).1@.msg_type is Verify
                        && out@[u].1@.from == start.id_spec() && !start.stores_addr(out@[u].0@),
                forall|u: int| 0 <= u < out@.len() ==> addr_among(cand0, (#[trigger] out@[u]).0@),
                forall|j: int|
                    0 <= j < i && !start.stores_addr((#[trigger] cand0[j])@) ==> target_in(
                        out@,
                        cand0[j]@,
                    ),
                forall|a: Seq<char>|
                    self.stores_addr(a) == start.stores_addr(a) && (start.stores_addr(a)
                        ==> self.addr_record(a) == start.addr_record(a)),
                forall|a: Seq<char>|
                    self.pending_msgs(a) == start.pending_msgs(a) && self.has_pending(a)
                        == start.has_pending(a),
                forall|m2: MessageV|
                    self.rb_has(m2) == start.rb_has(m2) && (start.rb_has(m2) ==> self.rb_time(m2)
                        == start.rb_time(m2)),
            decreases n - i,
        {
            let known = match srows_find(&self.verified_addrs, &candidates[i]) {
                Some(_) => true,
                None => false,
            };
            if !known {
                let ghost out0 = out@;
                let dg = self.request_verification(self.id, candidates[i].clone(), now);
                out.push(dg);
                proof {
                    assert(out@.last().0@ == cand0[i as int]@);
                    assert(addr_among(cand0, out@.last().0@));
                    assert forall|u: int| 0 <= u < out@.len() implies addr_among(
                        cand0,
                        (#[trigger] out@[u]).0@,
                    ) by {
                        if u < out0.len() {
                            assert(out@[u] == out0[u]);
                        }
                    }
                    assert forall|j: int|
                        0 <= j < i + 1 && !start.stores_addr((#[trigger] cand0[j])@) implies
                        target_in(out@, cand0[j]@) by {
                        if j < i {
                            let w = choose|w: int|
                                0 <= w < out0.len() && (#[trigger] out0[w]).0@ == cand0[j]@;
                            assert(out@[w] == out0[w]);
                        } else {
                            assert(out@.last().0@ == cand0[j]@);
                        }
                    }
                }
            }
            i += 1;
        }
        proof {
            assert forall|u: int| 0 <= u < out@.len() implies addr_among(
                neighbors@,
                (#[trigger] out@[u]).0@,
            ) by {
                let j = choose|j: int| 0 <= j < cand0.len() && (#[trigger] cand0[j])@ == out@[u].0@;
                lemma_multiset_member(neighbors@, cand0, cand0[j]);
                let w = choose|w: int| 0 <= w < neighbors@.len() && neighbors@[w] == cand0[j];
                assert(neighbors@[w]@ == out@[u].0@);
            }
            if out@.len() < deficit {
                assert(i == n);
                assert forall|j: int|
                    0 <= j < neighbors@.len() && !start.stores_addr((#[trigger] neighbors@[j])@)
                        implies target_in(out@, neighbors@[j]@) by {
                    assert(neighbors@.contains(neighbors@[j]));
                    lemma_multiset_member(cand0, neighbors@, neighbors@[j]);
                    let p = choose|p: int| 0 <= p < cand0.len() && cand0[p] == neighbors@[j];
                    assert(cand0[p]@ == neighbors@[j]@);
                    assert(target_in(out@, cand0[p]@));
                }
            }
        }
        out
    }

    /// How many peer records the table holds, expired or not.
    pub closed spec fn peer_count(self) -> int {
        self.verified_addrs@.len() as int
    }

    /// How many unexpired gossip neighbors the table holds at time `now`.
    pub closed spec fn neighbor_count(self, now: u64) -> int {
        count_neighbors_upto(self.verified_addrs@, self.verified_addrs@.len() as int, now)
    }
}

/// One surviving buffered row: it descends from an old row with the same
/// address whose messages it filtered by age.
pub open spec fn pending_row_claim(
    rowpair: (String, Vec<(Message, u64)>),
    pend0: Seq<(String, Vec<(Message, u64)>)>,
    now: u64,
) -> bool {
    exists|m: int|
        0 <= m < pend0.len() && (#[trigger] pend0[m]).0@ == rowpair.0@ && kept_row_ok(
            row_views(rowpair.1@),
            row_views(pend0[m].1@),
            now,
        )
}

/// A key already bound among the first `n` rows.
pub open spec fn key_among(
    pend0: Seq<(String, Vec<(Message, u64)>)>,
    n: int,
    k: Seq<char>,
) -> bool {
    exists|m: int| 0 <= m < n && (#[trigger] pend0[m]).0@ == k
}

impl Network {
    /// The periodic housekeeping pass: evict peers whose verification
    /// expired, drop dedupe entries past the suppression window, flush
    /// buffered messages whose address is verified by now, and discard
    /// buffered messages that waited too long.
    pub fn clean(&mut self, now: u64) -> (out: Vec<Datagram>)
        requires
            old(self).wf(),
            old(self).times_le(now),
            now <= MAX_TIME,
        ensures
            final(self).wf(),
            final(self).times_le(now),
            final(self).id_spec() == old(self).id_spec(),
            forall|a: Seq<char>|
                final(self).stores_addr(a) <==> (old(self).stores_addr(a) && old(self).addr_record(a).0 + VERIFICATION_TIMEOUT >= now),
            forall|a: Seq<char>|
                final(self).stores_addr(a) ==> final(self).addr_record(a) == old(self).addr_record(a),
            forall|m: MessageV|
                final(self).rb_has(m) <==> (old(self).rb_has(m) && old(self).rb_time(m)
                    + REBROADCAST_TIMEOUT > now),
            forall|m: MessageV|
                final(self).rb_has(m) ==> final(self).rb_time(m) == old(self).rb_time(m),
            forall|c: Seq<char>|
                final(self).has_challenge(c) == old(self).has_challenge(c) && (old(self).has_challenge(c) ==> final(self).challenge_addr(c) == old(self).challenge_addr(
                    c,
                )),
            forall|a: Seq<char>|
                final(self).is_verified_at(a, now) ==> !final(self).has_pending(a),
            forall|i: int|
                0 <= i < out@.len() ==> final(self).is_verified_at((#[trigger] out@[i]).0@, now)
                    && pending_had(*old(self), out@[i].0@, out@[i].1@),
            forall|a: Seq<char>, j: int|
                #![trigger old(self).pending_msgs(a)[j]]
                final(self).is_verified_at(a, now) && 0 <= j < old(self).pending_msgs(a).len()
                    ==> dg_in(out@, a, old(self).pending_msgs(a)[j].0),
            forall|a: Seq<char>|
                !final(self).is_verified_at(a, now) ==> kept_row_ok(
                    final(self).pending_msgs(a),
                    old(self).pending_msgs(a),
                    now,
                ),
    {
        let ghost pre = *self;
        // evict expired peers
        let mut kept_addrs: Vec<(String, (u64, bool))> = Vec::new();
        let na = self.verified_addrs.len();
        let mut i: usize = 0;
        while i < na
            invariant
                i <= na,
                na == self.verified_addrs@.len(),
                self.wf(),
                self.times_le(now),
                now <= MAX_TIME,
                *self == pre,
                srows_unique(kept_addrs@),
                rows_from(kept_addrs@, pre.verified_rows().take(i as int)),
                forall|j: int|
                    0 <= j < kept_addrs@.len() ==> (#[trigger] kept_addrs@[j]).1.0
                        + VERIFICATION_TIMEOUT >= now,
                forall|m: int|
                    0 <= m < i && (#[trigger] pre.verified_rows()[m]).1.0 + VERIFICATION_TIMEOUT
                        >= now ==> kept_addrs@.contains(pre.verified_rows()[m]),
            decreases na - i,
        {
            let ghost rows = pre.verified_rows();
            let ghost kept0 = kept_addrs@;
            let keep = self.verified_addrs[i].1.0 + VERIFICATION_TIMEOUT >= now;
            if keep {
                proof {
                    if srows_has(kept_addrs@, rows[i as int].0@) {
                        let j = srows_idx(kept_addrs@, rows[i as int].0@);
                        assert(rows.take(i as int).contains(kept_addrs@[j]));
                        let w = choose|w: int|
                            0 <= w < rows.take(i as int).len() && rows.take(i as int)[w]
                                == kept_addrs@[j];
                        assert(rows[w] == kept_addrs@[j]);
                        assert(rows[w].0@ != rows[i as int].0@);
                        assert(false);
                    }
                }
                kept_addrs.push((self.verified_addrs[i].0.clone(), self.verified_addrs[i].1));
                proof {
                    assert(kept_addrs@.last() == rows[i as int]);
                }
            }
            proof {
                assert(rows.take(i + 1)[i as int] == rows[i as int]);
                assert(rows.take(i + 1).contains(rows[i as int]));
                lemma_rows_from_grow(kept0, rows.take(i as int), rows.take(i + 1));
                if keep {
                    lemma_rows_from_push(kept0, rows.take(i + 1), rows[i as int]);
                }
                assert forall|m: int|
                    0 <= m < i + 1 && (#[trigger] rows[m]).1.0 + VERIFICATION_TIMEOUT
                        >= now implies kept_addrs@.contains(rows[m]) by {
                    if m < i {
                        assert(kept0.contains(rows[m]));
                        let w = choose|w: int| 0 <= w < kept0.len() && kept0[w] == rows[m];
                        assert(kept_addrs@[w] == rows[m]);
                    } else {
                        assert(kept_addrs@.last() == rows[m]);
                    }
                }
            }
            i += 1;
        }
        self.verified_addrs = kept_addrs;
        proof {
            let rows = pre.verified_rows();
            assert forall|a: Seq<char>| self.stores_addr(a) implies (pre.stores_addr(a)
                && pre.addr_record(a).0 + VERIFICATION_TIMEOUT >= now && self.addr_record(a)
                == pre.addr_record(a)) by {
                let j = srows_idx(self.verified_addrs@, a);
                assert(self.verified_addrs@[j].0@ == a);
                lemma_srows_unique(self.verified_addrs@, a, j);
                assert(rows.take(rows.len() as int) =~= rows);
                assert(rows.contains(self.verified_addrs@[j]));
                let w = choose|w: int|
                    0 <= w < rows.len() && rows[w] == self.verified_addrs@[j];
                lemma_srows_unique(rows, a, w);
            }
            assert forall|a: Seq<char>| pre.stores_addr(a) && pre.addr_record(a).0
                + VERIFICATION_TIMEOUT >= now implies self.stores_addr(a) by {
                let m = srows_idx(rows, a);
                assert(rows[m].0@ == a);
                lemma_srows_unique(rows, a, m);
                assert(self.verified_addrs@.contains(rows[m]));
                let w = choose|w: int|
                    0 <= w < self.verified_addrs@.len() && self.verified_addrs@[w] == rows[m];
                assert(self.verified_addrs@[w].0@ == a);
            }
        }
        // drop dedupe entries past the window
        let mut kept_rb: Vec<(Message, u64)> = Vec::new();
        let nr = self.recent_broadcasts.len();
        let ghost rb0 = pre.rb_rows();
        let mut i: usize = 0;
        while i < nr
            invariant
                i <= nr,
                nr == rb0.len(),
                self.recent_broadcasts@ == rb0,
                mrows_unique(rb0),
                forall|u: int| 0 <= u < rb0.len() ==> (#[trigger] rb0[u]).1 <= now,
                now <= MAX_TIME,
                mrows_unique(kept_rb@),
                forall|j: int|
                    0 <= j < kept_rb@.len() ==> (#[trigger] kept_rb@[j]).1 + REBROADCAST_TIMEOUT
                        > now && kept_rb@[j].1 <= now,
                forall|j: int|
                    #![trigger kept_rb@[j]]
                    0 <= j < kept_rb@.len() ==> exists|u: int|
                        0 <= u < i && kept_rb@[j].0@ == (#[trigger] rb0[u]).0@ && kept_rb@[j].1
                            == rb0[u].1,
                forall|u: int|
                    0 <= u < i && (#[trigger] rb0[u]).1 + REBROADCAST_TIMEOUT > now ==> mrows_has(
                        kept_rb@,
                        rb0[u].0@,
                    ) && mrows_at(kept_rb@, rb0[u].0@) == rb0[u].1,
            decreases nr - i,
        {
            let ghost kept0 = kept_rb@;
            let keep = self.recent_broadcasts[i].1 + REBROADCAST_TIMEOUT > now;
            if keep {
                proof {
                    if mrows_has(kept_rb@, rb0[i as int].0@) {
                        let j = mrows_idx(kept_rb@, rb0[i as int].0@);
                        let u = choose|u: int|
                            0 <= u < i && kept_rb@[j].0@ == (#[trigger] rb0[u]).0@ && kept_rb@[j].1
                                == rb0[u].1;
                        assert(rb0[u].0@ != rb0[i as int].0@);
                        assert(false);
                    }
                }
                let m = self.recent_broadcasts[i].0.duplicate();
                proof {
                    assert(m@ == rb0[i as int].0@);
                }
                kept_rb.push((m, self.recent_broadcasts[i].1));
                proof {
                    lemma_mrows_unique(kept_rb@, rb0[i as int].0@, kept_rb@.len() - 1);
                    assert forall|u: int|
                        0 <= u < i + 1 && (#[trigger] rb0[u]).1 + REBROADCAST_TIMEOUT
                            > now implies mrows_has(kept_rb@, rb0[u].0@) && mrows_at(
                        kept_rb@,
                        rb0[u].0@,
                    ) == rb0[u].1 by {
                        if u < i {
                            let j = mrows_idx(kept0, rb0[u].0@);
                            assert(kept0[j].0@ == rb0[u].0@);
                            assert(kept_rb@[j] == kept0[j]);
                            lemma_mrows_unique(kept_rb@, rb0[u].0@, j);
                        }
                    }
                }
            }
            i += 1;
        }
        self.recent_broadcasts = kept_rb;
        proof {
            assert forall|m: MessageV| self.rb_has(m) implies (pre.rb_has(m) && pre.rb_time(m)
                + REBROADCAST_TIMEOUT > now && self.rb_time(m) == pre.rb_time(m)) by {
                let j = mrows_idx(self.recent_broadcasts@, m);
                assert(self.recent_broadcasts@[j].0@ == m);
                lemma_mrows_unique(self.recent_broadcasts@, m, j);
                let u = choose|u: int|
                    0 <= u < rb0.len() && self.recent_broadcasts@[j].0@ == (#[trigger] rb0[u]).0@
                        && self.recent_broadcasts@[j].1 == rb0[u].1;
                lemma_mrows_unique(rb0, m, u);
            }
            assert forall|m: MessageV| pre.rb_has(m) && pre.rb_time(m) + REBROADCAST_TIMEOUT
                > now implies self.rb_has(m) by {
                let u = mrows_idx(rb0, m);
                assert(rb0[u].0@ == m);
                lemma_mrows_unique(rb0, m, u);
                assert(mrows_has(self.recent_broadcasts@, rb0[u].0@));
            }
        }
        // flush or prune the pending buffer
        let mut out: Vec<Datagram> = Vec::new();
        let mut new_pending: Vec<(String, Vec<(Message, u64)>)> = Vec::new();
        let np = self.pending.len();
        let ghost pend0 = pre.pending_rows();
        let mut i: usize = 0;
        while i < np
            invariant
                i <= np,
                np == pend0.len(),
                self.pending@ == pend0,
                pend0 == pre.pending_rows(),
                srows_unique(pend0),
                self.wf(),
                self.times_le(now),
                now <= MAX_TIME,
                forall|j: int, u: int|
                    0 <= j < pend0.len() && 0 <= u < pend0[j].1@.len() ==> (
                    #[trigger] pend0[j].1@[u]).1 <= now,
                srows_unique(new_pending@),
                forall|j: int, t: int|
                    0 <= j < new_pending@.len() && 0 <= t < new_pending@[j].1@.len() ==> (
                    #[trigger] new_pending@[j].1@[t]).1 <= now,
                forall|j: int|
                    0 <= j < new_pending@.len() ==> key_among(
                        pend0,
                        i as int,
                        (#[trigger] new_pending@[j]).0@,
                    ),
                forall|j: int|
                    0 <= j < new_pending@.len() ==> pending_row_claim(
                        #[trigger] new_pending@[j],
                        pend0,
                        now,
                    ),
                forall|j: int|
                    0 <= j < new_pending@.len() ==> !self.is_verified_at(
                        (#[trigger] new_pending@[j]).0@,
                        now,
                    ),
                forall|m: int|
                    0 <= m < i && !self.is_verified_at((#[trigger] pend0[m]).0@, now) && !(forall|
                        u: int,
                    |
                        0 <= u < pend0[m].1@.len() ==> (#[trigger] pend0[m].1@[u]).1
                            + PENDING_TIMEOUT <= now) ==> srows_has(new_pending@, pend0[m].0@),
                forall|u: int|
                    0 <= u < out@.len() ==> self.is_verified_at((#[trigger] out@[u]).0@, now)
                        && pending_had(pre, out@[u].0@, out@[u].1@),
                forall|m: int, j: int|
                    #![trigger pend0[m].1@[j]]
                    0 <= m < i && self.is_verified_at(pend0[m].0@, now) && 0 <= j
                        < pend0[m].1@.len() ==> dg_in(out@, pend0[m].0@, pend0[m].1@[j].0@),
            decreases np - i,
        {
            proof {
                lemma_srows_unique(pend0, pend0[i as int].0@, i as int);
            }
            let addr_ok = match srows_find(&self.verified_addrs, &self.pending[i].0) {
                Some(vi) => {
                    proof {
                        lemma_srows_unique(
                            self.verified_addrs@,
                            self.pending@[i as int].0@,
                            vi as int,
                        );
                    }
                    self.verified_addrs[vi].1.0 + VERIFICATION_TIMEOUT >= now
                },
                None => false,
            };
            proof {
                assert(addr_ok == self.is_verified_at(pend0[i as int].0@, now));
            }
            let row = &self.pending[i].1;
            let c = row.len();
            if addr_ok {
                let mut batch: Vec<Datagram> = Vec::new();
                let mut t: usize = 0;
                while t < c
                    invariant
                        t <= c,
                        c == row@.len(),
                        row@ == pend0[i as int].1@,
                        self.pending@ == pend0,
                        (i as int) < pend0.len(),
                        batch@.len() == t,
                        forall|u: int|
                            0 <= u < t ==> (#[trigger] batch@[u]).0@ == pend0[i as int].0@
                                && batch@[u].1@ == pend0[i as int].1@[u].0@,
                    decreases c - t,
                {
                    let a2 = self.pending[i].0.clone();
                    let m2 = row[t].0.duplicate();
                    batch.push((a2, m2));
                    t += 1;
                }
                let ghost out0 = out@;
                let ghost batch0 = batch@;
                out.append(&mut batch);
                proof {
                    assert(out@ == out0 + batch0);
                    lemma_srows_unique(pend0, pend0[i as int].0@, i as int);
                    assert(pre.pending_msgs(pend0[i as int].0@) == row_views(pend0[i as int].1@));
                    assert forall|u: int| 0 <= u < out@.len() implies self.is_verified_at(
                        (#[trigger] out@[u]).0@,
                        now,
                    ) && pending_had(pre, out@[u].0@, out@[u].1@) by {
                        if u < out0.len() {
                            assert(out@[u] == out0[u]);
                        } else {
                            let j = u - out0.len();
                            assert(out@[u] == batch0[j]);
                            assert(pre.pending_msgs(out@[u].0@)[j] == (
                                pend0[i as int].1@[j].0@,
                                pend0[i as int].1@[j].1,
                            ));
                        }
                    }
                    assert forall|m: int, j: int|
                        #![trigger pend0[m].1@[j]]
                        0 <= m < i + 1 && self.is_verified_at(pend0[m].0@, now) && 0 <= j
                            < pend0[m].1@.len() implies dg_in(
                        out@,
                        pend0[m].0@,
                        pend0[m].1@[j].0@,
                    ) by {
                        if m < i {
                            let w = choose|w: int|
                                0 <= w < out0.len() && (#[trigger] out0[w]).0@ == pend0[m].0@
                                    && out0[w].1@ == pend0[m].1@[j].0@;
                            assert(out@[w] == out0[w]);
                        } else {
                            assert(out@[out0.len() + j] == batch0[j]);
                            assert(out@[out0.len() + j].0@ == pend0[m].0@ && out@[out0.len()
                                + j].1@ == pend0[m].1@[j].0@);
                        }
                    }
                }
            } else {
                let mut kept_row: Vec<(Message, u64)> = Vec::new();
                let mut t: usize = 0;
                while t < c
                    invariant
                        t <= c,
                        c == row@.len(),
                        row@ == pend0[i as int].1@,
                        self.pending@ == pend0,
                        (i as int) < pend0.len(),
                        now <= MAX_TIME,
                        forall|j: int, u: int|
                            0 <= j < pend0.len() && 0 <= u < pend0[j].1@.len() ==> (
                            #[trigger] pend0[j].1@[u]).1 <= now,
                        forall|j: int|
                            0 <= j < kept_row@.len() ==> row_views(row@).contains(
                                #[trigger] row_views(kept_row@)[j],
                            ),
                        forall|j: int|
                            0 <= j < kept_row@.len() ==> (#[trigger] kept_row@[j]).1
                                + PENDING_TIMEOUT > now && kept_row@[j].1 <= now,
                        forall|u: int|
                            0 <= u < t && (#[trigger] row@[u]).1 + PENDING_TIMEOUT > now
                                ==> row_views(kept_row@).contains(row_views(row@)[u]),
                    decreases c - t,
                {
                    if row[t].1 + PENDING_TIMEOUT > now {
                        let ghost klen = kept_row@.len() as int;
                        let ghost kept0 = kept_row@;
                        kept_row.push((row[t].0.duplicate(), row[t].1));
                        proof {
                            assert(row_views(kept_row@)[klen] == row_views(row@)[t as int]);
                            assert(row_views(row@).contains(row_views(kept_row@)[klen]));
                            assert forall|j: int| 0 <= j < kept_row@.len() implies row_views(
                                row@,
                            ).contains(#[trigger] row_views(kept_row@)[j]) by {
                                if j < klen {
                                    assert(row_views(kept_row@)[j] == row_views(kept0)[j]);
                                }
                            }
                            assert forall|u: int|
                                0 <= u < t + 1 && (#[trigger] row@[u]).1 + PENDING_TIMEOUT
                                    > now implies row_views(kept_row@).contains(
                                row_views(row@)[u],
                            ) by {
                                if u < t {
                                    let w = choose|w: int|
                                        0 <= w < row_views(kept0).len() && row_views(kept0)[w]
                                            == row_views(row@)[u];
                                    assert(row_views(kept_row@)[w] == row_views(kept0)[w]);
                                }
                            }
                            assert forall|j: int| 0 <= j < kept_row@.len() implies (
                            #[trigger] kept_row@[j]).1 + PENDING_TIMEOUT > now && kept_row@[j].1
                                <= now by {
                                if j < klen {
                                    assert(kept_row@[j] == kept0[j]);
                                } else {
                                    assert(kept_row@[j].1 == row@[t as int].1);
                                    assert(pend0[i as int].1@[t as int].1 <= now);
                                }
                            }
                        }
                    }
                    t += 1;
                }
                if kept_row.len() > 0 {
                    proof {
                        if srows_has(new_pending@, pend0[i as int].0@) {
                            let j = srows_idx(new_pending@, pend0[i as int].0@);
                            assert(key_among(pend0, i as int, new_pending@[j].0@));
                            let m = choose|m: int|
                                0 <= m < i && (#[trigger] pend0[m]).0@ == pend0[i as int].0@;
                            assert(false);
                        }
                    }
                    let ghost newp0 = new_pending@;
                    let ghost krow = kept_row@;
                    new_pending.push((self.pending[i].0.clone(), kept_row));
                    proof {
                        let newp = new_pending@;
                        assert(newp.last().0@ == pend0[i as int].0@ && newp.last().1@ == krow);
                        assert forall|j1: int, j2: int| 0 <= j1 < j2 < newp.len() implies
                            newp[j1].0@ != newp[j2].0@ by {
                            if j2 == newp.len() - 1 {
                                assert(key_among(pend0, i as int, newp[j1].0@));
                                let m = choose|m: int|
                                    0 <= m < i && (#[trigger] pend0[m]).0@ == newp[j1].0@;
                                assert(pend0[m].0@ != pend0[i as int].0@);
                            } else {
                                assert(newp[j1] == newp0[j1] && newp[j2] == newp0[j2]);
                            }
                        }
                        assert forall|j: int| 0 <= j < newp.len() implies key_among(
                            pend0,
                            i + 1,
                            (#[trigger] newp[j]).0@,
                        ) by {
                            if j < newp.len() - 1 {
                                assert(key_among(pend0, i as int, newp0[j].0@));
                                let m = choose|m: int|
                                    0 <= m < i && (#[trigger] pend0[m]).0@ == newp0[j].0@;
                                assert(0 <= m < i + 1 && pend0[m].0@ == newp[j].0@);
                            } else {
                                assert(pend0[i as int].0@ == newp[j].0@);
                            }
                        }
                        assert(kept_row_ok(row_views(krow), row_views(pend0[i as int].1@), now));
                        assert(pending_row_claim(newp.last(), pend0, now));
                        assert forall|j: int| 0 <= j < newp.len() implies pending_row_claim(
                            #[trigger] newp[j],
                            pend0,
                            now,
                        ) && !self.is_verified_at(newp[j].0@, now) by {
                            if j < newp.len() - 1 {
                                assert(newp[j] == newp0[j]);
                            } else {
                                assert(newp[j].0@ == pend0[i as int].0@);
                                assert(!self.is_verified_at(pend0[i as int].0@, now));
                            }
                        }
                        assert forall|j: int, t2: int|
                            0 <= j < newp.len() && 0 <= t2 < newp[j].1@.len() implies (
                        #[trigger] newp[j].1@[t2]).1 <= now by {
                            if j < newp.len() - 1 {
                                assert(newp[j] == newp0[j]);
                            } else {
                                assert(newp[j].1@ == krow);
                                assert(row_views(krow)[t2] == (krow[t2].0@, krow[t2].1));
                            }
                        }
                        assert forall|m: int|
                            0 <= m < i + 1 && !self.is_verified_at((#[trigger] pend0[m]).0@, now)
                                && !(forall|u: int|
                                0 <= u < pend0[m].1@.len() ==> (#[trigger] pend0[m].1@[u]).1
                                    + PENDING_TIMEOUT <= now) implies srows_has(
                            newp,
                            pend0[m].0@,
                        ) by {
                            if m < i {
                                let w = srows_idx(newp0, pend0[m].0@);
                                assert(newp0[w].0@ == pend0[m].0@);
                                assert(newp[w].0@ == pend0[m].0@);
                            } else {
                                assert(newp.last().0@ == pend0[m].0@);
                            }
                        }
                    }
                } else {
                    proof {
                        assert forall|u: int|
                            0 <= u < pend0[i as int].1@.len() implies (
                        #[trigger] pend0[i as int].1@[u]).1 + PENDING_TIMEOUT <= now by {
                            if pend0[i as int].1@[u].1 + PENDING_TIMEOUT > now {
                                assert(row_views(kept_row@).contains(
                                    row_views(pend0[i as int].1@)[u],
                                ));
                                let w = choose|w: int|
                                    0 <= w < row_views(kept_row@).len() && row_views(kept_row@)[w]
                                        == row_views(pend0[i as int].1@)[u];
                                assert(false);
                            }
                        }
                    }
                }
            }
            proof {
                assert forall|j: int| 0 <= j < new_pending@.len() implies key_among(
                    pend0,
                    i + 1,
                    (#[trigger] new_pending@[j]).0@,
                ) by {
                    assert(key_among(pend0, i as int, new_pending@[j].0@) || key_among(
                        pend0,
                        i + 1,
                        new_pending@[j].0@,
                    ));
                    if key_among(pend0, i as int, new_pending@[j].0@) {
                        let m = choose|m: int|
                            0 <= m < i && (#[trigger] pend0[m]).0@ == new_pending@[j].0@;
                        assert(0 <= m < i + 1 && pend0[m].0@ == new_pending@[j].0@);
                    }
                }
            }
            i += 1;
        }
        self.pending = new_pending;
        proof {
            assert forall|a: Seq<char>| self.is_verified_at(a, now) implies !self.has_pending(
                a,
            ) by {
                if self.has_pending(a) {
                    let j = srows_idx(self.pending@, a);
                    assert(self.pending@[j].0@ == a);
                    assert(!self.is_verified_at(self.pending@[j].0@, now));
                }
            }
            assert forall|a: Seq<char>| !self.is_verified_at(a, now) implies kept_row_ok(
                self.pending_msgs(a),
                pre.pending_msgs(a),
                now,
            ) by {
                if srows_has(self.pending@, a) {
                    let j = srows_idx(self.pending@, a);
                    assert(self.pending@[j].0@ == a);
                    lemma_srows_unique(self.pending@, a, j);
                    assert(pending_row_claim(self.pending@[j], pend0, now));
                    let m = choose|m: int|
                        0 <= m < pend0.len() && (#[trigger] pend0[m]).0@ == self.pending@[j].0@
                            && kept_row_ok(
                            row_views(self.pending@[j].1@),
                            row_views(pend0[m].1@),
                            now,
                        );
                    lemma_srows_unique(pend0, a, m);
                    assert(self.pending_msgs(a) == row_views(self.pending@[j].1@));
                    assert(pre.pending_msgs(a) == row_views(pend0[m].1@));
                } else {
                    assert(self.pending_msgs(a) =~= Seq::<(MessageV, u64)>::empty());
                    if srows_has(pend0, a) {
                        let m = srows_idx(pend0, a);
                        lemma_srows_unique(pend0, a, m);
                        assert(pre.pending_msgs(a) == row_views(pend0[m].1@));
                        assert forall|u: int|
                            0 <= u < pre.pending_msgs(a).len() && (#[trigger] pre.pending_msgs(
                                a,
                            )[u]).1 + PENDING_TIMEOUT > now implies self.pending_msgs(a).contains(
                            pre.pending_msgs(a)[u],
                        ) by {
                            assert(pend0[m].1@[u].1 + PENDING_TIMEOUT > now);
                            assert(!(forall|u2: int|
                                0 <= u2 < pend0[m].1@.len() ==> (#[trigger] pend0[m].1@[u2]).1
                                    + PENDING_TIMEOUT <= now));
                            assert(srows_has(self.pending@, pend0[m].0@));
                            assert(false);
                        }
                    } else {
                        assert(pre.pending_msgs(a) =~= Seq::<(MessageV, u64)>::empty());
                    }
                }
            }
        }
        out
    }

    /// The raw peer rows.
    pub closed spec fn verified_rows(self) -> Seq<(String, (u64, bool))> {
        self.verified_addrs@
    }

    /// The raw dedupe rows.
    pub closed spec fn rb_rows(self) -> Seq<(Message, u64)> {
        self.recent_broadcasts@
    }

    /// The raw pending rows.
    pub closed spec fn pending_rows(self) -> Seq<(String, Vec<(Message, u64)>)> {
        self.pending@
    }
}

/// The values of a buffered row.
pub open spec fn row_views(r: Seq<(Message, u64)>) -> Seq<(MessageV, u64)> {
    r.map_values(|p: (Message, u64)| (p.0@, p.1))
}

/// The row bound to `a`, or nothing.
pub open spec fn srows_opt(rows: Seq<(String, Vec<(Message, u64)>)>, a: Seq<char>) -> Seq<(
    Message,
    u64,
)> {
    if srows_has(rows, a) {
        srows_at(rows, a)@
    } else {
        Seq::empty()
    }
}

} // verus!
