use ddb::{Entry, Id, Message, MessageType, Network, Node, SequenceNumber};

fn challenge_of(msg: &Message) -> String {
    match msg.msg_type() {
        MessageType::Verify(c, _) => c.clone(),
        _ => panic!("expected a Verify frame"),
    }
}

fn entry(id: u16, seq: u64, key: &str, val: &str) -> Entry {
    Entry {
        id: Id::from(id),
        seq: SequenceNumber { num: seq },
        key: key.to_string(),
        val: val.to_string(),
    }
}

// one peer verifies another, then a frame travels between them
#[test]
fn localhost_send_recv() {
    let listen_addr = "127.0.0.1:1930".to_string();
    let _listener = Network::new(Id::generate());
    let send_id = Id::generate();
    let mut sender = Network::new(send_id);

    // verify listener to sender
    let (v_addr, v_msg) = sender.request_verification(send_id, listen_addr.clone(), 0);
    assert_eq!(v_addr, listen_addr);
    let challenge = challenge_of(&v_msg);
    sender.verified(&challenge, true, 0);
    assert!(sender.is_verified(&listen_addr, 0));

    // send test message
    let msg = Message::get(send_id, "test".into(), 4);
    let (sent, out) = sender.send_addr(listen_addr.clone(), msg.clone(), 1);
    assert!(sent);
    assert_eq!(out.len(), 1);
    let (_addr, return_msg) = &out[0];
    assert_eq!(*return_msg, msg);
}

// handshake: B asks A to verify; A's reply makes A a peer of B
#[test]
fn handshake_installs_peer() {
    let b_id = Id::from(11);
    let a_addr = "127.0.0.1:1930".to_string();
    let mut b = Network::new(b_id);
    let (_, verify_msg) = b.request_verification(b_id, a_addr.clone(), 0);
    let c = challenge_of(&verify_msg);
    assert!(!b.is_verified(&a_addr, 0));
    // A answers with the challenge
    let flushed = b.verified(&c, true, 1);
    assert_eq!(flushed.len(), 0);
    assert!(b.is_verified(&a_addr, 1));
}

// replicate-through-trust: A trusts the author and stores; B only relays
#[test]
fn replicate_through_trust() {
    let a_id = Id::from(1);
    let b_id = Id::from(2);
    let c_id = Id::from(3);
    let mut a = Node::new(a_id);
    let mut b = Node::new(b_id);
    // A's owner raises trust in C above the trusted threshold
    let raise = Message::trust(a_id, c_id, 3000);
    a.process_msg("client".to_string(), raise, 0);
    assert!(a.ident_ref().is_trusted(&c_id));
    assert!(!b.ident_ref().is_trusted(&c_id));

    let e = entry(3, 0, "k", "v");
    let gossip_to_a = Message::values(c_id, vec![e.duplicate()]);
    let gossip_to_b = Message::values(c_id, vec![e.duplicate()]);
    a.process_msg("peer:1".to_string(), gossip_to_a, 1);
    b.process_msg("peer:1".to_string(), gossip_to_b, 1);

    let got_a = a.data_ref().get(&"k".to_string(), 1);
    assert_eq!(got_a.len(), 1);
    assert_eq!(got_a[0].val, "v");
    assert_eq!(got_a[0].id, c_id);
    let got_b = b.data_ref().get(&"k".to_string(), 1);
    assert_eq!(got_b.len(), 0);
}

// a distrusted sender's frames are dropped before dispatch
#[test]
fn distrusted_sender_suppressed() {
    let a_id = Id::from(1);
    let b_id = Id::from(2);
    let mut a = Node::new(a_id);
    // mark B distrusted (base trust 0.2)
    a.process_msg("client".to_string(), Message::trust(a_id, b_id, -3000), 0);
    assert!(a.ident_ref().is_distrusted(&b_id));

    let e = entry(2, 0, "k", "v");
    let out = a.process_msg("peer:2".to_string(), Message::values(b_id, vec![e.duplicate()]), 1);
    assert_eq!(out.len(), 0);
    assert!(!a.data_ref().contains(&e));
}

// an identical payload is not broadcast twice within the window
#[test]
fn rebroadcast_suppressed_within_window() {
    let id = Id::from(5);
    let mut net = Network::new(id);
    // install one neighbor
    let peer = "127.0.0.1:1931".to_string();
    let (_, v) = net.request_verification(id, peer.clone(), 0);
    let c = challenge_of(&v);
    net.verified(&c, true, 0);

    let payload = Message::values(id, vec![entry(5, 0, "k", "v")]);
    let first = net.send_several(payload.duplicate(), 1);
    assert_eq!(first.len(), 1);
    let second = net.send_several(payload.duplicate(), 30);
    assert_eq!(second.len(), 0);
    // after the window has passed the payload may travel again
    let third = net.send_several(payload, 62);
    assert_eq!(third.len(), 1);
}

// a Verify carrying one of our own outstanding challenges is ignored
#[test]
fn reflection_guard() {
    let a_id = Id::from(1);
    let mut a = Node::new(a_id);
    // A opens a handshake toward B, yielding an outstanding challenge
    let link = Message::link(a_id, "127.0.0.1:1931".to_string());
    let out = a.process_msg("client".to_string(), link, 0);
    assert_eq!(out.len(), 1);
    let c = challenge_of(&out[0].1);
    // B, misconfigured, bounces the same challenge back: A must not reply
    let bounced = Message::verify(Id::from(9), c);
    let reply = a.process_msg("127.0.0.1:1931".to_string(), bounced, 1);
    assert_eq!(reply.len(), 0);
    // a fresh foreign challenge, by contrast, is answered
    let foreign = Message::verify(Id::from(9), "zzzzzzzzzz".to_string());
    let reply = a.process_msg("127.0.0.1:1931".to_string(), foreign, 2);
    assert_eq!(reply.len(), 1);
}

// a frame to an unverified address waits until the handshake finishes
#[test]
fn pending_flush() {
    let id = Id::from(6);
    let mut net = Network::new(id);
    let addr = "127.0.0.1:1932".to_string();
    let get = Message::get(id, "k".to_string(), 1);
    let (sent, out) = net.send_addr(addr.clone(), get.clone(), 0);
    assert!(!sent);
    assert_eq!(out.len(), 1);
    assert_eq!(out[0].0, addr);
    let c = challenge_of(&out[0].1);
    // the matching Verified flushes the buffered Get
    let flushed = net.verified(&c, true, 1);
    assert_eq!(flushed.len(), 1);
    assert_eq!(flushed[0].0, addr);
    assert_eq!(flushed[0].1, get);
}

// a locally authored value gets the next sequence number and is stored
#[test]
fn set_assigns_sequence_and_stores() {
    let id = Id::from(7);
    let mut node = Node::new(id);
    node.process_msg("client".to_string(), Message::set(id, "k".to_string(), "v1".to_string()), 0);
    node.process_msg("client".to_string(), Message::set(id, "k".to_string(), "v2".to_string()), 1);
    let got = node.data_ref().get(&"k".to_string(), 1);
    assert_eq!(got.len(), 1);
    assert_eq!(got[0].val, "v2");
    assert_eq!(got[0].seq.num, 1);
    // a Set not from the local client is ignored
    let other = Id::from(8);
    node.process_msg(
        "peer:3".to_string(),
        Message::set(other, "k2".to_string(), "x".to_string()),
        2,
    );
    assert_eq!(node.data_ref().get(&"k2".to_string(), 1).len(), 0);
}

// peer-reported trust lands in the offsets, not in base trust
#[test]
fn peer_trust_report_is_second_hand() {
    let a_id = Id::from(1);
    let reporter = Id::from(3);
    let subject = Id::from(2);
    let mut a = Node::new(a_id);
    a.process_msg("peer:4".to_string(), Message::trust(reporter, subject, 10000), 0);
    // base stays at the default; the weighted report adds 0.25
    assert_eq!(a.ident_ref().get_base(&subject), 5000);
    assert_eq!(a.ident_ref().get_trust(&subject), 7500);
}

// a Get from a verified peer is answered with the stored read
#[test]
fn get_replies_through_send_discipline() {
    let id = Id::from(12);
    let mut node = Node::new(id);
    node.process_msg("client".to_string(), Message::set(id, "k".to_string(), "v".to_string()), 0);

    // an unverified asker gets a handshake and the reply is buffered
    let asker = "127.0.0.1:1940".to_string();
    let out = node.process_msg(asker.clone(), Message::get(Id::from(13), "k".to_string(), 1), 1);
    assert_eq!(out.len(), 1);
    assert_eq!(out[0].0, asker);
    let c = challenge_of(&out[0].1);

    // once the handshake completes, the buffered Values reply is flushed
    let flushed = node.process_msg(asker.clone(), Message::verified(Id::from(13), c, true), 2);
    assert_eq!(flushed.len(), 1);
    assert_eq!(flushed[0].0, asker);
    match flushed[0].1.msg_type() {
        MessageType::Values(es) => {
            assert_eq!(es.len(), 1);
            assert_eq!(es[0].val, "v");
        },
        _ => panic!("expected a Values reply"),
    }

    // a verified asker is answered at once
    let out = node.process_msg(asker.clone(), Message::get(Id::from(13), "k".to_string(), 1), 3);
    assert_eq!(out.len(), 1);
    match out[0].1.msg_type() {
        MessageType::Values(es) => assert_eq!(es[0].val, "v"),
        _ => panic!("expected a Values reply"),
    }
}

// GetTrust yields one Trust frame per stored base opinion
#[test]
fn get_trust_lists_every_stored_row() {
    let id = Id::from(14);
    let mut node = Node::new(id);
    node.process_msg("client".to_string(), Message::trust(id, Id::from(2), 1000), 0);
    node.process_msg("client".to_string(), Message::trust(id, Id::from(3), -1000), 0);

    // verify the asker first so the replies go out directly
    let asker = "127.0.0.1:1941".to_string();
    let out = node.process_msg(asker.clone(), Message::get(Id::from(9), "x".to_string(), 1), 1);
    let c = challenge_of(&out[0].1);
    node.process_msg(asker.clone(), Message::verified(Id::from(9), c, true), 2);

    let replies = node.process_msg(asker.clone(), Message::get_trust(Id::from(9)), 3);
    assert_eq!(replies.len(), 2);
    for (addr, reply) in &replies {
        assert_eq!(*addr, asker);
        match reply.msg_type() {
            MessageType::Trust(of, lvl) => {
                if *of == Id::from(2) {
                    assert_eq!(*lvl, 6000);
                } else {
                    assert_eq!(*of, Id::from(3));
                    assert_eq!(*lvl, 4000);
                }
            },
            _ => panic!("expected a Trust reply"),
        }
    }
}

// upkeep evicts peers whose verification has expired
#[test]
fn upkeep_evicts_expired_peers() {
    let id = Id::from(15);
    let mut net = Network::new(id);
    let peer = "127.0.0.1:1942".to_string();
    let (_, v) = net.request_verification(id, peer.clone(), 0);
    let c = challenge_of(&v);
    net.verified(&c, true, 0);
    assert!(net.is_verified(&peer, 0));
    // still alive within the lifetime, gone after it
    net.clean(600);
    assert!(net.is_verified(&peer, 600));
    net.clean(601);
    assert!(!net.is_verified(&peer, 601));
}

// a peer's report about the local node itself is ignored
#[test]
fn self_reports_are_ignored() {
    let us = Id::from(16);
    let reporter = Id::from(3);
    let mut node = Node::new(us);
    node.process_msg("peer:5".to_string(), Message::trust(reporter, us, -32768), 0);
    node.process_msg("peer:6".to_string(), Message::trust(Id::from(4), us, -32768), 0);
    assert_eq!(node.ident_ref().get_trust(&us), 5000);
    assert!(!node.ident_ref().is_distrusted(&us));
}
