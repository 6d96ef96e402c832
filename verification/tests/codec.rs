use ddb::{Entry, Id, Message, SequenceNumber};

fn round_trip(msg: Message) {
    let bytes = msg.serialize();
    let back = Message::deserialize(&bytes).expect("a serialized frame should decode");
    assert_eq!(back, msg);
}

#[test]
fn round_trip_verify() {
    round_trip(Message::verify(Id::from(7), "abcdefghij".to_string()));
}

#[test]
fn round_trip_verified() {
    round_trip(Message::verified(Id::from(8), "jihgfedcba".to_string(), true));
    round_trip(Message::verified(Id::from(8), "jihgfedcba".to_string(), false));
}

#[test]
fn round_trip_get() {
    round_trip(Message::get(Id::from(9), "some key".to_string(), 42));
}

#[test]
fn round_trip_values() {
    let entries = vec![
        Entry {
            id: Id::from(1),
            seq: SequenceNumber { num: 3 },
            key: "k1".to_string(),
            val: "v1".to_string(),
        },
        Entry {
            id: Id::from(2),
            seq: SequenceNumber { num: 9 },
            key: "k2".to_string(),
            val: "a longer value with spaces".to_string(),
        },
    ];
    round_trip(Message::values(Id::from(3), entries));
}

#[test]
fn round_trip_set() {
    round_trip(Message::set(Id::from(4), "key".to_string(), "value".to_string()));
}

#[test]
fn round_trip_link() {
    round_trip(Message::link(Id::from(5), "127.0.0.1:2000".to_string()));
}

#[test]
fn round_trip_neighbors() {
    let addrs = vec!["127.0.0.1:2000".to_string(), "10.0.0.1:1999".to_string()];
    round_trip(Message::neighbors(Id::from(6), addrs));
}

#[test]
fn round_trip_get_trust() {
    round_trip(Message::get_trust(Id::from(10)));
}

#[test]
fn round_trip_trust() {
    round_trip(Message::trust(Id::from(11), Id::from(12), -1234));
    round_trip(Message::trust(Id::from(11), Id::from(12), 10000));
}

#[test]
fn round_trip_unicode_values() {
    round_trip(Message::set(Id::from(4), "clé".to_string(), "två värden 😀".to_string()));
}

#[test]
fn malformed_frames_are_dropped() {
    assert!(Message::deserialize(&[]).is_none());
    assert!(Message::deserialize(&[0, 1]).is_none());
    assert!(Message::deserialize(&[0, 1, 99]).is_none());
    // trailing garbage after a valid frame is rejected
    let mut bytes = Message::get_trust(Id::from(1)).serialize();
    bytes.push(0);
    assert!(Message::deserialize(&bytes).is_none());
}
