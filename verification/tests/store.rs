use ddb::{Data, Entry, Id, SequenceNumber};

fn entry(id: u16, seq: u64, key: &str, val: &str) -> Entry {
    Entry {
        id: Id::from(id),
        seq: SequenceNumber { num: seq },
        key: key.to_string(),
        val: val.to_string(),
    }
}

#[test]
fn insert_then_contains_and_get() {
    let mut data = Data::new();
    let e = entry(1, 0, "k", "v");
    assert!(!data.contains(&e));
    data.insert(e.duplicate());
    assert!(data.contains(&e));
    let got = data.get(&"k".to_string(), 5);
    assert_eq!(got.len(), 1);
    assert_eq!(got[0], e);
}

#[test]
fn get_orders_newest_sequence_first_then_author() {
    let mut data = Data::new();
    data.insert(entry(2, 0, "k", "old-b"));
    data.insert(entry(1, 0, "k", "old-a"));
    data.insert(entry(9, 1, "k", "new-z"));
    data.insert(entry(3, 1, "k", "new-c"));
    let got = data.get(&"k".to_string(), 10);
    assert_eq!(got.len(), 4);
    // newest sequence group first, authors ascending within a group
    assert_eq!(got[0].val, "new-c");
    assert_eq!(got[1].val, "new-z");
    assert_eq!(got[2].val, "old-a");
    assert_eq!(got[3].val, "old-b");
}

#[test]
fn get_respects_count() {
    let mut data = Data::new();
    for s in 0..6u64 {
        data.insert(entry(1, s, "k", "v"));
    }
    assert_eq!(data.get(&"k".to_string(), 2).len(), 2);
    assert_eq!(data.get(&"k".to_string(), 0).len(), 0);
    assert_eq!(data.get(&"k".to_string(), 100).len(), 6);
    assert_eq!(data.get(&"absent".to_string(), 3).len(), 0);
}

#[test]
fn get_next_id_is_strictly_greater() {
    let mut data = Data::new();
    assert_eq!(data.get_next_id(&"k".to_string()).num, 0);
    data.insert(entry(1, 0, "k", "v0"));
    assert_eq!(data.get_next_id(&"k".to_string()).num, 1);
    data.insert(entry(1, 7, "k", "v7"));
    assert_eq!(data.get_next_id(&"k".to_string()).num, 8);
    assert_eq!(data.get_next_id(&"other".to_string()).num, 0);
}

#[test]
fn overwrite_same_triple_is_idempotent() {
    let mut data = Data::new();
    data.insert(entry(1, 0, "k", "first"));
    data.insert(entry(1, 0, "k", "second"));
    let got = data.get(&"k".to_string(), 10);
    assert_eq!(got.len(), 1);
    assert_eq!(got[0].val, "second");
}

#[test]
fn ingest_stores_every_entry() {
    let mut data = Data::new();
    data.ingest(vec![entry(1, 0, "a", "x"), entry(2, 5, "b", "y")]);
    assert!(data.contains(&entry(1, 0, "a", "x")));
    assert!(data.contains(&entry(2, 5, "b", "y")));
    assert!(!data.contains(&entry(3, 0, "a", "x")));
}
