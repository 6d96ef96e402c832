use ddb::{Id, Identification};

#[test]
fn default_trust_is_neutral() {
    let ident = Identification::new(Id::from(1));
    let other = Id::from(2);
    assert_eq!(ident.get_trust(&other), 5000);
    assert!(!ident.is_trusted(&other));
    assert!(ident.is_neutral(&other));
    assert!(!ident.is_distrusted(&other));
}

#[test]
fn change_trust_moves_and_clamps() {
    let us = Id::from(1);
    let peer = Id::from(2);
    let mut ident = Identification::new(us);
    ident.change_trust(peer, 3000);
    assert_eq!(ident.get_trust(&peer), 8000);
    assert!(ident.is_trusted(&peer));
    ident.change_trust(peer, 9000);
    assert_eq!(ident.get_trust(&peer), 10000);
    ident.change_trust(peer, -20000);
    assert_eq!(ident.get_trust(&peer), 0);
    assert!(ident.is_distrusted(&peer));
}

#[test]
fn self_trust_changes_are_ignored() {
    let us = Id::from(1);
    let mut ident = Identification::new(us);
    ident.change_trust(us, 4000);
    assert_eq!(ident.get_trust(&us), 5000);
    assert_eq!(ident.base_trust().len(), 0);
}

#[test]
fn change_trust_round_trips_without_clamping() {
    let us = Id::from(1);
    let peer = Id::from(2);
    let mut ident = Identification::new(us);
    ident.change_trust(peer, 1234);
    ident.change_trust(peer, -1234);
    assert_eq!(ident.get_trust(&peer), 5000);
}

#[test]
fn offsets_weight_reports_by_reporter_trust() {
    let us = Id::from(1);
    let reporter = Id::from(3);
    let subject = Id::from(2);
    let mut ident = Identification::new(us);
    // the reporter claims full trust (level 1.0 = 10000 ten-thousandths);
    // weighted by the reporter's own default base 0.5 that adds 0.25
    ident.adjust_offset(reporter, subject, 10000);
    assert_eq!(ident.get_offset(&subject), 2500);
    assert_eq!(ident.get_trust(&subject), 7500);
    assert!(ident.is_trusted(&subject));
    // lowering the reporter's own standing shrinks its report's weight
    ident.change_trust(reporter, -3000);
    assert_eq!(ident.get_trust(&subject), 6000);
    assert!(!ident.is_trusted(&subject));
}

#[test]
fn offset_reports_overwrite_per_reporter() {
    let us = Id::from(1);
    let reporter = Id::from(3);
    let subject = Id::from(2);
    let mut ident = Identification::new(us);
    ident.adjust_offset(reporter, subject, 0);
    assert_eq!(ident.get_trust(&subject), 2500);
    ident.adjust_offset(reporter, subject, 5000);
    assert_eq!(ident.get_trust(&subject), 5000);
}

#[test]
fn base_trust_lists_stored_rows() {
    let us = Id::from(1);
    let mut ident = Identification::new(us);
    ident.change_trust(Id::from(2), 100);
    ident.change_trust(Id::from(3), -100);
    let rows = ident.base_trust();
    assert_eq!(rows.len(), 2);
    for (id, level) in rows {
        if id == Id::from(2) {
            assert_eq!(level, 5100);
        } else {
            assert_eq!(id, Id::from(3));
            assert_eq!(level, 4900);
        }
    }
}
