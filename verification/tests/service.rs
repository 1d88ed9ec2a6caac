use event_store::codec::encode;
use event_store::entity::{
    attend_event, create_event, delete_event, get_event, init_store, restart, update_event,
};
use event_store::event::{Error, EventPayload, Identity};

fn ident(name: &str) -> Identity {
    Identity::new(name.as_bytes().to_vec())
}

fn payload(title: &str, description: &str, location: &str, image_url: &str) -> EventPayload {
    EventPayload {
        event_description: description.as_bytes().to_vec(),
        event_title: title.as_bytes().to_vec(),
        event_location: location.as_bytes().to_vec(),
        event_card_imgurl: image_url.as_bytes().to_vec(),
    }
}

#[test]
fn full_scenario() {
    let mut s = init_store();
    let a = ident("A");
    let b = ident("B");
    let e = create_event(&mut s, &a, 100, payload("Launch", "D", "HQ", "u")).unwrap();
    assert_eq!(e.id, 1);
    assert_eq!(e.owner, a);
    assert!(e.attendees.is_empty());
    assert_eq!(e.created_at, 100);
    assert_eq!(e.updated_at, None);

    let attended = attend_event(&mut s, &b, 1).unwrap();
    assert_eq!(attended.attendees, vec![b.clone()]);

    assert_eq!(update_event(&mut s, &b, 150, 1, payload("x", "x", "x", "x")), Err(Error::NotAuthorized));

    let deleted = delete_event(&mut s, &a, 1).unwrap();
    assert_eq!(deleted.event_title, b"Launch".to_vec());
    assert_eq!(deleted.attendees, vec![b]);

    assert_eq!(get_event(&s, 1), Err(Error::NotFound));
}

#[test]
fn create_then_get_returns_equal_event() {
    let mut s = init_store();
    let a = ident("alice");
    let e = create_event(&mut s, &a, 7, payload("t", "d", "l", "u")).unwrap();
    let got = get_event(&s, e.id).unwrap();
    assert_eq!(got, e);
}

#[test]
fn ids_strictly_increase_across_restart() {
    let mut s = init_store();
    let a = ident("alice");
    let p = payload("t", "d", "l", "u");
    let id1 = create_event(&mut s, &a, 1, p.clone()).unwrap().id;
    let id2 = create_event(&mut s, &a, 2, p.clone()).unwrap().id;
    assert!(id2 > id1);
    let mut s = restart(s);
    let id3 = create_event(&mut s, &a, 3, p.clone()).unwrap().id;
    assert!(id3 > id2);
    assert_eq!((id1, id2, id3), (1, 2, 3));
}

#[test]
fn restart_preserves_records() {
    let mut s = init_store();
    let a = ident("alice");
    let e = create_event(&mut s, &a, 7, payload("t", "d", "l", "u")).unwrap();
    let s = restart(s);
    assert_eq!(get_event(&s, e.id).unwrap(), e);
}

#[test]
fn update_by_owner_replaces_fields() {
    let mut s = init_store();
    let a = ident("alice");
    create_event(&mut s, &a, 7, payload("t", "d", "l", "u")).unwrap();
    let updated = update_event(&mut s, &a, 9, 1, payload("t2", "d2", "l2", "u2")).unwrap();
    assert_eq!(updated.event_title, b"t2".to_vec());
    assert_eq!(updated.event_description, b"d2".to_vec());
    assert_eq!(updated.event_location, b"l2".to_vec());
    assert_eq!(updated.event_card_imgurl, b"u2".to_vec());
    assert_eq!(updated.created_at, 7);
    assert_eq!(updated.updated_at, Some(9));
    assert_eq!(get_event(&s, 1).unwrap(), updated);
}

#[test]
fn update_by_non_owner_leaves_record_unchanged() {
    let mut s = init_store();
    let a = ident("alice");
    let b = ident("bob");
    create_event(&mut s, &a, 7, payload("t", "d", "l", "u")).unwrap();
    let before = get_event(&s, 1).unwrap();
    assert_eq!(update_event(&mut s, &b, 9, 1, payload("x", "x", "x", "x")), Err(Error::NotAuthorized));
    let after = get_event(&s, 1).unwrap();
    assert_eq!(after, before);
    assert_eq!(encode(&after), encode(&before)); // byte-for-byte
}

#[test]
fn attend_twice_succeeds_once() {
    let mut s = init_store();
    let a = ident("alice");
    let b = ident("bob");
    create_event(&mut s, &a, 7, payload("t", "d", "l", "u")).unwrap();
    let once = attend_event(&mut s, &b, 1).unwrap();
    assert_eq!(once.attendees.len(), 1);
    assert_eq!(attend_event(&mut s, &b, 1), Err(Error::AlreadyAttending));
    assert_eq!(get_event(&s, 1).unwrap().attendees.len(), 1);
}

#[test]
fn deleted_id_is_never_reassigned() {
    let mut s = init_store();
    let a = ident("alice");
    let p = payload("t", "d", "l", "u");
    let id1 = create_event(&mut s, &a, 1, p.clone()).unwrap().id;
    delete_event(&mut s, &a, id1).unwrap();
    assert_eq!(get_event(&s, id1), Err(Error::NotFound));
    let id2 = create_event(&mut s, &a, 2, p.clone()).unwrap().id;
    assert_ne!(id2, id1);
    assert!(id2 > id1);
    let mut s = restart(s);
    let id3 = create_event(&mut s, &a, 3, p).unwrap().id;
    assert!(id3 > id2);
}

#[test]
fn delete_by_non_owner_keeps_record() {
    let mut s = init_store();
    let a = ident("alice");
    let b = ident("bob");
    let e = create_event(&mut s, &a, 7, payload("t", "d", "l", "u")).unwrap();
    assert_eq!(delete_event(&mut s, &b, 1), Err(Error::NotAuthorized));
    assert_eq!(get_event(&s, 1).unwrap(), e);
}

#[test]
fn missing_ids_report_not_found() {
    let mut s = init_store();
    let a = ident("alice");
    assert_eq!(get_event(&s, 1), Err(Error::NotFound));
    assert_eq!(update_event(&mut s, &a, 1, 1, payload("t", "d", "l", "u")), Err(Error::NotFound));
    assert_eq!(attend_event(&mut s, &a, 1), Err(Error::NotFound));
    assert_eq!(delete_event(&mut s, &a, 1), Err(Error::NotFound));
}

#[test]
fn oversized_records_fail_loudly() {
    let mut s = init_store();
    let a = ident("alice");
    let big = String::from_utf8(vec![b'x'; 2000]).unwrap();
    assert_eq!(
        create_event(&mut s, &a, 1, payload("t", &big, "l", "u")),
        Err(Error::StorageFault)
    );
    // the failed create burns no id and stores nothing
    assert_eq!(get_event(&s, 1), Err(Error::NotFound));
    let e = create_event(&mut s, &a, 1, payload("t", "d", "l", "u")).unwrap();
    assert_eq!(e.id, 1);
    // an oversized update leaves the stored record unchanged
    assert_eq!(
        update_event(&mut s, &a, 2, 1, payload("t", &big, "l", "u")),
        Err(Error::StorageFault)
    );
    assert_eq!(get_event(&s, 1).unwrap(), e);
}
