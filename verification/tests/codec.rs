use event_store::codec::{decode, encode, event_fits, MAX_RECORD_BYTES};
use event_store::event::{Event, Identity};

fn sample_event() -> Event {
    Event {
        id: 3,
        event_description: b"a picnic".to_vec(),
        owner: Identity::new(vec![1, 2]),
        event_title: b"Picnic".to_vec(),
        event_location: b"park".to_vec(),
        event_card_imgurl: b"http://img".to_vec(),
        attendees: vec![Identity::new(vec![9]), Identity::new(vec![8, 7])],
        created_at: 4,
        updated_at: Some(11),
    }
}

#[test]
fn round_trip_with_attendees() {
    let e = sample_event();
    let bytes = encode(&e);
    let back = decode(&bytes).expect("a fresh encoding must decode");
    assert_eq!(back, e);
    // encode(decode(b)) == b for bytes produced by encode
    assert_eq!(encode(&back), bytes);
}

#[test]
fn round_trip_without_update_stamp() {
    let mut e = sample_event();
    e.updated_at = None;
    e.attendees = Vec::new();
    let bytes = encode(&e);
    let back = decode(&bytes).expect("a fresh encoding must decode");
    assert_eq!(back, e);
    assert_eq!(encode(&back), bytes);
}

#[test]
fn encode_exact_bytes() {
    let e = Event {
        id: 3,
        event_description: b"D".to_vec(),
        owner: Identity::new(vec![1, 2]),
        event_title: b"T".to_vec(),
        event_location: b"L".to_vec(),
        event_card_imgurl: b"u".to_vec(),
        attendees: vec![Identity::new(vec![9])],
        created_at: 4,
        updated_at: None,
    };
    let mut expected: Vec<u8> = Vec::new();
    expected.extend_from_slice(&[3, 0, 0, 0, 0, 0, 0, 0]); // id, little endian
    expected.extend_from_slice(&[4, 0, 0, 0, 0, 0, 0, 0]); // created_at
    expected.push(0); // no updated_at
    expected.extend_from_slice(&[2, 0, 1, 2]); // owner chunk
    expected.extend_from_slice(&[1, 0, b'T']); // title chunk
    expected.extend_from_slice(&[1, 0, b'D']); // description chunk
    expected.extend_from_slice(&[1, 0, b'L']); // location chunk
    expected.extend_from_slice(&[1, 0, b'u']); // image url chunk
    expected.extend_from_slice(&[1, 0]); // attendee count
    expected.extend_from_slice(&[1, 0, 9]); // one attendee chunk
    assert_eq!(encode(&e), expected);
}

#[test]
fn encode_exact_bytes_with_update_stamp() {
    let e = Event {
        id: 1,
        event_description: Vec::new(),
        owner: Identity::new(Vec::new()),
        event_title: Vec::new(),
        event_location: Vec::new(),
        event_card_imgurl: Vec::new(),
        attendees: Vec::new(),
        created_at: 0,
        updated_at: Some(258),
    };
    let mut expected: Vec<u8> = Vec::new();
    expected.extend_from_slice(&[1, 0, 0, 0, 0, 0, 0, 0]); // id
    expected.extend_from_slice(&[0; 8]); // created_at
    expected.push(1); // updated_at present
    expected.extend_from_slice(&[2, 1, 0, 0, 0, 0, 0, 0]); // 258, little endian
    expected.extend_from_slice(&[0, 0]); // empty owner
    expected.extend_from_slice(&[0, 0]); // empty title
    expected.extend_from_slice(&[0, 0]); // empty description
    expected.extend_from_slice(&[0, 0]); // empty location
    expected.extend_from_slice(&[0, 0]); // empty image url
    expected.extend_from_slice(&[0, 0]); // no attendees
    assert_eq!(encode(&e), expected);
}

#[test]
fn decode_rejects_foreign_bytes() {
    assert!(decode(&Vec::new()).is_none());
    assert!(decode(&vec![1, 2, 3]).is_none());
    let e = sample_event();
    let bytes = encode(&e);
    // truncated
    let truncated = bytes[..bytes.len() - 1].to_vec();
    assert!(decode(&truncated).is_none());
    // trailing garbage
    let mut padded = bytes.clone();
    padded.push(0);
    assert!(decode(&padded).is_none());
    // a tag byte that is neither present nor absent
    let mut bad_tag = bytes.clone();
    bad_tag[16] = 2;
    assert!(decode(&bad_tag).is_none());
}

#[test]
fn size_cap_is_enforced() {
    let mut e = sample_event();
    assert!(event_fits(&e));
    e.event_description = vec![b'x'; MAX_RECORD_BYTES + 1];
    assert!(!event_fits(&e));
    // a record exactly at the cap still fits: fixed overhead for this
    // event is 17 + 4 + 5 * 2 + 2 = 33 bytes besides the description
    let mut tight = sample_event();
    tight.attendees = Vec::new();
    tight.owner = Identity::new(vec![1, 2]);
    tight.event_title = Vec::new();
    tight.event_location = Vec::new();
    tight.event_card_imgurl = Vec::new();
    tight.updated_at = None;
    let overhead = encode(&Event { event_description: Vec::new(), ..tight.clone() }).len();
    tight.event_description = vec![b'x'; MAX_RECORD_BYTES - overhead];
    assert!(event_fits(&tight));
    assert_eq!(encode(&tight).len(), MAX_RECORD_BYTES);
    tight.event_description.push(b'x');
    assert!(!event_fits(&tight));
}
