use affogato::handoff::{HandoffError, HandoffFrame, HandoffMessage};
use affogato::registry::{ListenerHandle, ListenerRegistry};

fn frame(payload: Vec<u8>, handles: Vec<i32>) -> HandoffFrame {
    HandoffFrame { payload, handles }
}

#[test]
fn add_then_get() {
    let mut r = ListenerRegistry::new();
    r.add("127.0.0.1:4443".to_string(), 7);
    assert_eq!(r.get(&"127.0.0.1:4443".to_string()), Some(7));
    assert_eq!(r.get(&"0.0.0.0:80".to_string()), None);
    assert_eq!(r.len(), 1);
}

#[test]
fn add_same_address_overwrites() {
    let mut r = ListenerRegistry::new();
    r.add("a:1".to_string(), 3);
    r.add("b:2".to_string(), 4);
    r.add("a:1".to_string(), 9);
    assert_eq!(r.len(), 2);
    assert_eq!(r.get(&"a:1".to_string()), Some(9));
    let e = r.entries();
    assert_eq!(e[0].address, "a:1");
    assert_eq!(e[0].handle, 9);
    assert_eq!(e[1].address, "b:2");
}

#[test]
fn distinct_adds_serialize_to_exactly_those_entries() {
    let mut r = ListenerRegistry::new();
    let n = 50;
    for i in 0..n {
        r.add(format!("10.0.0.1:{}", 1000 + i), 100 + i as i32);
    }
    let m = r.serialize();
    assert_eq!(m.entries.len(), n);
    for i in 0..n {
        assert_eq!(m.entries[i].address, format!("10.0.0.1:{}", 1000 + i));
        assert_eq!(m.entries[i].handle, 100 + i as i32);
    }
}

#[test]
fn encode_writes_count_and_prefixed_addresses() {
    let m = HandoffMessage {
        entries: vec![ListenerHandle { address: "ab".to_string(), handle: 5 }],
    };
    let f = m.encode().unwrap();
    assert_eq!(f.payload, vec![1, 0, 0, 0, 2, 0, 0, 0, b'a', b'b']);
    assert_eq!(f.handles, vec![5]);
}

#[test]
fn encode_then_decode_round_trips() {
    let m = HandoffMessage {
        entries: vec![
            ListenerHandle { address: "127.0.0.1:4443".to_string(), handle: 3 },
            ListenerHandle { address: "[::1]:8080".to_string(), handle: 11 },
            ListenerHandle { address: "".to_string(), handle: -1 },
        ],
    };
    let f = m.encode().unwrap();
    let back = HandoffMessage::decode(&f).unwrap();
    assert_eq!(back.entries.len(), 3);
    for i in 0..3 {
        assert_eq!(back.entries[i].address, m.entries[i].address);
        assert_eq!(back.entries[i].handle, m.entries[i].handle);
    }
}

#[test]
fn empty_message_round_trips() {
    let m = HandoffMessage { entries: vec![] };
    let f = m.encode().unwrap();
    assert_eq!(f.payload, vec![0, 0, 0, 0]);
    assert!(HandoffMessage::decode(&f).unwrap().entries.is_empty());
}

#[test]
fn more_handles_than_addresses_is_rejected() {
    let f = frame(vec![1, 0, 0, 0, 1, 0, 0, 0, b'x'], vec![4, 5]);
    assert_eq!(HandoffMessage::decode(&f).err(), Some(HandoffError::CountMismatch));
}

#[test]
fn fewer_handles_than_addresses_is_rejected() {
    let f = frame(vec![2, 0, 0, 0, 1, 0, 0, 0, b'x', 1, 0, 0, 0, b'y'], vec![4]);
    assert_eq!(HandoffMessage::decode(&f).err(), Some(HandoffError::CountMismatch));
}

#[test]
fn short_payload_is_truncated() {
    let f = frame(vec![1, 0], vec![]);
    assert_eq!(HandoffMessage::decode(&f).err(), Some(HandoffError::Truncated));
}

#[test]
fn length_past_end_is_malformed() {
    let f = frame(vec![1, 0, 0, 0, 9, 0, 0, 0, b'x'], vec![4]);
    assert_eq!(HandoffMessage::decode(&f).err(), Some(HandoffError::Malformed));
}

#[test]
fn trailing_bytes_are_malformed() {
    let f = frame(vec![1, 0, 0, 0, 1, 0, 0, 0, b'x', b'y'], vec![4]);
    assert_eq!(HandoffMessage::decode(&f).err(), Some(HandoffError::Malformed));
}

#[test]
fn non_utf8_address_is_rejected() {
    let f = frame(vec![1, 0, 0, 0, 2, 0, 0, 0, 0xff, 0xfe], vec![4]);
    assert_eq!(HandoffMessage::decode(&f).err(), Some(HandoffError::InvalidAddress));
}

#[test]
fn populate_from_adds_received_listeners() {
    let mut sender = ListenerRegistry::new();
    sender.add("127.0.0.1:4443".to_string(), 21);
    sender.add("127.0.0.1:4444".to_string(), 22);
    let f = sender.serialize().encode().unwrap();
    let mut receiver = ListenerRegistry::new();
    assert!(receiver.populate_from(&f).is_ok());
    assert_eq!(receiver.get(&"127.0.0.1:4443".to_string()), Some(21));
    assert_eq!(receiver.get(&"127.0.0.1:4444".to_string()), Some(22));
    assert_eq!(receiver.len(), 2);
}

#[test]
fn populate_from_bad_frame_leaves_registry_unchanged() {
    let mut r = ListenerRegistry::new();
    r.add("a:1".to_string(), 1);
    let f = frame(vec![1, 0, 0, 0, 1, 0, 0, 0, b'x'], vec![]);
    assert_eq!(r.populate_from(&f), Err(HandoffError::CountMismatch));
    assert_eq!(r.len(), 1);
    assert_eq!(r.get(&"a:1".to_string()), Some(1));
}
