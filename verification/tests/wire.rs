use relay_node::{deserialize, serialize, DataWithClock, DecodeError, PeerId, VectorClock, WireRecord};

fn peer(tag: u8) -> PeerId {
    PeerId::from_bytes(vec![0, 1, tag]).expect("an identity multihash of one byte")
}

fn text(tag: u8) -> String {
    libp2p::PeerId::from_bytes(&[0, 1, tag]).unwrap().to_base58()
}

fn clock(entries: &[(u8, u64)]) -> VectorClock {
    let mut clock = VectorClock::new();
    for (tag, count) in entries {
        clock.insert(&peer(*tag), *count);
    }
    clock
}

#[test]
fn serialize_writes_each_peer_as_base58() {
    let entries = serialize(&clock(&[(b'A', 1), (b'B', 7)]));
    assert_eq!(entries, vec![(text(b'A'), 1), (text(b'B'), 7)]);
    assert_eq!(entries[0].0, "16Y");
}

#[test]
fn serialize_of_an_empty_clock_is_empty() {
    assert!(serialize(&VectorClock::new()).is_empty());
}

#[test]
fn deserialize_reads_each_key_as_a_peer() {
    let clock = deserialize(&vec![(text(b'A'), 3), (text(b'B'), 2)]).unwrap();
    assert_eq!(clock.len(), 2);
    assert_eq!(clock.get(&peer(b'A')), 3);
    assert_eq!(clock.get(&peer(b'B')), 2);
    assert_eq!(clock.get(&peer(b'C')), 0);
}

#[test]
fn deserialize_lets_the_later_of_two_entries_count() {
    let clock = deserialize(&vec![(text(b'A'), 3), (text(b'A'), 1)]).unwrap();
    assert_eq!(clock.len(), 1);
    assert_eq!(clock.get(&peer(b'A')), 1);
}

#[test]
fn deserialize_fails_at_the_first_key_that_is_no_peer() {
    let entries = vec![
        (text(b'A'), 1),
        ("not a peer id".to_string(), 2),
        (text(b'B'), 3),
        ("0".to_string(), 4),
    ];
    assert_eq!(deserialize(&entries).unwrap_err(), DecodeError::InvalidPeerId { index: 1 });
}

#[test]
fn clock_round_trip() {
    let original = clock(&[(b'C', 9), (b'A', 0), (b'B', u64::MAX)]);
    let back = deserialize(&serialize(&original)).unwrap();
    assert_eq!(back.len(), 3);
    for tag in [b'A', b'B', b'C', b'D'] {
        assert_eq!(back.get(&peer(tag)), original.get(&peer(tag)));
    }
    assert!(back.contains(&peer(b'A')));
}

#[test]
fn clock_round_trip_with_generated_peers() {
    let mut original = VectorClock::new();
    let mut peers = Vec::new();
    for i in 0..5u64 {
        let id = libp2p::identity::Keypair::generate_ed25519().public().to_peer_id();
        let p = PeerId::from_bytes(id.to_bytes()).unwrap();
        original.insert(&p, i + 1);
        peers.push(p);
    }
    let back = deserialize(&serialize(&original)).unwrap();
    assert_eq!(back.len(), 5);
    for (i, p) in peers.iter().enumerate() {
        assert_eq!(back.get(p), i as u64 + 1);
    }
}

#[test]
fn record_round_trip() {
    let record = DataWithClock {
        data: "a \"quoted\" payload\n".to_string(),
        vector_clock: clock(&[(b'A', 2), (b'B', 1)]),
        timestamp: 1_700_000_000,
    };
    let wire = record.to_wire();
    assert_eq!(wire.data, record.data);
    assert_eq!(wire.timestamp, 1_700_000_000);
    assert_eq!(wire.vector_clock, vec![(text(b'A'), 2), (text(b'B'), 1)]);
    let back = DataWithClock::from_wire(wire).unwrap();
    assert_eq!(back.data, record.data);
    assert_eq!(back.timestamp, record.timestamp);
    assert_eq!(back.vector_clock.len(), 2);
    assert_eq!(back.vector_clock.get(&peer(b'A')), 2);
    assert_eq!(back.vector_clock.get(&peer(b'B')), 1);
    assert_eq!(back, record);
}

#[test]
fn from_wire_fails_on_a_key_that_is_no_peer() {
    let wire = WireRecord {
        data: "x".to_string(),
        vector_clock: vec![("???".to_string(), 1)],
        timestamp: 5,
    };
    assert_eq!(
        DataWithClock::from_wire(wire).unwrap_err(),
        DecodeError::InvalidPeerId { index: 0 }
    );
}

#[test]
fn from_wire_takes_an_empty_clock() {
    let wire = WireRecord { data: "x".to_string(), vector_clock: vec![], timestamp: 5 };
    let record = DataWithClock::from_wire(wire).unwrap();
    assert_eq!(record.data, "x");
    assert_eq!(record.timestamp, 5);
    assert_eq!(record.vector_clock.len(), 0);
}
