use relay_node::{DataWithClock, PeerId, Replica, VectorClock};

fn peer(tag: u8) -> PeerId {
    PeerId::from_bytes(vec![0, 1, tag]).expect("an identity multihash of one byte")
}

fn record(data: &str, entries: &[(u8, u64)], timestamp: u64) -> DataWithClock {
    let mut vector_clock = VectorClock::new();
    for (tag, count) in entries {
        vector_clock.insert(&peer(*tag), *count);
    }
    DataWithClock { data: data.to_string(), vector_clock, timestamp }
}

fn payloads(replica: &Replica) -> Vec<String> {
    replica.iter_sorted().iter().map(|r| r.data.clone()).collect()
}

#[test]
fn new_replica_is_empty() {
    let replica = Replica::new();
    assert_eq!(replica.len(), 0);
    assert!(replica.iter_sorted().is_empty());
}

#[test]
fn concurrent_writes() {
    let x = record("X", &[(b'A', 1)], 100);
    let y = record("Y", &[(b'B', 1)], 101);

    let mut one = Replica::new();
    assert!(one.insert(x.clone()));
    assert!(one.insert(y.clone()));
    assert_eq!(payloads(&one), vec!["X", "Y"]);

    let mut other = Replica::new();
    assert!(other.insert(y));
    assert!(other.insert(x));
    assert_eq!(payloads(&other), vec!["X", "Y"]);
}

#[test]
fn equality_collapse() {
    let first = record("first", &[(b'A', 2), (b'B', 1)], 100);
    let second = record("second", &[(b'A', 2), (b'B', 1)], 200);
    let mut replica = Replica::new();
    assert!(replica.insert(first));
    assert!(!replica.insert(second));
    assert_eq!(replica.len(), 1);
    assert_eq!(payloads(&replica), vec!["first"]);
    assert_eq!(replica.get(0).timestamp, 100);
}

#[test]
fn inserting_the_same_record_twice_changes_nothing() {
    let mut replica = Replica::new();
    replica.insert(record("a", &[(b'A', 1)], 10));
    replica.insert(record("c", &[(b'A', 3)], 30));
    let b = record("b", &[(b'A', 2)], 20);
    assert!(replica.insert(b.clone()));
    let once = payloads(&replica);
    assert!(!replica.insert(b));
    assert_eq!(payloads(&replica), once);
    assert_eq!(once, vec!["a", "b", "c"]);
}

#[test]
fn records_are_enumerated_in_causal_order() {
    let mut replica = Replica::new();
    replica.insert(record("third", &[(b'A', 2), (b'B', 2)], 1));
    replica.insert(record("first", &[(b'A', 1)], 3));
    replica.insert(record("second", &[(b'A', 1), (b'B', 1)], 2));
    assert_eq!(payloads(&replica), vec!["first", "second", "third"]);
    assert_eq!(replica.len(), 3);
    assert_eq!(replica.get(1).data, "second");
}

#[test]
fn a_causal_chain_is_enumerated_alike_whatever_the_order_of_arrival() {
    let chain = [
        record("1", &[(b'A', 1)], 40),
        record("2", &[(b'A', 1), (b'B', 1)], 30),
        record("3", &[(b'A', 2), (b'B', 1)], 20),
        record("4", &[(b'A', 2), (b'B', 1), (b'C', 1)], 10),
    ];
    let orders: [[usize; 4]; 4] = [[0, 1, 2, 3], [3, 2, 1, 0], [2, 0, 3, 1], [1, 3, 0, 2]];
    for order in orders {
        let mut replica = Replica::new();
        for i in order {
            assert!(replica.insert(chain[i].clone()));
        }
        assert_eq!(payloads(&replica), vec!["1", "2", "3", "4"]);
    }
}

#[test]
fn concurrent_records_with_one_timestamp_collapse() {
    let mut replica = Replica::new();
    assert!(replica.insert(record("x", &[(b'A', 1)], 100)));
    assert!(!replica.insert(record("y", &[(b'B', 1)], 100)));
    assert_eq!(payloads(&replica), vec!["x"]);
}

#[test]
fn each_record_comes_before_its_successor() {
    let mut replica = Replica::new();
    replica.insert(record("p", &[(b'A', 1)], 5));
    replica.insert(record("q", &[(b'B', 1)], 3));
    replica.insert(record("r", &[(b'C', 1)], 4));
    replica.insert(record("s", &[(b'A', 1), (b'B', 1), (b'C', 1)], 1));
    let sorted = replica.iter_sorted();
    assert_eq!(sorted.len(), 4);
    for i in 0..sorted.len() - 1 {
        assert!(sorted[i] < sorted[i + 1]);
    }
    assert_eq!(payloads(&replica), vec!["q", "r", "p", "s"]);
}
