use relay_node::{ClockOrder, PeerId, VectorClock};

fn peer(tag: u8) -> PeerId {
    PeerId::from_bytes(vec![0, 1, tag]).expect("an identity multihash of one byte")
}

fn clock(entries: &[(u8, u64)]) -> VectorClock {
    let mut clock = VectorClock::new();
    for (tag, count) in entries {
        clock.insert(&peer(*tag), *count);
    }
    clock
}

#[test]
fn absent_peer_counts_zero() {
    let c = VectorClock::new();
    assert_eq!(c.get(&peer(b'A')), 0);
    assert!(!c.contains(&peer(b'A')));
    assert_eq!(c.len(), 0);
}

#[test]
fn bump_starts_at_one_and_adds_one() {
    let a = peer(b'A');
    let mut c = VectorClock::new();
    c.bump(&a);
    assert_eq!(c.get(&a), 1);
    assert!(c.contains(&a));
    c.bump(&a);
    assert_eq!(c.get(&a), 2);
    assert_eq!(c.len(), 1);
    assert_eq!(c.get(&peer(b'B')), 0);
}

#[test]
fn bump_leaves_other_peers() {
    let mut c = clock(&[(b'A', 3), (b'B', 2)]);
    c.bump(&peer(b'B'));
    assert_eq!(c.get(&peer(b'A')), 3);
    assert_eq!(c.get(&peer(b'B')), 3);
}

#[test]
fn insert_sets_and_overwrites() {
    let a = peer(b'A');
    let mut c = VectorClock::new();
    c.insert(&a, 9);
    assert_eq!(c.get(&a), 9);
    c.insert(&a, 4);
    assert_eq!(c.get(&a), 4);
    assert_eq!(c.len(), 1);
}

#[test]
fn merge_takes_the_larger_counter_of_each_peer() {
    let mut c = clock(&[(b'A', 3), (b'B', 2)]);
    let other = clock(&[(b'B', 5), (b'A', 1), (b'C', 7)]);
    c.merge(&other);
    assert_eq!(c.get(&peer(b'A')), 3);
    assert_eq!(c.get(&peer(b'B')), 5);
    assert_eq!(c.get(&peer(b'C')), 7);
    assert_eq!(c.len(), 3);
}

#[test]
fn merge_keeps_peers_that_the_other_lacks() {
    let mut c = clock(&[(b'A', 3)]);
    c.merge(&VectorClock::new());
    assert_eq!(c.get(&peer(b'A')), 3);
    assert_eq!(c.len(), 1);
}

#[test]
fn merge_takes_in_a_zero_counter_as_an_entry() {
    let mut c = VectorClock::new();
    c.merge(&clock(&[(b'A', 0)]));
    assert!(c.contains(&peer(b'A')));
    assert_eq!(c.get(&peer(b'A')), 0);
}

#[test]
fn snapshot_is_a_copy() {
    let mut c = clock(&[(b'A', 1), (b'B', 2)]);
    let s = c.snapshot();
    c.bump(&peer(b'A'));
    assert_eq!(s.get(&peer(b'A')), 1);
    assert_eq!(s.get(&peer(b'B')), 2);
    assert_eq!(c.get(&peer(b'A')), 2);
    assert_eq!(s.len(), 2);
}

#[test]
fn entries_come_in_the_order_of_arrival() {
    let c = clock(&[(b'B', 2), (b'A', 1)]);
    assert_eq!(c.len(), 2);
    assert!(c.peer_at(0).same_as(&peer(b'B')));
    assert_eq!(c.count_at(0), 2);
    assert!(c.peer_at(1).same_as(&peer(b'A')));
    assert_eq!(c.count_at(1), 1);
}

#[test]
fn compare_equal_clocks() {
    assert_eq!(VectorClock::new().compare(&VectorClock::new()), ClockOrder::Equal);
    let a = clock(&[(b'A', 1), (b'B', 2)]);
    let b = clock(&[(b'B', 2), (b'A', 1)]);
    assert_eq!(a.compare(&b), ClockOrder::Equal);
}

#[test]
fn compare_counts_a_missing_peer_as_zero() {
    let with_zero = clock(&[(b'A', 0)]);
    let empty = VectorClock::new();
    assert_eq!(with_zero.compare(&empty), ClockOrder::Equal);
    assert_eq!(empty.compare(&with_zero), ClockOrder::Equal);
}

#[test]
fn compare_less_and_greater() {
    let small = clock(&[(b'A', 1)]);
    let big = clock(&[(b'A', 1), (b'B', 1)]);
    assert_eq!(small.compare(&big), ClockOrder::Less);
    assert_eq!(big.compare(&small), ClockOrder::Greater);
    let bigger = clock(&[(b'A', 2), (b'B', 1)]);
    assert_eq!(big.compare(&bigger), ClockOrder::Less);
    assert_eq!(bigger.compare(&big), ClockOrder::Greater);
}

#[test]
fn compare_concurrent() {
    let a = clock(&[(b'A', 1)]);
    let b = clock(&[(b'B', 1)]);
    assert_eq!(a.compare(&b), ClockOrder::Concurrent);
    assert_eq!(b.compare(&a), ClockOrder::Concurrent);
    let c = clock(&[(b'A', 2), (b'B', 1)]);
    let d = clock(&[(b'A', 1), (b'B', 2)]);
    assert_eq!(c.compare(&d), ClockOrder::Concurrent);
}

#[test]
fn a_record_is_news_unless_a_counter_of_it_was_reached() {
    let local = clock(&[(b'A', 3), (b'B', 2)]);
    assert!(!local.is_novel(&clock(&[(b'A', 2), (b'B', 1)])));
    assert!(!local.is_novel(&clock(&[(b'A', 3), (b'B', 9)])));
    assert!(!local.is_novel(&clock(&[(b'A', 9), (b'B', 2)])));
    assert!(local.is_novel(&clock(&[(b'A', 4), (b'B', 3)])));
}

#[test]
fn a_peer_unknown_to_the_local_clock_counts_as_news() {
    let local = clock(&[(b'A', 3)]);
    assert!(local.is_novel(&clock(&[(b'C', 1)])));
    assert!(local.is_novel(&clock(&[(b'C', 0)])));
    assert!(!local.is_novel(&clock(&[(b'C', 1), (b'A', 3)])));
}

#[test]
fn an_empty_clock_is_always_news() {
    assert!(VectorClock::new().is_novel(&VectorClock::new()));
    assert!(clock(&[(b'A', 3)]).is_novel(&VectorClock::new()));
}

#[test]
fn counters_never_go_down_under_merge_and_bump() {
    let peers = [b'A', b'B', b'C'];
    let mut c = clock(&[(b'A', 3), (b'B', 2)]);
    let before = c.snapshot();
    c.merge(&clock(&[(b'A', 1), (b'C', 4)]));
    c.bump(&peer(b'B'));
    for tag in peers {
        assert!(before.get(&peer(tag)) <= c.get(&peer(tag)));
    }
    assert_eq!(before.compare(&c), ClockOrder::Less);
}
