use relay_node::{DataWithClock, PeerId, RecordOrder, VectorClock};
use std::cmp::Ordering;

fn peer(tag: u8) -> PeerId {
    PeerId::from_bytes(vec![0, 1, tag]).expect("an identity multihash of one byte")
}

fn record(data: &str, entries: &[(u8, u64)], timestamp: u64) -> DataWithClock {
    let mut vector_clock = VectorClock::new();
    for (tag, count) in entries {
        vector_clock.insert(&peer(*tag), *count);
    }
    DataWithClock { data: data.to_string(), vector_clock, timestamp }
}

#[test]
fn causally_earlier_record_comes_first_whatever_the_timestamps() {
    let a = record("a", &[(b'A', 1)], 900);
    let b = record("b", &[(b'A', 1), (b'B', 1)], 100);
    assert_eq!(a.order(&b), RecordOrder::Before);
    assert_eq!(b.order(&a), RecordOrder::After);
    assert_eq!(a.cmp(&b), Ordering::Less);
    assert_eq!(b.cmp(&a), Ordering::Greater);
}

#[test]
fn concurrent_records_go_by_timestamp() {
    let x = record("x", &[(b'A', 1)], 100);
    let y = record("y", &[(b'B', 1)], 101);
    assert_eq!(x.order(&y), RecordOrder::Before);
    assert_eq!(y.order(&x), RecordOrder::After);
    assert_eq!(x.cmp(&y), Ordering::Less);
    assert_eq!(y.cmp(&x), Ordering::Greater);
}

#[test]
fn concurrent_records_with_one_timestamp_stand_in_the_same_place() {
    let x = record("x", &[(b'A', 1)], 100);
    let y = record("y", &[(b'B', 1)], 100);
    assert_eq!(x.order(&y), RecordOrder::Same);
    assert_eq!(x.cmp(&y), Ordering::Equal);
    assert!(x != y);
}

#[test]
fn equal_clocks_are_equal_records_whatever_the_timestamps() {
    let x = record("x", &[(b'A', 1), (b'B', 2)], 100);
    let y = record("y", &[(b'B', 2), (b'A', 1)], 999);
    assert_eq!(x.order(&y), RecordOrder::Same);
    assert_eq!(x.cmp(&y), Ordering::Equal);
    assert!(x == y);
    assert_eq!(x, y);
}

#[test]
fn a_record_is_in_the_same_place_as_itself() {
    let x = record("x", &[(b'A', 4)], 5);
    assert_eq!(x.order(&x), RecordOrder::Same);
    assert_eq!(x.cmp(&x), Ordering::Equal);
}

#[test]
fn operators_follow_the_order() {
    let a = record("a", &[(b'A', 1)], 50);
    let b = record("b", &[(b'A', 2)], 10);
    assert!(a < b);
    assert!(b > a);
    assert!(a <= b);
    assert!(a != b);
    assert_eq!(a.partial_cmp(&b), Some(Ordering::Less));
    assert_eq!(b.partial_cmp(&a), Some(Ordering::Greater));
    assert_eq!(a.partial_cmp(&a), Some(Ordering::Equal));
}

#[test]
fn a_missing_counter_and_a_zero_counter_are_the_same_clock() {
    let x = record("x", &[(b'A', 0)], 1);
    let y = record("y", &[], 2);
    assert_eq!(x.order(&y), RecordOrder::Same);
    assert!(x == y);
}

#[test]
fn clone_keeps_every_field() {
    let x = record("payload", &[(b'A', 3), (b'B', 1)], 77);
    let y = x.clone();
    assert_eq!(y.data, "payload");
    assert_eq!(y.timestamp, 77);
    assert_eq!(y.vector_clock.get(&peer(b'A')), 3);
    assert_eq!(y.vector_clock.get(&peer(b'B')), 1);
    assert_eq!(y.vector_clock.len(), 2);
}
