//! The form in which a record travels: its peers written as base58 text.

use crate::clock::{counters_of, lemma_counters_of_push, Counters, PeerKey, VectorClock};
use crate::peer::{is_peer_bytes, lemma_peer_text_parses, parsed_peer, peer_text, PeerId};
use crate::record::{DataWithClock, RecordView};
use vstd::prelude::*;

verus! {

/// A record as it travels.
#[derive(Debug)]
pub struct WireRecord {
    /// The payload.
    pub data: String,
    /// The clock's counters, each under its peer's base58 text.
    pub vector_clock: Vec<(String, u64)>,
    /// Seconds since the epoch.
    pub timestamp: u64,
}

/// A travelling record in specifications.
#[verifier::ext_equal]
pub struct WireView {
    pub data: Seq<char>,
    pub vector_clock: Seq<(Seq<char>, u64)>,
    pub timestamp: u64,
}

/// Why a travelling record was not taken in.
#[derive(Debug, PartialEq, Eq)]
pub enum DecodeError {
    /// The key of the clock entry at `index` is no peer id; the keys before
    /// it are.
    InvalidPeerId { index: usize },
}

/// Travelling clock entries in specifications.
pub open spec fn texts(entries: Seq<(String, u64)>) -> Seq<(Seq<char>, u64)> {
    entries.map_values(|e: (String, u64)| (e.0@, e.1))
}

impl View for WireRecord {
    type V = WireView;

    open spec fn view(&self) -> WireView {
        WireView {
            data: self.data@,
            vector_clock: texts(self.vector_clock@),
            timestamp: self.timestamp,
        }
    }
}

/// Clock entries with each peer written as text.
pub open spec fn serialized(entries: Seq<(PeerKey, u64)>) -> Seq<(Seq<char>, u64)> {
    entries.map_values(|e: (PeerKey, u64)| (peer_text(e.0), e.1))
}

/// Every key names a peer.
pub open spec fn all_parse(entries: Seq<(Seq<char>, u64)>) -> bool {
    forall|i: int| 0 <= i < entries.len() ==> parsed_peer((#[trigger] entries[i]).0) is Some
}

/// Travelling entries with each key read as the peer it names.
pub open spec fn parsed_entries(entries: Seq<(Seq<char>, u64)>) -> Seq<(PeerKey, u64)> {
    entries.map_values(|e: (Seq<char>, u64)| (parsed_peer(e.0)->Some_0, e.1))
}

/// The clock that travelling entries stand for, where every key names a
/// peer; of two entries for one peer the later counts.
pub open spec fn deserialized(entries: Seq<(Seq<char>, u64)>) -> Option<Counters> {
    if all_parse(entries) {
        Some(counters_of(parsed_entries(entries)))
    } else {
        None
    }
}

/// The travelling form of a record whose clock has the given entries.
pub open spec fn encoded(data: Seq<char>, entries: Seq<(PeerKey, u64)>, timestamp: u64) -> WireView {
    WireView { data, vector_clock: serialized(entries), timestamp }
}

/// The record that a travelling record stands for, where every key of its
/// clock names a peer.
pub open spec fn decoded(wire: WireView) -> Option<RecordView> {
    match deserialized(wire.vector_clock) {
        Some(clock) => Some(
            RecordView { data: wire.data, vector_clock: clock, timestamp: wire.timestamp },
        ),
        None => None,
    }
}

/// Writing a clock's entries as text and reading them back gives the clock.
pub proof fn lemma_clock_round_trip(entries: Seq<(PeerKey, u64)>)
    requires
        forall|i: int| 0 <= i < entries.len() ==> is_peer_bytes((#[trigger] entries[i]).0),
    ensures
        deserialized(serialized(entries)) == Some(counters_of(entries)),
{
    let written = serialized(entries);
    assert forall|i: int| 0 <= i < written.len() implies parsed_peer((#[trigger] written[i]).0)
        == Some(entries[i].0) by {
        assert(is_peer_bytes(entries[i].0));
        lemma_peer_text_parses(entries[i].0);
    }
    assert(parsed_entries(written) =~= entries);
}

/// Encoding a record and decoding it gives the record: payload, clock and
/// timestamp.
pub proof fn lemma_record_round_trip(data: Seq<char>, entries: Seq<(PeerKey, u64)>, timestamp: u64)
    requires
        forall|i: int| 0 <= i < entries.len() ==> is_peer_bytes((#[trigger] entries[i]).0),
    ensures
        decoded(encoded(data, entries, timestamp)) == Some(
            RecordView { data, vector_clock: counters_of(entries), timestamp },
        ),
{
    lemma_clock_round_trip(entries);
}

/// The clock's entries with each peer written as base58 text.
pub fn serialize(vector_clock: &VectorClock) -> (entries: Vec<(String, u64)>)
    ensures
        texts(entries@) == serialized(vector_clock.entries()),
        deserialized(texts(entries@)) == Some(vector_clock@),
{
    let mut entries: Vec<(String, u64)> = Vec::new();
    let n = vector_clock.len();
    let mut i: usize = 0;
    while i < n
        invariant
            n == vector_clock.entries().len(),
            i <= n,
            texts(entries@) == serialized(vector_clock.entries().take(i as int)),
            forall|j: int| 0 <= j < i ==> is_peer_bytes((#[trigger] vector_clock.entries()[j]).0),
        decreases n - i,
    {
        let text = vector_clock.peer_at(i).to_base58();
        let count = vector_clock.count_at(i);
        let ghost written = texts(entries@);
        entries.push((text, count));
        proof {
            let pair = vector_clock.entries()[i as int];
            assert(texts(entries@) =~= written.push((peer_text(pair.0), pair.1)));
            assert(vector_clock.entries().take(i + 1) =~= vector_clock.entries().take(
                i as int,
            ).push(pair));
            assert(texts(entries@) =~= serialized(vector_clock.entries().take(i + 1)));
        }
        i += 1;
    }
    proof {
        assert(vector_clock.entries().take(n as int) =~= vector_clock.entries());
        lemma_clock_round_trip(vector_clock.entries());
    }
    entries
}

/// The clock that travelling entries stand for; fails at the first key that
/// is no peer id.
pub fn deserialize(entries: &Vec<(String, u64)>) -> (clock: Result<VectorClock, DecodeError>)
    ensures
        match clock {
            Ok(clock) => deserialized(texts(entries@)) == Some(clock@),
            Err(DecodeError::InvalidPeerId { index }) => {
                &&& deserialized(texts(entries@)) is None
                &&& index < entries@.len()
                &&& parsed_peer(entries@[index as int].0@) is None
                &&& forall|j: int| 0 <= j < index ==> parsed_peer((#[trigger] entries@[j]).0@) is Some
            },
        },
{
    let ghost given = texts(entries@);
    let mut clock = VectorClock::new();
    let mut i: usize = 0;
    assert(parsed_entries(given.take(0)) =~= Seq::<(PeerKey, u64)>::empty());
    while i < entries.len()
        invariant
            given == texts(entries@),
            i <= entries@.len(),
            forall|j: int| 0 <= j < i ==> parsed_peer((#[trigger] entries@[j]).0@) is Some,
            clock@ == counters_of(parsed_entries(given.take(i as int))),
        decreases entries@.len() - i,
    {
        match PeerId::from_base58(entries[i].0.as_str()) {
            None => {
                assert(parsed_peer(given[i as int].0) is None);
                return Err(DecodeError::InvalidPeerId { index: i });
            },
            Some(peer) => {
                clock.insert(&peer, entries[i].1);
                proof {
                    let read = parsed_entries(given.take(i as int));
                    assert(given[i as int] == (entries@[i as int].0@, entries@[i as int].1));
                    assert(parsed_entries(given.take(i + 1)) =~= read.push(
                        (peer@, entries@[i as int].1),
                    ));
                    lemma_counters_of_push(read, peer@, entries@[i as int].1);
                }
            },
        }
        i += 1;
    }
    proof {
        assert(given.take(i as int) =~= given);
        assert forall|j: int| 0 <= j < given.len() implies parsed_peer((#[trigger] given[j]).0)
            is Some by {
            assert(parsed_peer(entries@[j].0@) is Some);
        }
    }
    Ok(clock)
}

impl DataWithClock {
    /// The record in the form in which it travels.
    pub fn to_wire(&self) -> (wire: WireRecord)
        ensures
            wire@ == encoded(self.data@, self.vector_clock.entries(), self.timestamp),
            decoded(wire@) == Some(self@),
    {
        WireRecord {
            data: self.data.clone(),
            vector_clock: serialize(&self.vector_clock),
            timestamp: self.timestamp,
        }
    }

    /// The record that `wire` stands for; fails where a key of its clock is
    /// no peer id.
    pub fn from_wire(wire: WireRecord) -> (record: Result<DataWithClock, DecodeError>)
        ensures
            match record {
                Ok(record) => decoded(wire@) == Some(record@),
                Err(DecodeError::InvalidPeerId { index }) => {
                    &&& decoded(wire@) is None
                    &&& index < wire@.vector_clock.len()
                    &&& parsed_peer(wire@.vector_clock[index as int].0) is None
                    &&& forall|j: int|
                        0 <= j < index ==> parsed_peer((#[trigger] wire@.vector_clock[j]).0) is Some
                },
            },
    {
        match deserialize(&wire.vector_clock) {
            Ok(vector_clock) => Ok(
                DataWithClock { data: wire.data, vector_clock, timestamp: wire.timestamp },
            ),
            Err(error) => Err(error),
        }
    }
}

} // verus!
