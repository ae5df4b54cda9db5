//! The replication unit, a payload stamped with a vector clock and a wall
//! time, and the order in which records are enumerated.

use crate::clock::{clock_order, ClockOrder, Counters, VectorClock};
use std::cmp::Ordering;
use vstd::prelude::*;
use vstd::std_specs::cmp::{PartialEqSpecImpl, PartialOrdSpecImpl};

verus! {

/// A payload with the vector clock and the wall time of its emission.
#[derive(Debug)]
pub struct DataWithClock {
    /// The payload.
    pub data: String,
    /// The emitting node's clock at emission.
    pub vector_clock: VectorClock,
    /// The emitting node's wall clock at emission, in seconds since the epoch.
    pub timestamp: u64,
}

/// A record in specifications.
#[verifier::ext_equal]
pub struct RecordView {
    pub data: Seq<char>,
    pub vector_clock: Counters,
    pub timestamp: u64,
}

impl View for DataWithClock {
    type V = RecordView;

    open spec fn view(&self) -> RecordView {
        RecordView {
            data: self.data@,
            vector_clock: self.vector_clock@,
            timestamp: self.timestamp,
        }
    }
}

/// Where one record stands relative to another in the enumeration order.
#[derive(Clone, Copy, Debug, PartialEq, Eq, Structural)]
pub enum RecordOrder {
    Before,
    Same,
    After,
}

/// The order of records: the causal order of their clocks, and between
/// concurrent clocks the order of their timestamps. Records with equal clocks,
/// and concurrent records with equal timestamps, stand in the same place.
pub open spec fn record_order(a: RecordView, b: RecordView) -> RecordOrder {
    match clock_order(a.vector_clock, b.vector_clock) {
        ClockOrder::Less => RecordOrder::Before,
        ClockOrder::Greater => RecordOrder::After,
        ClockOrder::Equal => RecordOrder::Same,
        ClockOrder::Concurrent => if a.timestamp < b.timestamp {
            RecordOrder::Before
        } else if a.timestamp > b.timestamp {
            RecordOrder::After
        } else {
            RecordOrder::Same
        },
    }
}

/// `a` is enumerated before `b`.
pub open spec fn precedes(a: RecordView, b: RecordView) -> bool {
    record_order(a, b) == RecordOrder::Before
}

/// The same order in std's terms.
pub open spec fn record_ordering(a: RecordView, b: RecordView) -> Ordering {
    match record_order(a, b) {
        RecordOrder::Before => Ordering::Less,
        RecordOrder::Same => Ordering::Equal,
        RecordOrder::After => Ordering::Greater,
    }
}

/// The order extends causality: a record whose clock is causally before
/// another's is enumerated before it, whatever their timestamps.
pub proof fn lemma_order_extends_causality(a: RecordView, b: RecordView)
    requires
        clock_order(a.vector_clock, b.vector_clock) == ClockOrder::Less,
    ensures
        precedes(a, b),
        record_order(b, a) == RecordOrder::After,
{
}

/// Between records with concurrent clocks the order is that of their
/// timestamps.
pub proof fn lemma_concurrent_records_by_timestamp(a: RecordView, b: RecordView)
    requires
        clock_order(a.vector_clock, b.vector_clock) == ClockOrder::Concurrent,
    ensures
        record_order(a, b) == RecordOrder::Before <==> a.timestamp < b.timestamp,
        record_order(a, b) == RecordOrder::Same <==> a.timestamp == b.timestamp,
        record_order(a, b) == RecordOrder::After <==> a.timestamp > b.timestamp,
{
}

/// Records with equal clocks stand in the same place, whatever their
/// timestamps and payloads.
pub proof fn lemma_equal_clocks_collapse(a: RecordView, b: RecordView)
    requires
        a.vector_clock == b.vector_clock,
    ensures
        record_order(a, b) == RecordOrder::Same,
{
}

/// Turning two records round turns their order round.
pub proof fn lemma_record_order_converse(a: RecordView, b: RecordView)
    ensures
        record_order(a, b) == RecordOrder::Before <==> record_order(b, a) == RecordOrder::After,
        record_order(a, b) == RecordOrder::Same <==> record_order(b, a) == RecordOrder::Same,
        record_order(a, b) == RecordOrder::After <==> record_order(b, a) == RecordOrder::Before,
{
}

impl DataWithClock {
    /// Where `self` stands relative to `other`.
    pub fn order(&self, other: &DataWithClock) -> (order: RecordOrder)
        ensures
            order == record_order(self@, other@),
    {
        match self.vector_clock.compare(&other.vector_clock) {
            ClockOrder::Less => RecordOrder::Before,
            ClockOrder::Greater => RecordOrder::After,
            ClockOrder::Equal => RecordOrder::Same,
            ClockOrder::Concurrent => if self.timestamp < other.timestamp {
                RecordOrder::Before
            } else if self.timestamp > other.timestamp {
                RecordOrder::After
            } else {
                RecordOrder::Same
            },
        }
    }

    /// Where `self` stands relative to `other`, in std's terms.
    pub fn cmp(&self, other: &DataWithClock) -> (ordering: Ordering)
        ensures
            ordering == record_ordering(self@, other@),
    {
        match self.order(other) {
            RecordOrder::Before => Ordering::Less,
            RecordOrder::Same => Ordering::Equal,
            RecordOrder::After => Ordering::Greater,
        }
    }
}

impl Clone for DataWithClock {
    fn clone(&self) -> (copy: DataWithClock)
        ensures
            copy@ == self@,
    {
        DataWithClock {
            data: self.data.clone(),
            vector_clock: self.vector_clock.snapshot(),
            timestamp: self.timestamp,
        }
    }
}

impl PartialEq for DataWithClock {
    fn eq(&self, other: &DataWithClock) -> (equal: bool) {
        match self.vector_clock.compare(&other.vector_clock) {
            ClockOrder::Equal => true,
            _ => false,
        }
    }
}

impl PartialEqSpecImpl for DataWithClock {
    open spec fn obeys_eq_spec() -> bool {
        true
    }

    open spec fn eq_spec(&self, other: &DataWithClock) -> bool {
        clock_order(self.vector_clock@, other.vector_clock@) == ClockOrder::Equal
    }
}

impl PartialOrd for DataWithClock {
    fn partial_cmp(&self, other: &DataWithClock) -> (ordering: Option<Ordering>) {
        Some(self.cmp(other))
    }
}

impl PartialOrdSpecImpl for DataWithClock {
    open spec fn obeys_partial_cmp_spec() -> bool {
        true
    }

    open spec fn partial_cmp_spec(&self, other: &DataWithClock) -> Option<Ordering> {
        Some(record_ordering(self@, other@))
    }
}

} // verus!
