//! The replica: the records a node has stored, kept in enumeration order,
//! with records that stand in the same place stored once.

use crate::record::{lemma_record_order_converse, precedes, record_order, DataWithClock, RecordOrder, RecordView};
use vstd::prelude::*;

verus! {

/// Each record is enumerated before its successor.
pub open spec fn ascending(records: Seq<RecordView>) -> bool {
    forall|i: int, j: int|
        0 <= i && j == i + 1 && j < records.len() ==> precedes(
            #[trigger] records[i],
            #[trigger] records[j],
        )
}

/// Each record is enumerated before every record after it.
pub open spec fn sorted(records: Seq<RecordView>) -> bool {
    forall|i: int, j: int|
        0 <= i < j < records.len() ==> precedes(#[trigger] records[i], #[trigger] records[j])
}

/// The first index at or after `from` whose record `record` does not come
/// after; the length where it comes after all of them.
pub open spec fn first_not_after(records: Seq<RecordView>, record: RecordView, from: int) -> int
    decreases records.len() - from,
{
    if from < 0 || from >= records.len() {
        records.len() as int
    } else if record_order(record, records[from]) != RecordOrder::After {
        from
    } else {
        first_not_after(records, record, from + 1)
    }
}

/// Where `record` belongs among `records`: behind every record that it comes
/// after from the start on.
pub open spec fn insertion_point(records: Seq<RecordView>, record: RecordView) -> int {
    first_not_after(records, record, 0)
}

/// Whether `records` already hold a record in the place where `record`
/// belongs.
pub open spec fn holds_same(records: Seq<RecordView>, record: RecordView) -> bool {
    let at = insertion_point(records, record);
    at < records.len() && record_order(record, records[at]) == RecordOrder::Same
}

/// `records` after `record` was inserted: unchanged where they hold a record
/// in the same place, else with `record` at its insertion point.
pub open spec fn inserted(records: Seq<RecordView>, record: RecordView) -> Seq<RecordView> {
    if holds_same(records, record) {
        records
    } else {
        records.insert(insertion_point(records, record), record)
    }
}

/// What `first_not_after` finds: `record` comes after every record from
/// `from` up to there, and not after the one there.
pub proof fn lemma_first_not_after(records: Seq<RecordView>, record: RecordView, from: int)
    requires
        0 <= from <= records.len(),
    ensures
        from <= first_not_after(records, record, from) <= records.len(),
        forall|i: int|
            from <= i < first_not_after(records, record, from) ==> record_order(
                record,
                #[trigger] records[i],
            ) == RecordOrder::After,
        first_not_after(records, record, from) < records.len() ==> record_order(
            record,
            records[first_not_after(records, record, from)],
        ) != RecordOrder::After,
    decreases records.len() - from,
{
    if from < records.len() && record_order(record, records[from]) == RecordOrder::After {
        lemma_first_not_after(records, record, from + 1);
    }
}

/// An index that `record` comes after everything before, and not after the
/// record at it, is the insertion point.
pub proof fn lemma_insertion_point_is(records: Seq<RecordView>, record: RecordView, at: int)
    requires
        0 <= at <= records.len(),
        forall|i: int|
            0 <= i < at ==> record_order(record, #[trigger] records[i]) == RecordOrder::After,
        at < records.len() ==> record_order(record, records[at]) != RecordOrder::After,
    ensures
        insertion_point(records, record) == at,
{
    lemma_first_not_after(records, record, 0);
    let found = insertion_point(records, record);
    if found < at {
        assert(record_order(record, records[found]) == RecordOrder::After);
    } else if found > at {
        assert(record_order(record, records[at]) == RecordOrder::After);
    }
}

/// Insertion keeps each record before its successor.
pub proof fn lemma_inserted_ascending(records: Seq<RecordView>, record: RecordView)
    requires
        ascending(records),
    ensures
        ascending(inserted(records, record)),
{
    if !holds_same(records, record) {
        let at = insertion_point(records, record);
        let after = records.insert(at, record);
        lemma_first_not_after(records, record, 0);
        assert forall|i: int, j: int| 0 <= i && j == i + 1 && j < after.len() implies precedes(
            #[trigger] after[i],
            #[trigger] after[j],
        ) by {
            if j < at {
                assert(precedes(records[i], records[j]));
            } else if j == at {
                assert(record_order(record, records[i]) == RecordOrder::After);
                lemma_record_order_converse(record, records[i]);
            } else if i == at {
                assert(after[j] == records[at]);
            } else {
                assert(after[i] == records[i - 1]);
                assert(after[j] == records[j - 1]);
                assert(precedes(records[i - 1], records[j - 1]));
            }
        }
    }
}

/// Inserting a record a second time changes nothing.
pub proof fn lemma_insert_idempotent(records: Seq<RecordView>, record: RecordView)
    ensures
        inserted(inserted(records, record), record) == inserted(records, record),
{
    if !holds_same(records, record) {
        let at = insertion_point(records, record);
        let after = records.insert(at, record);
        lemma_first_not_after(records, record, 0);
        assert(after[at] == record);
        assert forall|i: int| 0 <= i < at implies record_order(record, #[trigger] after[i])
            == RecordOrder::After by {
            assert(after[i] == records[i]);
        }
        assert(record_order(record, record) == RecordOrder::Same);
        lemma_insertion_point_is(after, record, at);
        assert(holds_same(after, record));
    }
}

/// A record that comes after every stored record is inserted at the end.
pub proof fn lemma_insert_last(records: Seq<RecordView>, record: RecordView)
    requires
        forall|i: int|
            0 <= i < records.len() ==> record_order(record, #[trigger] records[i])
                == RecordOrder::After,
    ensures
        inserted(records, record) == records.push(record),
{
    lemma_insertion_point_is(records, record, records.len() as int);
    assert(records.insert(records.len() as int, record) =~= records.push(record));
}

/// The order of enumeration is determined by what is enumerated: two sorted
/// sequences of the same records are the same sequence.
pub proof fn lemma_sorted_enumeration_unique(first: Seq<RecordView>, second: Seq<RecordView>)
    requires
        sorted(first),
        sorted(second),
        forall|r: RecordView| first.contains(r) <==> second.contains(r),
    ensures
        first == second,
    decreases first.len(),
{
    if first.len() == 0 {
        if second.len() > 0 {
            assert(second.contains(second[0]));
        }
        assert(first =~= second);
    } else if second.len() == 0 {
        assert(first.contains(first[0]));
    } else {
        let a = first[0];
        let b = second[0];
        assert(first.contains(a));
        assert(second.contains(b));
        assert(a == b) by {
            if a != b {
                let j = choose|j: int| 0 <= j < second.len() && second[j] == a;
                let i = choose|i: int| 0 <= i < first.len() && first[i] == b;
                assert(precedes(second[0], second[j]));
                assert(precedes(first[0], first[i]));
                lemma_record_order_converse(a, b);
            }
        }
        let rest_first = first.drop_first();
        let rest_second = second.drop_first();
        assert forall|r: RecordView| rest_first.contains(r) <==> rest_second.contains(r) by {
            if rest_first.contains(r) {
                let i = choose|i: int| 0 <= i < rest_first.len() && rest_first[i] == r;
                assert(first[i + 1] == r);
                assert(precedes(first[0], first[i + 1]));
                assert(first.contains(r));
                let j = choose|j: int| 0 <= j < second.len() && second[j] == r;
                assert(record_order(a, a) == RecordOrder::Same);
                assert(rest_second[j - 1] == r);
            }
            if rest_second.contains(r) {
                let j = choose|j: int| 0 <= j < rest_second.len() && rest_second[j] == r;
                assert(second[j + 1] == r);
                assert(precedes(second[0], second[j + 1]));
                assert(second.contains(r));
                let i = choose|i: int| 0 <= i < first.len() && first[i] == r;
                assert(record_order(a, a) == RecordOrder::Same);
                assert(rest_first[i - 1] == r);
            }
        }
        assert(sorted(rest_first)) by {
            assert forall|i: int, j: int| 0 <= i < j < rest_first.len() implies precedes(
                #[trigger] rest_first[i],
                #[trigger] rest_first[j],
            ) by {
                assert(precedes(first[i + 1], first[j + 1]));
            }
        }
        assert(sorted(rest_second)) by {
            assert forall|i: int, j: int| 0 <= i < j < rest_second.len() implies precedes(
                #[trigger] rest_second[i],
                #[trigger] rest_second[j],
            ) by {
                assert(precedes(second[i + 1], second[j + 1]));
            }
        }
        lemma_sorted_enumeration_unique(rest_first, rest_second);
        assert(first =~= seq![a] + rest_first);
        assert(second =~= seq![b] + rest_second);
    }
}

/// The records as they stand in specifications.
spec fn views(records: Seq<DataWithClock>) -> Seq<RecordView> {
    records.map_values(|r: DataWithClock| r@)
}

/// The records a node has stored, in enumeration order.
#[derive(Debug)]
pub struct Replica {
    records: Vec<DataWithClock>,
}

impl View for Replica {
    type V = Seq<RecordView>;

    closed spec fn view(&self) -> Seq<RecordView> {
        views(self.records@)
    }
}

impl Replica {
    #[verifier::type_invariant]
    spec fn kept_ascending(self) -> bool {
        ascending(views(self.records@))
    }

    /// A replica that holds nothing.
    pub fn new() -> (replica: Replica)
        ensures
            replica@ == Seq::<RecordView>::empty(),
    {
        let replica = Replica { records: Vec::new() };
        assert(replica@ =~= Seq::<RecordView>::empty());
        replica
    }

    /// The number of records stored.
    pub fn len(&self) -> (n: usize)
        ensures
            n == self@.len(),
            ascending(self@),
    {
        proof {
            use_type_invariant(self);
        }
        self.records.len()
    }

    /// The record at `index` of the enumeration.
    pub fn get(&self, index: usize) -> (record: &DataWithClock)
        requires
            index < self@.len(),
        ensures
            record@ == self@[index as int],
    {
        &self.records[index]
    }

    /// Stores `record` where it belongs, unless a record already stands in
    /// its place; says whether it was stored.
    pub fn insert(&mut self, record: DataWithClock) -> (added: bool)
        ensures
            final(self)@ == inserted(old(self)@, record@),
            added == !holds_same(old(self)@, record@),
    {
        proof {
            use_type_invariant(&*self);
        }
        let mut records: Vec<DataWithClock> = Vec::new();
        core::mem::swap(&mut self.records, &mut records);
        let ghost before = views(records@);
        let mut at: usize = 0;
        let mut found = false;
        let mut same = false;
        while at < records.len() && !found
            invariant
                at <= records@.len(),
                views(records@) == before,
                forall|i: int|
                    0 <= i < at ==> record_order(record@, #[trigger] before[i])
                        == RecordOrder::After,
                found ==> at < records@.len() && record_order(record@, before[at as int])
                    != RecordOrder::After,
                found ==> same == (record_order(record@, before[at as int]) == RecordOrder::Same),
                !found ==> !same,
            decreases records@.len() - at + (if found { 0int } else { 1int }),
        {
            match record.order(&records[at]) {
                RecordOrder::After => {
                    at += 1;
                },
                RecordOrder::Same => {
                    found = true;
                    same = true;
                },
                RecordOrder::Before => {
                    found = true;
                },
            }
        }
        proof {
            lemma_insertion_point_is(before, record@, at as int);
            lemma_inserted_ascending(before, record@);
        }
        if !same {
            let ghost view = record@;
            records.insert(at, record);
            assert(views(records@) =~= before.insert(at as int, view));
        }
        self.records = records;
        !same
    }

    /// The stored records in enumeration order.
    pub fn iter_sorted(&self) -> (sorted: Vec<&DataWithClock>)
        ensures
            sorted@.len() == self@.len(),
            forall|i: int| 0 <= i < sorted@.len() ==> (#[trigger] sorted@[i])@ == self@[i],
            ascending(self@),
    {
        proof {
            use_type_invariant(self);
        }
        let mut sorted: Vec<&DataWithClock> = Vec::new();
        let mut i: usize = 0;
        while i < self.records.len()
            invariant
                i <= self.records@.len(),
                sorted@.len() == i,
                forall|j: int| 0 <= j < i ==> (#[trigger] sorted@[j])@ == self@[j],
            decreases self.records@.len() - i,
        {
            sorted.push(&self.records[i]);
            i += 1;
        }
        sorted
    }
}

} // verus!
