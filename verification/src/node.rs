//! The replication engine: a node's clock and replica, and what a local
//! submission and a received record do to them.

use crate::clock::{
    bumped, clock_order, counter_of, dominated_by, is_novel, larger, lemma_bumped_dominates,
    lemma_dominated_by_transitive, lemma_merged_counters, lemma_strictly_after, merged, ClockOrder,
    Counters, PeerKey, VectorClock,
};
use crate::peer::PeerId;
use crate::record::{
    lemma_order_extends_causality, precedes, record_order, DataWithClock, RecordOrder, RecordView,
};
use crate::replica::{inserted, lemma_insert_last, lemma_sorted_enumeration_unique, sorted, Replica};
use crate::wire::{decoded, deserialize, encoded, DecodeError, WireRecord, WireView};
use vstd::prelude::*;

verus! {

/// A node in specifications.
#[verifier::ext_equal]
pub struct NodeView {
    /// The node's own identity.
    pub local_peer_id: PeerKey,
    /// The node's clock.
    pub vector_clock: Counters,
    /// The node's replica, in enumeration order.
    pub stored_data: Seq<RecordView>,
}

/// Every record's clock is causally before the clock of every record after
/// it.
pub open spec fn causal_chain(records: Seq<RecordView>) -> bool {
    forall|i: int, j: int|
        0 <= i < j < records.len() ==> clock_order(
            (#[trigger] records[i]).vector_clock,
            (#[trigger] records[j]).vector_clock,
        ) == ClockOrder::Less
}

/// No record's clock is ahead of `clock` anywhere.
pub open spec fn within(records: Seq<RecordView>, clock: Counters) -> bool {
    forall|i: int|
        0 <= i < records.len() ==> dominated_by((#[trigger] records[i]).vector_clock, clock)
}

/// The node's own counter can go up by one after its clock took in
/// `incoming`.
pub open spec fn can_stamp(node: NodeView, incoming: Counters) -> bool {
    larger(
        counter_of(node.vector_clock, node.local_peer_id),
        counter_of(incoming, node.local_peer_id),
    ) < u64::MAX
}

/// The node's clock after it took in `incoming` and counted the event.
pub open spec fn accepted_clock(node: NodeView, incoming: Counters) -> Counters {
    bumped(merged(node.vector_clock, incoming), node.local_peer_id)
}

/// The record that a node stores and rebroadcasts for a novel record `data`
/// received at `now`: the payload under the node's new clock and time.
pub open spec fn rewritten(node: NodeView, data: RecordView, now: u64) -> RecordView {
    RecordView {
        data: data.data,
        vector_clock: accepted_clock(node, data.vector_clock),
        timestamp: now,
    }
}

/// The node after it received `data` at `now`: unchanged where the record is
/// no news, else with the new clock and the rewritten record stored.
pub open spec fn after_receipt(node: NodeView, data: RecordView, now: u64) -> NodeView {
    if is_novel(node.vector_clock, data.vector_clock) {
        NodeView {
            local_peer_id: node.local_peer_id,
            vector_clock: accepted_clock(node, data.vector_clock),
            stored_data: inserted(node.stored_data, rewritten(node, data, now)),
        }
    } else {
        node
    }
}

/// The record that a node publishes for a payload submitted at `now`.
pub open spec fn submitted(node: NodeView, message: Seq<char>, now: u64) -> RecordView {
    RecordView {
        data: message,
        vector_clock: bumped(node.vector_clock, node.local_peer_id),
        timestamp: now,
    }
}

/// The node after a local submission: its own counter went up by one; the
/// replica is as it was.
pub open spec fn after_submission(node: NodeView) -> NodeView {
    NodeView {
        local_peer_id: node.local_peer_id,
        vector_clock: bumped(node.vector_clock, node.local_peer_id),
        stored_data: node.stored_data,
    }
}

/// The topic on which records travel.
pub const TOPIC: &'static str = "relay_data";

/// What can happen at a node.
#[derive(Debug)]
pub enum Event {
    /// The telemetry timer fired.
    Tick,
    /// A payload was submitted at this node.
    Submission(String),
    /// A record arrived on the topic.
    Message(WireRecord),
}

/// An event in specifications.
pub enum EventView {
    Tick,
    Submission(Seq<char>),
    Message(WireView),
}

impl View for Event {
    type V = EventView;

    open spec fn view(&self) -> EventView {
        match self {
            Event::Tick => EventView::Tick,
            Event::Submission(message) => EventView::Submission(message@),
            Event::Message(wire) => EventView::Message(wire@),
        }
    }
}

/// What the node's owner is to do after an event.
#[derive(Debug)]
pub enum Action {
    /// Emit telemetry: the clock and the replica as they stand.
    Report,
    /// Publish the record on the topic.
    Publish(WireRecord),
    /// The received record was no news; nothing is published.
    DiscardStale,
    /// The received record could not be taken in; nothing is published.
    DiscardInvalid(DecodeError),
}

/// The record that an event brings to the node, if it brings one that can be
/// read.
pub open spec fn received(event: EventView) -> Option<RecordView> {
    match event {
        EventView::Message(wire) => decoded(wire),
        _ => None,
    }
}

/// The event is one that the node counts: a submission, or a record that is
/// news.
pub open spec fn is_accepted(node: NodeView, event: EventView) -> bool {
    match event {
        EventView::Tick => false,
        EventView::Submission(_) => true,
        EventView::Message(wire) => decoded(wire) matches Some(data) && is_novel(
            node.vector_clock,
            data.vector_clock,
        ),
    }
}

/// The node's own counter can count the event.
pub open spec fn event_fits(node: NodeView, event: EventView) -> bool {
    match event {
        EventView::Tick => true,
        EventView::Submission(_) => counter_of(node.vector_clock, node.local_peer_id) < u64::MAX,
        EventView::Message(wire) => is_accepted(node, event) ==> can_stamp(
            node,
            decoded(wire)->Some_0.vector_clock,
        ),
    }
}

/// The node after an event at `now`.
pub open spec fn after_event(node: NodeView, event: EventView, now: u64) -> NodeView {
    match event {
        EventView::Tick => node,
        EventView::Submission(_) => after_submission(node),
        EventView::Message(wire) => match decoded(wire) {
            Some(data) => after_receipt(node, data, now),
            None => node,
        },
    }
}

/// The record that the node publishes after an event at `now`, if any.
pub open spec fn published(node: NodeView, event: EventView, now: u64) -> Option<RecordView> {
    match event {
        EventView::Tick => None,
        EventView::Submission(message) => Some(submitted(node, message, now)),
        EventView::Message(wire) => match decoded(wire) {
            Some(data) => if is_novel(node.vector_clock, data.vector_clock) {
                Some(rewritten(node, data, now))
            } else {
                None
            },
            None => None,
        },
    }
}

/// The node after a run of events, each with its time.
pub open spec fn after_run(node: NodeView, run: Seq<(EventView, u64)>) -> NodeView
    decreases run.len(),
{
    if run.len() == 0 {
        node
    } else {
        after_event(after_run(node, run.drop_last()), run.last().0, run.last().1)
    }
}

/// The node's own counter can count every event of the run.
pub open spec fn run_fits(node: NodeView, run: Seq<(EventView, u64)>) -> bool
    decreases run.len(),
{
    run.len() == 0 || (run_fits(node, run.drop_last()) && event_fits(
        after_run(node, run.drop_last()),
        run.last().0,
    ))
}

/// The clock a node has after accepting a record: ahead of its old clock at
/// its own counter, behind it nowhere, and nowhere behind the record's.
pub proof fn lemma_accepted_clock(node: NodeView, incoming: Counters)
    requires
        can_stamp(node, incoming),
    ensures
        dominated_by(node.vector_clock, accepted_clock(node, incoming)),
        dominated_by(incoming, accepted_clock(node, incoming)),
        node.vector_clock.dom().subset_of(accepted_clock(node, incoming).dom()),
        incoming.dom().subset_of(accepted_clock(node, incoming).dom()),
        counter_of(accepted_clock(node, incoming), node.local_peer_id) == larger(
            counter_of(node.vector_clock, node.local_peer_id),
            counter_of(incoming, node.local_peer_id),
        ) + 1,
{
    let m = merged(node.vector_clock, incoming);
    lemma_merged_counters(node.vector_clock, incoming);
    assert(counter_of(m, node.local_peer_id) == larger(
        counter_of(node.vector_clock, node.local_peer_id),
        counter_of(incoming, node.local_peer_id),
    ));
    lemma_bumped_dominates(m, node.local_peer_id);
    lemma_dominated_by_transitive(node.vector_clock, m, accepted_clock(node, incoming));
    lemma_dominated_by_transitive(incoming, m, accepted_clock(node, incoming));
}

/// No event lowers a counter, drops a peer from the clock, or changes the
/// node's identity.
pub proof fn lemma_event_monotone(node: NodeView, event: EventView, now: u64)
    requires
        event_fits(node, event),
    ensures
        dominated_by(node.vector_clock, after_event(node, event, now).vector_clock),
        node.vector_clock.dom().subset_of(after_event(node, event, now).vector_clock.dom()),
        after_event(node, event, now).local_peer_id == node.local_peer_id,
{
    assert(dominated_by(node.vector_clock, node.vector_clock));
    match event {
        EventView::Tick => {},
        EventView::Submission(_) => {
            lemma_bumped_dominates(node.vector_clock, node.local_peer_id);
        },
        EventView::Message(wire) => {
            if is_accepted(node, event) {
                lemma_accepted_clock(node, decoded(wire)->Some_0.vector_clock);
            }
        },
    }
}

/// Clock monotonicity: of two snapshots of a node's clock, the later holds
/// for every peer a counter at least as large as the earlier.
pub proof fn lemma_clock_monotone(node: NodeView, run: Seq<(EventView, u64)>)
    requires
        run_fits(node, run),
    ensures
        dominated_by(node.vector_clock, after_run(node, run).vector_clock),
        node.vector_clock.dom().subset_of(after_run(node, run).vector_clock.dom()),
        after_run(node, run).local_peer_id == node.local_peer_id,
    decreases run.len(),
{
    if run.len() == 0 {
        assert(dominated_by(node.vector_clock, node.vector_clock));
    } else {
        let earlier = after_run(node, run.drop_last());
        lemma_clock_monotone(node, run.drop_last());
        lemma_event_monotone(earlier, run.last().0, run.last().1);
        lemma_dominated_by_transitive(
            node.vector_clock,
            earlier.vector_clock,
            after_run(node, run).vector_clock,
        );
    }
}

/// What an event does to the node's own counter: a submission raises it by
/// one; a record that is news raises the larger of it and the record's
/// counter for the node by one; any other event leaves it.
pub proof fn lemma_own_counter(node: NodeView, event: EventView, now: u64)
    requires
        event_fits(node, event),
    ensures
        counter_of(after_event(node, event, now).vector_clock, node.local_peer_id) == (
        if !is_accepted(node, event) {
            counter_of(node.vector_clock, node.local_peer_id) as int
        } else if received(event) is Some {
            larger(
                counter_of(node.vector_clock, node.local_peer_id),
                counter_of(received(event)->Some_0.vector_clock, node.local_peer_id),
            ) + 1
        } else {
            counter_of(node.vector_clock, node.local_peer_id) + 1
        }),
{
    match event {
        EventView::Tick => {},
        EventView::Submission(_) => {
            lemma_bumped_dominates(node.vector_clock, node.local_peer_id);
        },
        EventView::Message(wire) => {
            if is_accepted(node, event) {
                lemma_accepted_clock(node, decoded(wire)->Some_0.vector_clock);
            }
        },
    }
}

/// Self-bump exactness: an accepted event raises the node's own counter by
/// exactly one, provided a received record does not carry a larger counter
/// for the node than the node holds itself.
pub proof fn lemma_self_bump_exact(node: NodeView, event: EventView, now: u64)
    requires
        event_fits(node, event),
        is_accepted(node, event),
        received(event) matches Some(data) ==> counter_of(data.vector_clock, node.local_peer_id)
            <= counter_of(node.vector_clock, node.local_peer_id),
    ensures
        counter_of(after_event(node, event, now).vector_clock, node.local_peer_id) == counter_of(
            node.vector_clock,
            node.local_peer_id,
        ) + 1,
{
    lemma_own_counter(node, event, now);
}

/// A record that carries a counter which the clock has reached stays no news
/// as the clock goes on.
pub proof fn lemma_stale_stays_stale(earlier: Counters, later: Counters, incoming: Counters)
    requires
        !is_novel(earlier, incoming),
        dominated_by(earlier, later),
        earlier.dom().subset_of(later.dom()),
    ensures
        !is_novel(later, incoming),
{
    let p = choose|p: PeerKey|
        #![trigger incoming.dom().contains(p)]
        incoming.dom().contains(p) && earlier.dom().contains(p) && !(earlier[p] < incoming[p]);
    assert(counter_of(earlier, p) <= counter_of(later, p));
    assert(later.dom().contains(p));
}

/// An accepted record is no news afterwards: to the clock that took it in,
/// unless the record's clock is empty.
pub proof fn lemma_accepted_is_stale(node: NodeView, incoming: Counters)
    requires
        can_stamp(node, incoming),
        exists|p: PeerKey| incoming.dom().contains(p),
    ensures
        !is_novel(accepted_clock(node, incoming), incoming),
{
    lemma_accepted_clock(node, incoming);
    let p = choose|p: PeerKey| incoming.dom().contains(p);
    let after = accepted_clock(node, incoming);
    assert(after.dom().contains(p));
    assert(counter_of(incoming, p) <= counter_of(after, p));
}

/// Novelty termination at one node: a record with a clock that is not empty
/// is accepted, and so rebroadcast, at most once. After the node has received
/// it, it is no news there, whatever happens next.
pub proof fn lemma_no_second_acceptance(
    node: NodeView,
    data: RecordView,
    now: u64,
    run: Seq<(EventView, u64)>,
)
    requires
        exists|p: PeerKey| data.vector_clock.dom().contains(p),
        is_novel(node.vector_clock, data.vector_clock) ==> can_stamp(node, data.vector_clock),
        run_fits(after_receipt(node, data, now), run),
    ensures
        !is_novel(after_run(after_receipt(node, data, now), run).vector_clock, data.vector_clock),
{
    let taken = after_receipt(node, data, now);
    if is_novel(node.vector_clock, data.vector_clock) {
        lemma_accepted_is_stale(node, data.vector_clock);
    }
    lemma_clock_monotone(taken, run);
    lemma_stale_stays_stale(
        taken.vector_clock,
        after_run(taken, run).vector_clock,
        data.vector_clock,
    );
}

/// The record a node publishes is no news to the node itself: its own echo
/// is not rebroadcast.
pub proof fn lemma_own_echo_is_stale(node: NodeView, event: EventView, now: u64)
    requires
        event_fits(node, event),
        published(node, event, now) is Some,
    ensures
        !is_novel(
            after_event(node, event, now).vector_clock,
            published(node, event, now)->Some_0.vector_clock,
        ),
{
    let after = after_event(node, event, now);
    let me = node.local_peer_id;
    assert(published(node, event, now)->Some_0.vector_clock == after.vector_clock);
    assert(after.vector_clock.dom().contains(me));
}

/// A causal chain is sorted in enumeration order.
pub proof fn lemma_causal_chain_sorted(records: Seq<RecordView>)
    requires
        causal_chain(records),
    ensures
        sorted(records),
{
    assert forall|i: int, j: int| 0 <= i < j < records.len() implies precedes(
        #[trigger] records[i],
        #[trigger] records[j],
    ) by {
        lemma_order_extends_causality(records[i], records[j]);
    }
}

/// Two replicas that are causal chains of the same records enumerate them in
/// the same order.
pub proof fn lemma_same_records_same_order(first: Seq<RecordView>, second: Seq<RecordView>)
    requires
        causal_chain(first),
        causal_chain(second),
        forall|r: RecordView| first.contains(r) <==> second.contains(r),
    ensures
        first == second,
{
    lemma_causal_chain_sorted(first);
    lemma_causal_chain_sorted(second);
    lemma_sorted_enumeration_unique(first, second);
}

/// A node: its identity, its clock, and its replica.
#[derive(Debug)]
pub struct Node {
    local_peer_id: PeerId,
    vector_clock: VectorClock,
    stored_data: Replica,
}

impl View for Node {
    type V = NodeView;

    closed spec fn view(&self) -> NodeView {
        NodeView {
            local_peer_id: self.local_peer_id@,
            vector_clock: self.vector_clock@,
            stored_data: self.stored_data@,
        }
    }
}

impl Node {
    #[verifier::type_invariant]
    spec fn coherent(self) -> bool {
        &&& causal_chain(self.stored_data@)
        &&& within(self.stored_data@, self.vector_clock@)
    }

    /// A node with the given identity, an empty clock and an empty replica.
    pub fn new(local_peer_id: PeerId) -> (node: Node)
        ensures
            node@ == (NodeView {
                local_peer_id: local_peer_id@,
                vector_clock: Map::empty(),
                stored_data: Seq::empty(),
            }),
    {
        Node { local_peer_id, vector_clock: VectorClock::new(), stored_data: Replica::new() }
    }

    /// The node's own identity.
    pub fn local_peer_id(&self) -> (peer: &PeerId)
        ensures
            peer@ == self@.local_peer_id,
    {
        &self.local_peer_id
    }

    /// The node's clock.
    pub fn vector_clock(&self) -> (clock: &VectorClock)
        ensures
            clock@ == self@.vector_clock,
    {
        &self.vector_clock
    }

    /// The stored records in enumeration order, which for a node's replica is
    /// the causal order of their clocks.
    pub fn get_sorted_data(&self) -> (sorted: Vec<&DataWithClock>)
        ensures
            sorted@.len() == self@.stored_data.len(),
            forall|i: int| 0 <= i < sorted@.len() ==> (#[trigger] sorted@[i])@ == self@.stored_data[i],
            causal_chain(self@.stored_data),
            within(self@.stored_data, self@.vector_clock),
    {
        proof {
            use_type_invariant(self);
        }
        self.stored_data.iter_sorted()
    }

    /// Whether `data` is news to the node.
    pub fn is_new_data(&self, data: &DataWithClock) -> (novel: bool)
        ensures
            novel == is_novel(self@.vector_clock, data@.vector_clock),
    {
        self.vector_clock.is_novel(&data.vector_clock)
    }

    /// Whether the node could count the receipt of a record stamped
    /// `incoming` without its own counter passing the largest number.
    pub fn can_stamp(&self, incoming: &VectorClock) -> (fits: bool)
        ensures
            fits == can_stamp(self@, incoming@),
    {
        let mine = self.vector_clock.get(&self.local_peer_id);
        let theirs = incoming.get(&self.local_peer_id);
        mine < u64::MAX && theirs < u64::MAX
    }

    /// Takes a payload submitted at this node at `now`: counts the event and
    /// gives the record to publish. The replica is not touched.
    pub fn submit(&mut self, message: String, now: u64) -> (record: DataWithClock)
        requires
            counter_of(old(self)@.vector_clock, old(self)@.local_peer_id) < u64::MAX,
        ensures
            final(self)@ == after_submission(old(self)@),
            record@ == submitted(old(self)@, message@, now),
    {
        proof {
            use_type_invariant(&*self);
            lemma_bumped_dominates(self@.vector_clock, self@.local_peer_id);
        }
        let mut stored = Replica::new();
        core::mem::swap(&mut self.stored_data, &mut stored);
        let mut clock = VectorClock::new();
        core::mem::swap(&mut self.vector_clock, &mut clock);
        clock.bump(&self.local_peer_id);
        let record = DataWithClock { data: message, vector_clock: clock.snapshot(), timestamp: now };
        proof {
            assert forall|i: int| 0 <= i < stored@.len() implies dominated_by(
                (#[trigger] stored@[i]).vector_clock,
                clock@,
            ) by {
                lemma_dominated_by_transitive(
                    stored@[i].vector_clock,
                    old(self)@.vector_clock,
                    clock@,
                );
            }
        }
        self.vector_clock = clock;
        self.stored_data = stored;
        record
    }

    /// Takes a record received at `now`. Where it is no news, nothing
    /// changes and nothing is to be published. Where it is news, the node
    /// takes its clock in, counts the event, stores the payload under its new
    /// clock and `now`, and gives that record to rebroadcast.
    pub fn process_received_data(&mut self, data: DataWithClock, now: u64) -> (republished: Option<
        DataWithClock,
    >)
        requires
            is_novel(old(self)@.vector_clock, data@.vector_clock) ==> can_stamp(
                old(self)@,
                data@.vector_clock,
            ),
        ensures
            final(self)@ == after_receipt(old(self)@, data@, now),
            match republished {
                Some(record) => is_novel(old(self)@.vector_clock, data@.vector_clock) && record@
                    == rewritten(old(self)@, data@, now),
                None => !is_novel(old(self)@.vector_clock, data@.vector_clock),
            },
            is_novel(old(self)@.vector_clock, data@.vector_clock) ==> final(self)@.stored_data
                == old(self)@.stored_data.push(rewritten(old(self)@, data@, now)),
    {
        proof {
            use_type_invariant(&*self);
        }
        if !self.vector_clock.is_novel(&data.vector_clock) {
            return None;
        }
        let ghost before = self@;
        let ghost stamp = rewritten(before, data@, now);
        let mut stored = Replica::new();
        core::mem::swap(&mut self.stored_data, &mut stored);
        let mut clock = VectorClock::new();
        core::mem::swap(&mut self.vector_clock, &mut clock);
        clock.merge(&data.vector_clock);
        proof {
            lemma_merged_counters(before.vector_clock, data@.vector_clock);
        }
        clock.bump(&self.local_peer_id);
        let record = DataWithClock {
            data: data.data,
            vector_clock: clock.snapshot(),
            timestamp: now,
        };
        let copy = record.clone();
        proof {
            assert(record@ == stamp);
            lemma_accepted_clock(before, data@.vector_clock);
            assert forall|i: int| 0 <= i < stored@.len() implies record_order(
                stamp,
                #[trigger] stored@[i],
            ) == RecordOrder::After by {
                lemma_strictly_after(
                    stored@[i].vector_clock,
                    before.vector_clock,
                    stamp.vector_clock,
                    before.local_peer_id,
                );
            }
            lemma_insert_last(stored@, stamp);
        }
        stored.insert(record);
        proof {
            let kept = stored@;
            assert forall|i: int, j: int| 0 <= i < j < kept.len() implies clock_order(
                (#[trigger] kept[i]).vector_clock,
                (#[trigger] kept[j]).vector_clock,
            ) == ClockOrder::Less by {
                if j == kept.len() - 1 {
                    lemma_strictly_after(
                        kept[i].vector_clock,
                        before.vector_clock,
                        stamp.vector_clock,
                        before.local_peer_id,
                    );
                } else {
                    assert(kept[i] == before.stored_data[i]);
                    assert(kept[j] == before.stored_data[j]);
                }
            }
            assert forall|i: int| 0 <= i < kept.len() implies dominated_by(
                (#[trigger] kept[i]).vector_clock,
                clock@,
            ) by {
                if i < kept.len() - 1 {
                    assert(kept[i] == before.stored_data[i]);
                    lemma_dominated_by_transitive(
                        kept[i].vector_clock,
                        before.vector_clock,
                        clock@,
                    );
                }
            }
        }
        self.vector_clock = clock;
        self.stored_data = stored;
        Some(copy)
    }

    /// The form in which `data` is published on the topic.
    pub fn publish_data(&self, data: &DataWithClock) -> (wire: WireRecord)
        ensures
            wire@ == encoded(data.data@, data.vector_clock.entries(), data.timestamp),
            decoded(wire@) == Some(data@),
    {
        data.to_wire()
    }

    /// Whether the node's own counter can count `event`.
    pub fn fits(&self, event: &Event) -> (fits: bool)
        ensures
            fits == event_fits(self@, event@),
    {
        match event {
            Event::Tick => true,
            Event::Submission(_) => self.vector_clock.get(&self.local_peer_id) < u64::MAX,
            Event::Message(wire) => match deserialize(&wire.vector_clock) {
                Ok(incoming) => !self.vector_clock.is_novel(&incoming) || self.can_stamp(
                    &incoming,
                ),
                Err(_) => true,
            },
        }
    }

    /// Takes one event at `now` and says what is to be done about it. A tick
    /// changes nothing. A submission is counted and its record published. A
    /// received record that cannot be read, or that is no news, is dropped;
    /// one that is news is taken in and the rewritten record published.
    pub fn handle_event(&mut self, event: Event, now: u64) -> (action: Action)
        requires
            event_fits(old(self)@, event@),
        ensures
            final(self)@ == after_event(old(self)@, event@, now),
            match action {
                Action::Report => event@ is Tick,
                Action::Publish(wire) => published(old(self)@, event@, now) matches Some(record)
                    && decoded(wire@) == Some(record),
                Action::DiscardStale => received(event@) is Some && !is_accepted(
                    old(self)@,
                    event@,
                ),
                Action::DiscardInvalid(_) => event@ is Message && received(event@) is None,
            },
    {
        match event {
            Event::Tick => Action::Report,
            Event::Submission(message) => {
                let record = self.submit(message, now);
                Action::Publish(record.to_wire())
            },
            Event::Message(wire) => match DataWithClock::from_wire(wire) {
                Err(error) => Action::DiscardInvalid(error),
                Ok(data) => match self.process_received_data(data, now) {
                    Some(record) => Action::Publish(record.to_wire()),
                    None => Action::DiscardStale,
                },
            },
        }
    }

    /// Takes one event at `now` where the node's own counter can count it,
    /// and says what is to be done; where it cannot, nothing changes and
    /// there is no answer.
    pub fn try_handle_event(&mut self, event: Event, now: u64) -> (action: Option<Action>)
        ensures
            action is Some <==> event_fits(old(self)@, event@),
            final(self)@ == (if event_fits(old(self)@, event@) {
                after_event(old(self)@, event@, now)
            } else {
                old(self)@
            }),
            action matches Some(action) ==> match action {
                Action::Report => event@ is Tick,
                Action::Publish(wire) => published(old(self)@, event@, now) matches Some(record)
                    && decoded(wire@) == Some(record),
                Action::DiscardStale => received(event@) is Some && !is_accepted(
                    old(self)@,
                    event@,
                ),
                Action::DiscardInvalid(_) => event@ is Message && received(event@) is None,
            },
    {
        if self.fits(&event) {
            Some(self.handle_event(event, now))
        } else {
            None
        }
    }
}

} // verus!
