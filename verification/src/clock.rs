//! Vector clocks: one counter per peer, where a peer without an entry counts
//! as zero.

use crate::peer::PeerId;
use vstd::prelude::*;

verus! {

/// A peer in specifications: the multihash bytes of its identity.
pub type PeerKey = Seq<u8>;

/// A vector clock in specifications: the counters it holds, by peer.
pub type Counters = Map<Seq<u8>, u64>;

/// The counter a clock holds for a peer; zero where it holds none.
pub open spec fn counter_of(clock: Counters, peer: PeerKey) -> u64 {
    if clock.dom().contains(peer) {
        clock[peer]
    } else {
        0
    }
}

/// The larger of two counters.
pub open spec fn larger(a: u64, b: u64) -> u64 {
    if a >= b {
        a
    } else {
        b
    }
}

/// Some peer's counter is greater in `a` than in `b`.
pub open spec fn ahead_somewhere(a: Counters, b: Counters) -> bool {
    exists|p: PeerKey| #[trigger] counter_of(a, p) > counter_of(b, p)
}

/// No peer's counter is greater in `a` than in `b`.
pub open spec fn dominated_by(a: Counters, b: Counters) -> bool {
    forall|p: PeerKey| #[trigger] counter_of(a, p) <= counter_of(b, p)
}

/// How two vector clocks relate under the causal partial order.
#[derive(Clone, Copy, Debug, PartialEq, Eq, Structural)]
pub enum ClockOrder {
    /// The first clock is behind somewhere and ahead nowhere.
    Less,
    /// Every peer's counter is the same in both.
    Equal,
    /// The first clock is ahead somewhere and behind nowhere.
    Greater,
    /// Each clock is ahead of the other somewhere.
    Concurrent,
}

/// The causal relation of `a` to `b`.
pub open spec fn clock_order(a: Counters, b: Counters) -> ClockOrder {
    if ahead_somewhere(a, b) {
        if ahead_somewhere(b, a) {
            ClockOrder::Concurrent
        } else {
            ClockOrder::Greater
        }
    } else if ahead_somewhere(b, a) {
        ClockOrder::Less
    } else {
        ClockOrder::Equal
    }
}

/// `clock` after `peer`'s counter went up by one.
pub open spec fn bumped(clock: Counters, peer: PeerKey) -> Counters
    recommends
        counter_of(clock, peer) < u64::MAX,
{
    clock.insert(peer, (counter_of(clock, peer) + 1) as u64)
}

/// `a` after taking in `b`: every peer of either, with the larger counter
/// where `b` holds one.
pub open spec fn merged(a: Counters, b: Counters) -> Counters {
    Map::new(
        |p: PeerKey| a.dom().contains(p) || b.dom().contains(p),
        |p: PeerKey|
            if b.dom().contains(p) {
                larger(counter_of(a, p), b[p])
            } else {
                a[p]
            },
    )
}

/// Whether a record stamped `incoming` is news to a node whose clock is
/// `local`: no counter that `incoming` carries has been reached by a counter
/// that `local` holds for the same peer.
pub open spec fn is_novel(local: Counters, incoming: Counters) -> bool {
    forall|p: PeerKey|
        #![trigger incoming.dom().contains(p)]
        incoming.dom().contains(p) && local.dom().contains(p) ==> local[p] < incoming[p]
}

/// No peer occurs twice among the entries.
pub open spec fn distinct_keys(entries: Seq<(PeerKey, u64)>) -> bool {
    forall|i: int, j: int|
        0 <= i < j < entries.len() ==> (#[trigger] entries[i]).0 != (#[trigger] entries[j]).0
}

/// Some entry is for `peer`.
pub open spec fn has_key(entries: Seq<(PeerKey, u64)>, peer: PeerKey) -> bool {
    exists|i: int| 0 <= i < entries.len() && (#[trigger] entries[i]).0 == peer
}

/// The counters that a list of entries holds; of two entries for one peer the
/// later counts.
pub open spec fn counters_of(entries: Seq<(PeerKey, u64)>) -> Counters
    decreases entries.len(),
{
    if entries.len() == 0 {
        Map::empty()
    } else {
        counters_of(entries.drop_last()).insert(entries.last().0, entries.last().1)
    }
}

/// The peers of `counters_of(entries)` are the peers of the entries.
pub proof fn lemma_counters_of_keys(entries: Seq<(PeerKey, u64)>)
    ensures
        counters_of(entries).dom().finite(),
        forall|k: PeerKey| #[trigger] counters_of(entries).dom().contains(k) <==> has_key(entries, k),
    decreases entries.len(),
{
    if entries.len() > 0 {
        let front = entries.drop_last();
        lemma_counters_of_keys(front);
        assert forall|k: PeerKey| #[trigger]
            counters_of(entries).dom().contains(k) <==> has_key(entries, k) by {
            if has_key(entries, k) {
                let i = choose|i: int| 0 <= i < entries.len() && (#[trigger] entries[i]).0 == k;
                if i < front.len() {
                    assert(front[i].0 == k);
                    assert(has_key(front, k));
                }
            }
            if counters_of(entries).dom().contains(k) {
                if k == entries.last().0 {
                    assert(entries[entries.len() - 1].0 == k);
                } else {
                    assert(has_key(front, k));
                    let i = choose|i: int| 0 <= i < front.len() && (#[trigger] front[i]).0 == k;
                    assert(entries[i].0 == k);
                }
            }
        }
    }
}

/// Among entries with distinct peers, each entry's counter is the one the
/// counters hold for its peer.
pub proof fn lemma_counters_of_entry(entries: Seq<(PeerKey, u64)>, i: int)
    requires
        distinct_keys(entries),
        0 <= i < entries.len(),
    ensures
        counters_of(entries).dom().contains(entries[i].0),
        counters_of(entries)[entries[i].0] == entries[i].1,
    decreases entries.len(),
{
    if i < entries.len() - 1 {
        let front = entries.drop_last();
        assert(front[i] == entries[i]);
        assert(entries[i].0 != entries[entries.len() - 1].0);
        lemma_counters_of_entry(front, i);
    }
}

/// Appending an entry sets its peer's counter.
pub proof fn lemma_counters_of_push(entries: Seq<(PeerKey, u64)>, peer: PeerKey, count: u64)
    ensures
        counters_of(entries.push((peer, count))) == counters_of(entries).insert(peer, count),
{
    assert(entries.push((peer, count)).drop_last() =~= entries);
}

/// Among entries with distinct peers, replacing one entry's counter sets its
/// peer's counter.
pub proof fn lemma_counters_of_update(entries: Seq<(PeerKey, u64)>, i: int, count: u64)
    requires
        distinct_keys(entries),
        0 <= i < entries.len(),
    ensures
        counters_of(entries.update(i, (entries[i].0, count))) == counters_of(entries).insert(
            entries[i].0,
            count,
        ),
    decreases entries.len(),
{
    let peer = entries[i].0;
    let changed = entries.update(i, (peer, count));
    let front = entries.drop_last();
    if i == entries.len() - 1 {
        assert(changed.drop_last() =~= front);
        assert(counters_of(changed) =~= counters_of(entries).insert(peer, count));
    } else {
        assert(front[i] == entries[i]);
        assert(entries[i].0 != entries[entries.len() - 1].0);
        lemma_counters_of_update(front, i, count);
        assert(changed.drop_last() =~= front.update(i, (peer, count)));
        assert(changed.last() == entries.last());
        assert(counters_of(changed) =~= counters_of(entries).insert(peer, count));
    }
}

/// Raising one counter leaves no counter lower.
pub proof fn lemma_bumped_dominates(clock: Counters, peer: PeerKey)
    requires
        counter_of(clock, peer) < u64::MAX,
    ensures
        dominated_by(clock, bumped(clock, peer)),
        counter_of(bumped(clock, peer), peer) == counter_of(clock, peer) + 1,
        forall|p: PeerKey| p != peer ==> counter_of(bumped(clock, peer), p) == counter_of(clock, p),
        clock.dom().subset_of(bumped(clock, peer).dom()),
{
    let after = bumped(clock, peer);
    assert forall|p: PeerKey| #[trigger] counter_of(clock, p) <= counter_of(after, p) by {}
}

/// A merge holds, for every peer, the larger of the two counters.
pub proof fn lemma_merged_counters(a: Counters, b: Counters)
    ensures
        forall|p: PeerKey| #[trigger]
            counter_of(merged(a, b), p) == larger(counter_of(a, p), counter_of(b, p)),
        dominated_by(a, merged(a, b)),
        dominated_by(b, merged(a, b)),
        a.dom().subset_of(merged(a, b).dom()),
        b.dom().subset_of(merged(a, b).dom()),
{
    let m = merged(a, b);
    assert forall|p: PeerKey| #[trigger]
        counter_of(m, p) == larger(counter_of(a, p), counter_of(b, p)) by {}
    assert forall|p: PeerKey| #[trigger] counter_of(a, p) <= counter_of(m, p) by {
        assert(counter_of(m, p) == larger(counter_of(a, p), counter_of(b, p)));
    }
    assert forall|p: PeerKey| #[trigger] counter_of(b, p) <= counter_of(m, p) by {
        assert(counter_of(m, p) == larger(counter_of(a, p), counter_of(b, p)));
    }
}

/// Being dominated carries over.
pub proof fn lemma_dominated_by_transitive(a: Counters, b: Counters, c: Counters)
    requires
        dominated_by(a, b),
        dominated_by(b, c),
    ensures
        dominated_by(a, c),
{
    assert forall|p: PeerKey| #[trigger] counter_of(a, p) <= counter_of(c, p) by {
        assert(counter_of(a, p) <= counter_of(b, p));
        assert(counter_of(b, p) <= counter_of(c, p));
    }
}

/// A clock that is ahead of `clock` at one peer and behind it nowhere comes
/// causally after every clock that `clock` dominates.
pub proof fn lemma_strictly_after(earlier: Counters, clock: Counters, later: Counters, peer: PeerKey)
    requires
        dominated_by(earlier, clock),
        dominated_by(clock, later),
        counter_of(clock, peer) < counter_of(later, peer),
    ensures
        clock_order(earlier, later) == ClockOrder::Less,
        clock_order(later, earlier) == ClockOrder::Greater,
{
    lemma_dominated_by_transitive(earlier, clock, later);
    assert(counter_of(earlier, peer) <= counter_of(clock, peer));
    assert(counter_of(later, peer) > counter_of(earlier, peer));
    assert(ahead_somewhere(later, earlier));
    assert(!ahead_somewhere(earlier, later)) by {
        if ahead_somewhere(earlier, later) {
            let p = choose|p: PeerKey| #[trigger] counter_of(earlier, p) > counter_of(later, p);
            assert(counter_of(earlier, p) <= counter_of(later, p));
        }
    }
}

/// One peer's counter.
#[derive(Debug)]
struct ClockEntry {
    peer: PeerId,
    count: u64,
}

/// The entries as pairs of peer and counter.
spec fn pairs(entries: Seq<ClockEntry>) -> Seq<(PeerKey, u64)> {
    entries.map_values(|e: ClockEntry| (e.peer@, e.count))
}

/// The index of the entry for `peer`, if there is one.
fn position(entries: &Vec<ClockEntry>, peer: &PeerId) -> (found: Option<usize>)
    ensures
        found matches Some(i) ==> i < entries@.len() && pairs(entries@)[i as int].0 == peer@,
        found is None ==> !has_key(pairs(entries@), peer@),
{
    let mut i: usize = 0;
    while i < entries.len()
        invariant
            i <= entries@.len(),
            forall|j: int| 0 <= j < i ==> (#[trigger] pairs(entries@)[j]).0 != peer@,
        decreases entries@.len() - i,
    {
        if entries[i].peer.same_as(peer) {
            return Some(i);
        }
        i += 1;
    }
    None
}

/// The counter that the entries hold for `peer`; zero where they hold none.
fn lookup(entries: &Vec<ClockEntry>, peer: &PeerId) -> (count: u64)
    requires
        distinct_keys(pairs(entries@)),
    ensures
        count == counter_of(counters_of(pairs(entries@)), peer@),
{
    proof {
        lemma_counters_of_keys(pairs(entries@));
    }
    match position(entries, peer) {
        Some(i) => {
            proof {
                lemma_counters_of_entry(pairs(entries@), i as int);
            }
            entries[i].count
        },
        None => 0,
    }
}

/// Sets the counter for `peer`, with a new entry at the end where the peer
/// had none.
fn put(entries: &mut Vec<ClockEntry>, peer: &PeerId, count: u64)
    requires
        distinct_keys(pairs(old(entries)@)),
    ensures
        distinct_keys(pairs(final(entries)@)),
        counters_of(pairs(final(entries)@)) == counters_of(pairs(old(entries)@)).insert(
            peer@,
            count,
        ),
{
    let ghost before = pairs(entries@);
    match position(entries, peer) {
        Some(i) => {
            entries[i].count = count;
            proof {
                assert(pairs(entries@) =~= before.update(i as int, (peer@, count)));
                lemma_counters_of_update(before, i as int, count);
            }
        },
        None => {
            entries.push(ClockEntry { peer: peer.clone(), count });
            proof {
                assert(pairs(entries@) =~= before.push((peer@, count)));
                lemma_counters_of_push(before, peer@, count);
                assert forall|i: int, j: int|
                    0 <= i < j < pairs(entries@).len() implies (#[trigger] pairs(entries@)[i]).0 != (
                #[trigger] pairs(entries@)[j]).0 by {
                    if j == before.len() {
                        assert(before[i].0 != peer@);
                    } else {
                        assert(before[i].0 != before[j].0);
                    }
                }
            }
        },
    }
}

/// A vector clock: a counter for each peer it has heard of.
#[derive(Debug)]
pub struct VectorClock {
    entries: Vec<ClockEntry>,
}

impl View for VectorClock {
    type V = Counters;

    open spec fn view(&self) -> Counters {
        counters_of(self.entries())
    }
}

impl VectorClock {
    #[verifier::type_invariant]
    spec fn distinct(self) -> bool {
        distinct_keys(pairs(self.entries@))
    }

    /// The clock's entries, in the order in which the clock holds them.
    pub closed spec fn entries(self) -> Seq<(PeerKey, u64)> {
        pairs(self.entries@)
    }

    /// A clock that holds no counter.
    pub fn new() -> (clock: VectorClock)
        ensures
            clock.entries() == Seq::<(PeerKey, u64)>::empty(),
            clock@ == Map::<PeerKey, u64>::empty(),
    {
        let clock = VectorClock { entries: Vec::new() };
        assert(clock.entries() =~= Seq::<(PeerKey, u64)>::empty());
        clock
    }

    /// The number of peers the clock holds a counter for.
    pub fn len(&self) -> (n: usize)
        ensures
            n == self.entries().len(),
            distinct_keys(self.entries()),
    {
        proof {
            use_type_invariant(self);
        }
        self.entries.len()
    }

    /// The peer of the entry at `index`.
    pub fn peer_at(&self, index: usize) -> (peer: &PeerId)
        requires
            index < self.entries().len(),
        ensures
            peer@ == self.entries()[index as int].0,
    {
        &self.entries[index].peer
    }

    /// The counter of the entry at `index`.
    pub fn count_at(&self, index: usize) -> (count: u64)
        requires
            index < self.entries().len(),
        ensures
            count == self.entries()[index as int].1,
    {
        self.entries[index].count
    }

    /// Whether the clock holds a counter for `peer`.
    pub fn contains(&self, peer: &PeerId) -> (held: bool)
        ensures
            held == self@.dom().contains(peer@),
    {
        proof {
            lemma_counters_of_keys(self.entries());
        }
        position(&self.entries, peer).is_some()
    }

    /// The counter for `peer`; zero where the clock holds none.
    pub fn get(&self, peer: &PeerId) -> (count: u64)
        ensures
            count == counter_of(self@, peer@),
    {
        proof {
            use_type_invariant(self);
        }
        lookup(&self.entries, peer)
    }

    /// Sets the counter for `peer` to `count`.
    pub fn insert(&mut self, peer: &PeerId, count: u64)
        ensures
            final(self)@ == old(self)@.insert(peer@, count),
    {
        proof {
            use_type_invariant(&*self);
        }
        let mut entries: Vec<ClockEntry> = Vec::new();
        core::mem::swap(&mut self.entries, &mut entries);
        put(&mut entries, peer, count);
        self.entries = entries;
    }

    /// Raises the counter for `peer` by one; a peer without a counter gets
    /// one.
    pub fn bump(&mut self, peer: &PeerId)
        requires
            counter_of(old(self)@, peer@) < u64::MAX,
        ensures
            final(self)@ == bumped(old(self)@, peer@),
    {
        proof {
            use_type_invariant(&*self);
        }
        let mut entries: Vec<ClockEntry> = Vec::new();
        core::mem::swap(&mut self.entries, &mut entries);
        let count = lookup(&entries, peer);
        put(&mut entries, peer, count + 1);
        self.entries = entries;
    }

    /// Takes in `other`: every peer of `other` gets the larger of its two
    /// counters.
    pub fn merge(&mut self, other: &VectorClock)
        ensures
            final(self)@ == merged(old(self)@, other@),
    {
        proof {
            use_type_invariant(&*self);
            use_type_invariant(other);
        }
        let mut entries: Vec<ClockEntry> = Vec::new();
        core::mem::swap(&mut self.entries, &mut entries);
        let ghost start = counters_of(pairs(entries@));
        let ghost theirs = pairs(other.entries@);
        assert(theirs.take(0) =~= Seq::<(PeerKey, u64)>::empty());
        assert(start =~= merged(start, counters_of(theirs.take(0))));
        let mut i: usize = 0;
        while i < other.entries.len()
            invariant
                theirs == pairs(other.entries@),
                distinct_keys(theirs),
                distinct_keys(pairs(entries@)),
                i <= other.entries@.len(),
                counters_of(pairs(entries@)) == merged(start, counters_of(theirs.take(i as int))),
            decreases other.entries@.len() - i,
        {
            let entry = &other.entries[i];
            let mine = lookup(&entries, &entry.peer);
            let count = if mine >= entry.count {
                mine
            } else {
                entry.count
            };
            proof {
                let seen = theirs.take(i as int);
                let peer = entry.peer@;
                assert(theirs[i as int] == (peer, entry.count));
                assert(theirs.take(i + 1) =~= seen.push((peer, entry.count)));
                lemma_counters_of_push(seen, peer, entry.count);
                lemma_counters_of_keys(seen);
                if has_key(seen, peer) {
                    let j = choose|j: int| 0 <= j < seen.len() && (#[trigger] seen[j]).0 == peer;
                    assert(theirs[j].0 != theirs[i as int].0);
                }
                assert(merged(start, counters_of(seen)).insert(peer, count) =~= merged(
                    start,
                    counters_of(seen).insert(peer, entry.count),
                ));
            }
            put(&mut entries, &entry.peer, count);
            i += 1;
        }
        assert(theirs.take(i as int) =~= theirs);
        self.entries = entries;
    }

    /// A copy of the clock as it stands.
    pub fn snapshot(&self) -> (copy: VectorClock)
        ensures
            copy.entries() == self.entries(),
            copy@ == self@,
    {
        proof {
            use_type_invariant(self);
        }
        let mut entries: Vec<ClockEntry> = Vec::new();
        let mut i: usize = 0;
        while i < self.entries.len()
            invariant
                i <= self.entries@.len(),
                pairs(entries@) == pairs(self.entries@).take(i as int),
            decreases self.entries@.len() - i,
        {
            let entry = &self.entries[i];
            let ghost copied = pairs(entries@);
            entries.push(ClockEntry { peer: entry.peer.clone(), count: entry.count });
            assert(pairs(entries@) =~= copied.push((entry.peer@, entry.count)));
            assert(pairs(self.entries@)[i as int] == (entry.peer@, entry.count));
            assert(pairs(entries@) =~= pairs(self.entries@).take(i + 1));
            i += 1;
        }
        assert(pairs(self.entries@).take(i as int) =~= pairs(self.entries@));
        VectorClock { entries }
    }

    /// Whether a record stamped `incoming` is news to a node whose clock is
    /// `self`.
    pub fn is_novel(&self, incoming: &VectorClock) -> (novel: bool)
        ensures
            novel == is_novel(self@, incoming@),
    {
        proof {
            use_type_invariant(self);
            use_type_invariant(incoming);
            lemma_counters_of_keys(self.entries());
            lemma_counters_of_keys(incoming.entries());
        }
        let mut i: usize = 0;
        while i < incoming.entries.len()
            invariant
                i <= incoming.entries@.len(),
                distinct_keys(pairs(self.entries@)),
                distinct_keys(pairs(incoming.entries@)),
                forall|j: int|
                    0 <= j < i && self@.dom().contains((#[trigger] incoming.entries()[j]).0)
                        ==> self@[incoming.entries()[j].0] < incoming.entries()[j].1,
            decreases incoming.entries@.len() - i,
        {
            let entry = &incoming.entries[i];
            proof {
                lemma_counters_of_entry(incoming.entries(), i as int);
                lemma_counters_of_keys(self.entries());
            }
            match position(&self.entries, &entry.peer) {
                Some(k) => {
                    proof {
                        lemma_counters_of_entry(self.entries(), k as int);
                    }
                    if entry.count <= self.entries[k].count {
                        assert(incoming@.dom().contains(entry.peer@));
                        return false;
                    }
                },
                None => {},
            }
            i += 1;
        }
        proof {
            assert forall|p: PeerKey|
                #![trigger incoming@.dom().contains(p)]
                incoming@.dom().contains(p) && self@.dom().contains(p) implies self@[p]
                < incoming@[p] by {
                lemma_counters_of_keys(incoming.entries());
                assert(has_key(incoming.entries(), p));
                let j = choose|j: int|
                    0 <= j < incoming.entries().len() && (#[trigger] incoming.entries()[j]).0 == p;
                lemma_counters_of_entry(incoming.entries(), j);
            }
        }
        true
    }

    /// How `self` relates to `other` under the causal partial order.
    pub fn compare(&self, other: &VectorClock) -> (order: ClockOrder)
        ensures
            order == clock_order(self@, other@),
    {
        proof {
            use_type_invariant(self);
            use_type_invariant(other);
            lemma_counters_of_keys(self.entries());
            lemma_counters_of_keys(other.entries());
        }
        let ghost mine = self.entries();
        let ghost theirs = other.entries();
        let mut self_greater = false;
        let mut other_greater = false;
        let mut i: usize = 0;
        while i < self.entries.len()
            invariant
                mine == pairs(self.entries@),
                distinct_keys(mine),
                distinct_keys(pairs(other.entries@)),
                i <= self.entries@.len(),
                self_greater <==> exists|j: int|
                    0 <= j < i && (#[trigger] mine[j]).1 > counter_of(other@, mine[j].0),
                other_greater <==> exists|j: int|
                    0 <= j < i && (#[trigger] mine[j]).1 < counter_of(other@, mine[j].0),
            decreases self.entries@.len() - i,
        {
            let entry = &self.entries[i];
            let other_count = lookup(&other.entries, &entry.peer);
            assert(mine[i as int] == (entry.peer@, entry.count));
            if entry.count > other_count {
                self_greater = true;
            } else if other_count > entry.count {
                other_greater = true;
            }
            i += 1;
        }
        let ghost behind_on_mine = other_greater;
        let mut k: usize = 0;
        while k < other.entries.len()
            invariant
                theirs == pairs(other.entries@),
                distinct_keys(pairs(self.entries@)),
                k <= other.entries@.len(),
                other_greater <==> behind_on_mine || exists|j: int|
                    0 <= j < k && (#[trigger] theirs[j]).1 > 0 && !has_key(
                        pairs(self.entries@),
                        theirs[j].0,
                    ),
            decreases other.entries@.len() - k,
        {
            let entry = &other.entries[k];
            assert(theirs[k as int] == (entry.peer@, entry.count));
            if entry.count > 0 && position(&self.entries, &entry.peer).is_none() {
                other_greater = true;
            }
            k += 1;
        }
        proof {
            assert(self_greater <==> ahead_somewhere(self@, other@)) by {
                if self_greater {
                    let j = choose|j: int|
                        0 <= j < mine.len() && (#[trigger] mine[j]).1 > counter_of(
                            other@,
                            mine[j].0,
                        );
                    lemma_counters_of_entry(mine, j);
                    assert(counter_of(self@, mine[j].0) > counter_of(other@, mine[j].0));
                }
                if ahead_somewhere(self@, other@) {
                    let p = choose|p: PeerKey| #[trigger]
                        counter_of(self@, p) > counter_of(other@, p);
                    assert(has_key(mine, p));
                    let j = choose|j: int| 0 <= j < mine.len() && (#[trigger] mine[j]).0 == p;
                    lemma_counters_of_entry(mine, j);
                    assert(mine[j].1 > counter_of(other@, mine[j].0));
                }
            }
            assert(other_greater <==> ahead_somewhere(other@, self@)) by {
                if behind_on_mine {
                    let j = choose|j: int|
                        0 <= j < mine.len() && (#[trigger] mine[j]).1 < counter_of(
                            other@,
                            mine[j].0,
                        );
                    lemma_counters_of_entry(mine, j);
                    assert(counter_of(other@, mine[j].0) > counter_of(self@, mine[j].0));
                } else if other_greater {
                    let j = choose|j: int|
                        0 <= j < theirs.len() && (#[trigger] theirs[j]).1 > 0 && !has_key(
                            mine,
                            theirs[j].0,
                        );
                    lemma_counters_of_entry(theirs, j);
                    assert(counter_of(other@, theirs[j].0) > counter_of(self@, theirs[j].0));
                }
                if ahead_somewhere(other@, self@) {
                    let p = choose|p: PeerKey| #[trigger]
                        counter_of(other@, p) > counter_of(self@, p);
                    assert(has_key(theirs, p));
                    if has_key(mine, p) {
                        let j = choose|j: int| 0 <= j < mine.len() && (#[trigger] mine[j]).0 == p;
                        lemma_counters_of_entry(mine, j);
                        assert(mine[j].1 < counter_of(other@, mine[j].0));
                    } else {
                        let j = choose|j: int|
                            0 <= j < theirs.len() && (#[trigger] theirs[j]).0 == p;
                        lemma_counters_of_entry(theirs, j);
                        assert(theirs[j].1 > 0 && !has_key(mine, theirs[j].0));
                    }
                }
            }
        }
        if self_greater {
            if other_greater {
                ClockOrder::Concurrent
            } else {
                ClockOrder::Greater
            }
        } else if other_greater {
            ClockOrder::Less
        } else {
            ClockOrder::Equal
        }
    }
}

impl Clone for VectorClock {
    fn clone(&self) -> (copy: VectorClock)
        ensures
            copy.entries() == self.entries(),
            copy@ == self@,
    {
        self.snapshot()
    }
}

} // verus!
