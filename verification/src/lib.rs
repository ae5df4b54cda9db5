//! Causal replication engine of a gossip node: vector clocks, the ordering of
//! clock-stamped records, the per-node replica, and the rules by which a node
//! accepts, stamps and rebroadcasts records.

pub mod peer;
pub mod clock;
pub mod record;
pub mod replica;
pub mod wire;
pub mod node;

pub use crate::clock::{ClockOrder, VectorClock};
pub use crate::node::{Action, Event, Node, TOPIC};
pub use crate::peer::PeerId;
pub use crate::record::{DataWithClock, RecordOrder};
pub use crate::replica::Replica;
pub use crate::wire::{deserialize, serialize, DecodeError, WireRecord};
