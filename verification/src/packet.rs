//! The packet vocabulary exchanged over links: message fragments,
//! acknowledgments, negative acknowledgments, and discovery probes and
//! responses, each carried under a source-routed header.

use vstd::prelude::*;
use crate::NodeId;
use crate::fragment::Fragment;
use crate::topology::NodeKind;

verus! {

/// The explicit hop list a sender embeds in a packet, with a cursor naming
/// the next hop to consume. Relays advance the cursor and forward.
pub struct RoutingHeader {
    pub hops: Vec<NodeId>,
    pub cursor: usize,
}

/// Why a fragment failed to progress, as reported by a negative
/// acknowledgment.
#[derive(Clone, Copy, PartialEq, Eq, Structural, Debug)]
pub enum NackCause {
    /// A relay on the path is unreachable or crashed.
    RelayFailure(NodeId),
    /// The resolved path incorrectly terminated at a relay.
    DestinationIsRelay,
    /// A relay probabilistically discarded the packet; no topology change.
    Dropped,
    /// The packet arrived at a node not matching its routing header.
    UnexpectedRecipient(NodeId),
}

/// What a packet carries.
pub enum PacketKind {
    MsgFragment(Fragment),
    Ack { index: u64 },
    Nack { index: u64, cause: NackCause },
    FloodRequest { flood_id: u64, initiator: NodeId, trace: Vec<(NodeId, NodeKind)> },
    FloodResponse { flood_id: u64, initiator: NodeId, trace: Vec<(NodeId, NodeKind)> },
}

/// One unit on the wire: a session identifier, the source-routed header, and
/// the payload kind.
pub struct Packet {
    pub session: u64,
    pub header: RoutingHeader,
    pub kind: PacketKind,
}

} // verus!
