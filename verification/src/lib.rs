//! Routing-and-delivery engine for an endpoint in a simulated packet-switched
//! mesh: fragmentation and reassembly of arbitrary-length payloads, topology
//! discovery by flooding, source-routed path resolution, and the
//! acknowledgment / negative-acknowledgment recovery protocol.

pub mod client;
pub mod engine;
pub mod errors;
pub mod fragment;
pub mod packet;
pub mod resolve;
pub mod topology;

use vstd::prelude::*;

verus! {

/// Identifier of a node in the mesh, globally unique per network instance.
pub type NodeId = u8;

} // verus!
