//! Per-peer membership metadata carried by gossip.

use crate::bdd::node_status::NodeStatus;
use vstd::prelude::*;

verus! {

/// Incarnation and freshness of a peer: the generation is fixed at that
/// peer's start, the version grows with every change worth spreading.
#[derive(Debug, Clone)]
pub struct HeartbeatState {
    pub generation: u64,
    pub version: u32,
}

/// The peer's serving state.
#[derive(Debug, Clone)]
pub struct ApplicationState {
    pub status: NodeStatus,
}

/// Everything this node knows of one peer.
#[derive(Debug, Clone)]
pub struct EndpointData {
    pub heartbeat_state: HeartbeatState,
    pub application_state: ApplicationState,
}

impl EndpointData {
    /// A fresh record with the given generation, version and state.
    pub fn new(generacion: u64, version: u32, estado: NodeStatus) -> (r: Self)
        ensures
            r.heartbeat_state.generation == generacion,
            r.heartbeat_state.version == version,
            r.application_state.status == estado,
    {
        EndpointData {
            heartbeat_state: HeartbeatState { generation: generacion, version },
            application_state: ApplicationState { status: estado },
        }
    }
}

/// Whether a digest pair is strictly fresher than another: a higher
/// generation wins; within one generation a higher version wins.
pub open spec fn mas_fresco(gen_a: int, ver_a: int, gen_b: int, ver_b: int) -> bool {
    gen_a > gen_b || (gen_a == gen_b && ver_a > ver_b)
}

} // verus!
