//! Overlay gate: suppresses asking while the mesh is too small.
//!
//! Broadcasting `Get` requests into a mesh with fewer than two peers is
//! certain to go unanswered and would busy-spin fruitless publishes, so the
//! event loop asks only while the peer count reaches the threshold.

use vstd::prelude::*;

verus! {

/// The fewest full-mesh peers at which asking is worthwhile.
pub const MIN_MESH_PEERS: usize = 2;

/// Whether the client should broadcast its `Get` requests, given the
/// overlay's current full-mesh peer count.
pub fn should_ask(mesh_peer_count: usize) -> (r: bool)
    ensures
        r == (mesh_peer_count >= MIN_MESH_PEERS),
{
    mesh_peer_count >= MIN_MESH_PEERS
}

} // verus!
