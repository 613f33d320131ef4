//! Node roles and the packet-routing decision table.
//!
//! The transport layer reads a packet's kind off the wire and asks this
//! module what a node of a given role does with it; the handlers themselves
//! (inference, optimizer steps, parameter sync) live outside the core. The
//! role is a closed two-variant union matched exhaustively, never open-ended
//! dispatch.

use vstd::prelude::*;

verus! {

/// The part a node plays in the aggregation tree.
#[derive(Clone, Copy, Debug, PartialEq, Eq, Structural)]
pub enum NodeRole {
    /// Runs forward inference and backpropagation on its own batches.
    Worker,
    /// Holds the authoritative weights and applies aggregated updates.
    ParameterServer,
}

/// The kind of a packet arriving from the wire, with payloads stripped.
#[derive(Clone, Copy, Debug, PartialEq, Eq, Structural)]
pub enum PacketKind {
    /// A peer announcing itself.
    Handshake,
    /// A request to run inference on an input state.
    InferenceRequest,
    /// The answer to an inference request.
    InferenceResponse,
    /// A gradient contribution pushed toward the root.
    GradientPush,
    /// The authoritative parameters broadcast down the tree.
    ParameterBroadcast,
}

/// What the node should do with a packet.
#[derive(Clone, Copy, Debug, PartialEq, Eq, Structural)]
pub enum PacketAction {
    /// Note the sender and move on; no response owed.
    LogOnly,
    /// Run the inference handler and answer with a response packet.
    HandleInference,
    /// Apply the gradient to the authoritative weights.
    ApplyGradientUpdate,
    /// Overwrite local weights with the broadcast parameters.
    SyncParameters,
    /// The packet is not addressed to this role; drop it.
    Ignore,
}

/// The routing table as a function: which action a node of `role` takes on a
/// packet of `kind`. Inference requests and parameter broadcasts are worker
/// business, gradient pushes are parameter-server business, handshakes are
/// logged by everyone, and responses are left to the requesting caller.
pub open spec fn route_spec(role: NodeRole, kind: PacketKind) -> PacketAction {
    match kind {
        PacketKind::Handshake => PacketAction::LogOnly,
        PacketKind::InferenceRequest => if role is Worker {
            PacketAction::HandleInference
        } else {
            PacketAction::Ignore
        },
        PacketKind::InferenceResponse => PacketAction::Ignore,
        PacketKind::GradientPush => if role is ParameterServer {
            PacketAction::ApplyGradientUpdate
        } else {
            PacketAction::Ignore
        },
        PacketKind::ParameterBroadcast => if role is Worker {
            PacketAction::SyncParameters
        } else {
            PacketAction::Ignore
        },
    }
}

/// Decides what a node of `role` does with an incoming packet of `kind`.
pub fn route_packet(role: NodeRole, kind: PacketKind) -> (action: PacketAction)
    ensures
        action == route_spec(role, kind),
{
    match kind {
        PacketKind::Handshake => PacketAction::LogOnly,
        PacketKind::InferenceRequest => match role {
            NodeRole::Worker => PacketAction::HandleInference,
            NodeRole::ParameterServer => PacketAction::Ignore,
        },
        PacketKind::InferenceResponse => PacketAction::Ignore,
        PacketKind::GradientPush => match role {
            NodeRole::ParameterServer => PacketAction::ApplyGradientUpdate,
            NodeRole::Worker => PacketAction::Ignore,
        },
        PacketKind::ParameterBroadcast => match role {
            NodeRole::Worker => PacketAction::SyncParameters,
            NodeRole::ParameterServer => PacketAction::Ignore,
        },
    }
}

} // verus!
