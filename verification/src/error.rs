//! The ways in which a simulation step can fail.

use vstd::prelude::*;

verus! {

/// Why an operation of the simulator gave up.
#[derive(Clone, Copy, Debug, PartialEq, Eq, Structural)]
pub enum SimError {
    /// No host carries this id.
    InvalidHost(u32),
    /// No host and no switch carries this id.
    InvalidNode(u32),
    /// A node that an event names could not be borrowed: the id is unknown,
    /// or the event names it twice. Carries the position in the event's list
    /// and the id.
    NodeNotFound(usize, u32),
    /// A flow was addressed to a node that is not a host.
    NotAHost(u32),
    /// A host was polled with nothing left to transmit.
    NoPendingPackets,
    /// A switch has no egress queue towards this node.
    NoRoute(u32),
    /// A link was handed to a node that does not own it.
    ForeignLink(u32),
    /// A switch-originated NACK found its egress queue full.
    NackOverflow(u32),
    /// A per-ingress byte counter would overflow, or does not cover a packet
    /// that leaves. Carries the ingress.
    IngressAccounting(u32),
    /// A packet leaves a switch that has no record of where it came in.
    /// Carries the node it leaves for.
    UntrackedPacket(u32),
    /// An event's fire time does not fit in the clock.
    TimeOverflow,
    /// An event is meant to fire before now.
    PastEvent,
    /// The run was cut off after the largest number of steps it may take.
    StepLimit,
}

} // verus!
