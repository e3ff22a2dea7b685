//! The records that a run leaves behind, one per observable packet event.

use vstd::prelude::*;
use crate::Nanos;
use crate::flow::FlowSide;
use crate::packet::Packet;

verus! {

/// One line of the packet-event trace.
#[derive(Clone, Copy, Debug, PartialEq, Eq, Structural)]
pub enum TraceRecord {
    /// A node took a packet off a link.
    Rx { time: Nanos, node: u32, packet: Packet },
    /// A node started putting a packet on a link.
    Tx { time: Nanos, node: u32, packet: Packet },
    /// A switch had no room for a packet.
    Dropping { time: Nanos, node: u32, packet: Packet },
    /// A host stopped sending at its switch's request.
    Pausing { node: u32 },
    /// A host was released by its switch.
    Resuming { node: u32 },
    /// One side of a flow saw its last byte.
    FlowCompleted {
        flow: u32,
        node: u32,
        side: FlowSide,
        completion_time: Nanos,
        start_time: Nanos,
        end_time: Nanos,
    },
    /// A host got a packet that no flow of its own would take; it is discarded.
    Isolated { packet: Packet },
    /// The event queue drained.
    Exiting { time: Nanos },
}

impl TraceRecord {
    /// The `msg` field under which the record is written out.
    pub fn msg(&self) -> (m: &'static str)
        ensures
            m@ == self.msg_text(),
    {
        match self {
            TraceRecord::Rx { .. } => "rx",
            TraceRecord::Tx { .. } => "tx",
            TraceRecord::Dropping { .. } => "dropping",
            TraceRecord::Pausing { .. } => "pausing",
            TraceRecord::Resuming { .. } => "resuming",
            TraceRecord::FlowCompleted { .. } => "flow completed",
            TraceRecord::Isolated { .. } => "got isolated packet",
            TraceRecord::Exiting { .. } => "exiting",
        }
    }

    /// The packet that the record is about, if it is about one.
    pub fn packet(&self) -> (p: Option<Packet>)
        ensures
            p == match *self {
                TraceRecord::Rx { packet, .. }
                | TraceRecord::Tx { packet, .. }
                | TraceRecord::Dropping { packet, .. }
                | TraceRecord::Isolated { packet } => Some(packet),
                _ => None,
            },
    {
        match self {
            TraceRecord::Rx { packet, .. }
            | TraceRecord::Tx { packet, .. }
            | TraceRecord::Dropping { packet, .. }
            | TraceRecord::Isolated { packet } => Some(*packet),
            _ => None,
        }
    }

    /// The node at which the recorded event happened, if the record names
    /// one.
    pub fn node(&self) -> (n: Option<u32>)
        ensures
            n == match *self {
                TraceRecord::Rx { node, .. }
                | TraceRecord::Tx { node, .. }
                | TraceRecord::Dropping { node, .. }
                | TraceRecord::Pausing { node }
                | TraceRecord::Resuming { node }
                | TraceRecord::FlowCompleted { node, .. } => Some(node),
                _ => None,
            },
    {
        match self {
            TraceRecord::Rx { node, .. }
            | TraceRecord::Tx { node, .. }
            | TraceRecord::Dropping { node, .. }
            | TraceRecord::Pausing { node }
            | TraceRecord::Resuming { node }
            | TraceRecord::FlowCompleted { node, .. } => Some(*node),
            _ => None,
        }
    }

    /// When the recorded event happened, if the record says.
    pub fn time(&self) -> (t: Option<Nanos>)
        ensures
            t == match *self {
                TraceRecord::Rx { time, .. }
                | TraceRecord::Tx { time, .. }
                | TraceRecord::Dropping { time, .. }
                | TraceRecord::Exiting { time } => Some(time),
                TraceRecord::FlowCompleted { end_time, .. } => Some(end_time),
                _ => None,
            },
    {
        match self {
            TraceRecord::Rx { time, .. }
            | TraceRecord::Tx { time, .. }
            | TraceRecord::Dropping { time, .. }
            | TraceRecord::Exiting { time } => Some(*time),
            TraceRecord::FlowCompleted { end_time, .. } => Some(*end_time),
            _ => None,
        }
    }

    pub open spec fn msg_text(self) -> Seq<char> {
        match self {
            TraceRecord::Rx { .. } => "rx"@,
            TraceRecord::Tx { .. } => "tx"@,
            TraceRecord::Dropping { .. } => "dropping"@,
            TraceRecord::Pausing { .. } => "pausing"@,
            TraceRecord::Resuming { .. } => "resuming"@,
            TraceRecord::FlowCompleted { .. } => "flow completed"@,
            TraceRecord::Isolated { .. } => "got isolated packet"@,
            TraceRecord::Exiting { .. } => "exiting"@,
        }
    }
}

} // verus!
