//! The packets that travel over links.

use vstd::prelude::*;

verus! {

/// Bytes that a transport header occupies on the wire.
pub const HEADER_BYTES: u32 = 40;

/// Bytes that a PAUSE or RESUME frame occupies on the wire.
pub const CONTROL_BYTES: u32 = 9;

/// The largest wire size whose serialisation delay can be computed in 64 bits.
pub const MAX_WIRE_BYTES: u32 = 2_305_843_009;

#[derive(Clone, Copy, Debug, PartialEq, Eq, Hash, Structural)]
pub struct PacketHeader {
    pub flow: u32,
    pub from: u32,
    pub to: u32,
}

impl PacketHeader {
    pub fn get_size_bytes(&self) -> (size: u32)
        ensures
            size == HEADER_BYTES,
    {
        HEADER_BYTES
    }

    /// The header of a reply: same flow, endpoints swapped.
    pub open spec fn reversed(self) -> PacketHeader {
        PacketHeader { flow: self.flow, from: self.to, to: self.from }
    }
}

#[derive(Clone, Copy, Debug, PartialEq, Eq, Hash, Structural)]
pub enum Packet {
    Data { hdr: PacketHeader, seq: u32, length: u32 },
    Ack { hdr: PacketHeader, cumulative_acked_seq: u32 },
    Nack { hdr: PacketHeader, nacked_seq: u32 },
    /// Asks the peer to stop sending; carries the id of the node that asks.
    Pause(u32),
    /// Lifts an earlier `Pause`; carries the id of the node that asks.
    Resume(u32),
}

impl Packet {
    /// Bytes the packet occupies on the wire.
    pub open spec fn wire_size(self) -> int {
        match self {
            Packet::Data { length, .. } => length + HEADER_BYTES,
            Packet::Ack { .. } | Packet::Nack { .. } => HEADER_BYTES as int,
            Packet::Pause(_) | Packet::Resume(_) => CONTROL_BYTES as int,
        }
    }

    /// Whether the wire size fits in 32 bits.
    pub open spec fn fits(self) -> bool {
        self.wire_size() <= u32::MAX
    }

    /// A packet is valid when its serialisation delay is computable.
    pub open spec fn valid(self) -> bool {
        self.wire_size() <= MAX_WIRE_BYTES
    }

    /// The transport header, for the variants that carry one.
    pub open spec fn header(self) -> Option<PacketHeader> {
        match self {
            Packet::Data { hdr, .. } | Packet::Ack { hdr, .. } | Packet::Nack { hdr, .. } => Some(
                hdr,
            ),
            Packet::Pause(_) | Packet::Resume(_) => None,
        }
    }

    /// Whether this is a data packet of the given flow.
    pub open spec fn is_data_of(self, flow: u32) -> bool {
        self matches Packet::Data { hdr, .. } && hdr.flow == flow
    }

    pub fn get_size_bytes(&self) -> (size: u32)
        requires
            self.fits(),
        ensures
            size == self.wire_size(),
    {
        match self {
            Packet::Pause(_) | Packet::Resume(_) => CONTROL_BYTES,
            Packet::Nack { hdr, .. } | Packet::Ack { hdr, .. } => hdr.get_size_bytes(),
            Packet::Data { hdr, length, .. } => *length + hdr.get_size_bytes(),
        }
    }

    /// Whether the wire size is small enough for the packet to be valid.
    pub fn is_valid(&self) -> (ok: bool)
        ensures
            ok == self.valid(),
    {
        match self {
            Packet::Data { length, .. } => *length <= MAX_WIRE_BYTES - HEADER_BYTES,
            _ => true,
        }
    }
}

} // verus!
