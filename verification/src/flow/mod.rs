//! Flows: what a transfer is, and the event that starts one.

use vstd::prelude::*;
use crate::Nanos;
use crate::error::SimError;
use crate::event::EventTime;
use crate::packet::{HEADER_BYTES, MAX_WIRE_BYTES, Packet};
use crate::trace::TraceRecord;

pub mod go_back_n;

verus! {

/// A transfer of `length_bytes` bytes from one host to another, cut into
/// packets of at most `max_packet_length` payload bytes.
#[derive(Clone, Copy, Debug, PartialEq, Eq, Structural)]
pub struct FlowInfo {
    pub flow_id: u32,
    pub sender_id: u32,
    pub dest_id: u32,
    pub length_bytes: u32,
    pub max_packet_length: u32,
}

impl FlowInfo {
    /// A flow can be run when its packets carry at least one byte and are
    /// small enough to be serialised.
    pub open spec fn valid(self) -> bool {
        0 < self.max_packet_length && self.max_packet_length + HEADER_BYTES <= MAX_WIRE_BYTES
    }

    /// Whether the flow can be run, decided at run time.
    pub fn is_valid(&self) -> (ok: bool)
        ensures
            ok == self.valid(),
    {
        0 < self.max_packet_length && self.max_packet_length <= MAX_WIRE_BYTES - HEADER_BYTES
    }
}

/// Which end of a flow a piece of state belongs to.
#[derive(Clone, Copy, Debug, PartialEq, Eq, Structural)]
pub enum FlowSide {
    Sender,
    Receiver,
}

/// A flow comes into being at an absolute time: the sender's half is
/// installed on the sending host and the receiver's half on the destination.
#[derive(Clone, Copy, Debug, PartialEq, Eq, Structural)]
pub struct FlowArrivalEvent(pub FlowInfo, pub Nanos);

impl FlowArrivalEvent {
    pub fn time(&self) -> (t: EventTime)
        ensures
            t == EventTime::Absolute(self.1),
    {
        EventTime::Absolute(self.1)
    }

    /// The sender first, then the destination.
    pub fn affected_node_ids(&self) -> (ids: Vec<u32>)
        ensures
            ids@ == seq![self.0.sender_id, self.0.dest_id],
    {
        let mut ids: Vec<u32> = Vec::new();
        ids.push(self.0.sender_id);
        ids.push(self.0.dest_id);
        ids
    }
}

/// What one step of a flow does: the flow afterwards, the packets it hands
/// to its host, whether the host must first throw away the data packets of
/// this flow that it has not sent yet, and the records added to the trace.
pub struct FlowStep<F> {
    pub next: F,
    pub packets: Seq<Packet>,
    pub clear: bool,
    pub trace: Seq<TraceRecord>,
}

/// Whether every packet of a sequence is valid.
pub open spec fn all_packets_valid(pkts: Seq<Packet>) -> bool {
    forall|i: int| 0 <= i < pkts.len() ==> (#[trigger] pkts[i]).valid()
}

/// The packets and the flag of a flow's answer.
pub open spec fn answer_of(r: Result<(Vec<Packet>, bool), SimError>) -> Option<(Seq<Packet>, bool)> {
    match r {
        Ok((pkts, clear)) => Some((pkts@, clear)),
        Err(_) => None,
    }
}

/// One end of a transfer. What a flow does with a packet or a poll is given
/// by `received` and `polled`; the methods carry them out.
pub trait Flow: Sized {
    spec fn info(&self) -> FlowInfo;

    spec fn which_side(&self) -> FlowSide;

    spec fn completed(&self) -> Option<Nanos>;

    /// What the methods need to hold of a flow, and keep.
    spec fn wf(&self) -> bool;

    /// Whether this end of the flow can take `pkt` at `time`.
    spec fn accepts(&self, time: Nanos, pkt: Packet) -> bool;

    spec fn received(&self, time: Nanos, pkt: Packet) -> FlowStep<Self>;

    spec fn polled(&self, time: Nanos) -> FlowStep<Self>;

    fn flow_info(&self) -> (fi: FlowInfo)
        ensures
            fi == self.info(),
    ;

    fn side(&self) -> (s: FlowSide)
        ensures
            s == self.which_side(),
    ;

    /// How long the transfer took, once this end has seen its last byte.
    fn completion_time(&self) -> (t: Option<Nanos>)
        ensures
            t == self.completed(),
    ;

    /// Whether this end of the flow can take `pkt` at `time`.
    fn can_receive(&self, time: Nanos, pkt: Packet) -> (ok: bool)
        ensures
            ok == self.accepts(time, pkt),
    ;

    /// Takes an incoming packet and returns the packets sent in reaction.
    fn receive(&mut self, time: Nanos, pkt: Packet, trace: &mut Vec<TraceRecord>) -> (r: Result<
        (Vec<Packet>, bool),
        SimError,
    >)
        requires
            old(self).wf(),
            old(self).accepts(time, pkt),
        ensures
            final(self).wf(),
            *final(self) == old(self).received(time, pkt).next,
            answer_of(r) == Some(
                (old(self).received(time, pkt).packets, old(self).received(time, pkt).clear),
            ),
            final(trace)@ == old(trace)@ + old(self).received(time, pkt).trace,
            all_packets_valid(old(self).received(time, pkt).packets),
            final(self).info() == old(self).info(),
    ;

    /// Returns the packets that the flow sends of its own accord.
    fn exec(&mut self, time: Nanos, trace: &mut Vec<TraceRecord>) -> (r: Result<
        (Vec<Packet>, bool),
        SimError,
    >)
        requires
            old(self).wf(),
        ensures
            final(self).wf(),
            *final(self) == old(self).polled(time).next,
            answer_of(r) == Some((old(self).polled(time).packets, old(self).polled(time).clear)),
            final(trace)@ == old(trace)@ + old(self).polled(time).trace,
            all_packets_valid(old(self).polled(time).packets),
            final(self).info() == old(self).info(),
    ;
}

} // verus!
