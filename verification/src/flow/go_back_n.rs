//! Go-back-N: a sliding window at the sender, an expected sequence number at
//! the receiver.

use vstd::prelude::*;
use crate::Nanos;
use crate::congcontrol::{CongAlg, ReductionType};
use crate::error::SimError;
use crate::flow::{Flow, FlowInfo, FlowSide, FlowStep, all_packets_valid};
use crate::packet::{Packet, PacketHeader};
use crate::trace::TraceRecord;

verus! {

/// Nanoseconds without an ACK or NACK after which a sender goes back to its
/// last acknowledged byte.
pub const RETX_TIMEOUT_NANOS: Nanos = 1_000_000_000;

/// The two ends of a new flow.
pub fn new<CC: CongAlg>(fi: FlowInfo) -> (ends: (Box<GoBackNSender<CC>>, Box<GoBackNReceiver>))
    requires
        fi.valid(),
    ensures
        *ends.0 == GoBackNSender::<CC>::fresh(fi),
        *ends.1 == GoBackNReceiver::fresh(fi),
        ends.0.wf(),
        ends.1.wf(),
{
    (
        Box::new(
            GoBackNSender {
                flow_info: fi,
                start_time: None,
                completion_time: None,
                next_to_send: 0,
                cumulative_acked: 0,
                retx_timeout: 0,
                cong_control: CC::new(),
            },
        ),
        Box::new(
            GoBackNReceiver {
                flow_info: fi,
                cumulative_received: 0,
                start_time: None,
                completion_time: None,
                nack_inflight: false,
            },
        ),
    )
}

/// The header of the data packets of a flow.
pub open spec fn data_header(fi: FlowInfo) -> PacketHeader {
    PacketHeader { flow: fi.flow_id, from: fi.sender_id, to: fi.dest_id }
}

/// The data packets that a sender emits when it may send bytes below `limit`
/// and starts at byte `next`: full packets while a full packet still fits in
/// the flow, then one short packet for what is left.
pub open spec fn burst(fi: FlowInfo, limit: int, next: int) -> Seq<Packet>
    decreases fi.length_bytes - next,
{
    let full = fi.max_packet_length;
    if next < 0 || next >= limit || next >= fi.length_bytes {
        Seq::empty()
    } else if full > 0 && next + full <= fi.length_bytes {
        seq![Packet::Data { hdr: data_header(fi), seq: next as u32, length: full }] + burst(
            fi,
            limit,
            next + full,
        )
    } else {
        seq![
            Packet::Data {
                hdr: data_header(fi),
                seq: next as u32,
                length: (fi.length_bytes - next) as u32,
            },
        ]
    }
}

/// The first byte not yet sent once `burst` has gone out.
pub open spec fn burst_end(fi: FlowInfo, limit: int, next: int) -> int
    decreases fi.length_bytes - next,
{
    let full = fi.max_packet_length;
    if next < 0 || next >= limit || next >= fi.length_bytes {
        next
    } else if full > 0 && next + full <= fi.length_bytes {
        burst_end(fi, limit, next + full)
    } else {
        fi.length_bytes as int
    }
}

/// A burst never ends before it starts, nor beyond the flow.
pub proof fn lemma_burst_end_bounds(fi: FlowInfo, limit: int, next: int)
    requires
        0 <= next,
    ensures
        next <= burst_end(fi, limit, next),
        next <= fi.length_bytes ==> burst_end(fi, limit, next) <= fi.length_bytes,
    decreases fi.length_bytes - next,
{
    let full = fi.max_packet_length;
    if next < 0 || next >= limit || next >= fi.length_bytes {
    } else if full > 0 && next + full <= fi.length_bytes {
        lemma_burst_end_bounds(fi, limit, next + full);
    }
}

/// The packets of a burst can be serialised.
pub proof fn lemma_burst_valid(fi: FlowInfo, limit: int, next: int)
    requires
        fi.valid(),
    ensures
        all_packets_valid(burst(fi, limit, next)),
    decreases fi.length_bytes - next,
{
    let full = fi.max_packet_length;
    if next < 0 || next >= limit || next >= fi.length_bytes {
    } else if full > 0 && next + full <= fi.length_bytes {
        lemma_burst_valid(fi, limit, next + full);
    }
}

/// The sending end of a flow.
#[derive(Debug)]
pub struct GoBackNSender<CC: CongAlg> {
    pub flow_info: FlowInfo,
    pub start_time: Option<Nanos>,
    pub completion_time: Option<Nanos>,
    pub next_to_send: u32,
    pub cumulative_acked: u32,
    /// When the last ACK or NACK came in; zero before the first.
    pub retx_timeout: Nanos,
    pub cong_control: CC,
}

impl<CC: CongAlg> GoBackNSender<CC> {
    /// A sender that has sent nothing.
    pub open spec fn fresh(fi: FlowInfo) -> Self {
        GoBackNSender {
            flow_info: fi,
            start_time: None,
            completion_time: None,
            next_to_send: 0,
            cumulative_acked: 0,
            retx_timeout: 0,
            cong_control: CC::initial(),
        }
    }

    /// The byte below which the window lets the sender send.
    pub open spec fn send_limit(self) -> int {
        self.cumulative_acked + self.cong_control.window() * self.flow_info.max_packet_length
    }

    /// The header of the ACKs and NACKs that belong to this flow.
    pub open spec fn reply_header(self) -> PacketHeader {
        data_header(self.flow_info).reversed()
    }

    /// Whether `ack_seq` acknowledges the last byte for the first time.
    pub open spec fn completes(self, ack_seq: u32) -> bool {
        ack_seq > self.cumulative_acked && ack_seq == self.flow_info.length_bytes
    }

    /// The sender takes ACKs and NACKs of its own flow. An ACK that completes
    /// the flow needs a start time to measure from.
    pub open spec fn takes(self, time: Nanos, pkt: Packet) -> bool {
        match pkt {
            Packet::Ack { hdr, cumulative_acked_seq } => hdr == self.reply_header() && (
            self.completes(cumulative_acked_seq) ==> self.start_time is Some
                && self.start_time->0 <= time),
            Packet::Nack { hdr, .. } => hdr == self.reply_header(),
            _ => false,
        }
    }

    /// The sender sends what the window allows, from `from` on.
    pub open spec fn sending_from(self, from: u32, clear: bool) -> FlowStep<Self> {
        FlowStep {
            next: GoBackNSender {
                next_to_send: burst_end(self.flow_info, self.send_limit(), from as int) as u32,
                ..self
            },
            packets: burst(self.flow_info, self.send_limit(), from as int),
            clear,
            trace: Seq::empty(),
        }
    }

    pub open spec fn idle(self) -> FlowStep<Self> {
        FlowStep { next: self, packets: Seq::empty(), clear: false, trace: Seq::empty() }
    }

    /// An ACK beyond what is acknowledged moves the window; the ACK of the
    /// last byte completes the flow. An ACK that acknowledges nothing new is
    /// ignored. A NACK sends the sender back to the byte it names, and the
    /// host must forget the data it still holds of this flow.
    pub open spec fn after_ack(self, ack: Packet, time: Nanos) -> FlowStep<Self> {
        match ack {
            Packet::Ack { cumulative_acked_seq, .. } => {
                if cumulative_acked_seq > self.cumulative_acked {
                    let moved = GoBackNSender {
                        cong_control: self.cong_control.after_packet(
                            (cumulative_acked_seq - self.cumulative_acked) as u32,
                            0,
                        ),
                        cumulative_acked: cumulative_acked_seq,
                        ..self
                    };
                    if cumulative_acked_seq == self.flow_info.length_bytes {
                        let start = self.start_time->0;
                        let took = (time - start) as u64;
                        FlowStep {
                            next: GoBackNSender { completion_time: Some(took), ..moved },
                            packets: Seq::empty(),
                            clear: false,
                            trace: seq![
                                TraceRecord::FlowCompleted {
                                    flow: self.flow_info.flow_id,
                                    node: self.flow_info.sender_id,
                                    side: FlowSide::Sender,
                                    completion_time: took,
                                    start_time: start,
                                    end_time: time,
                                },
                            ],
                        }
                    } else {
                        moved.sending_from(moved.next_to_send, false)
                    }
                } else {
                    self.idle()
                }
            },
            Packet::Nack { nacked_seq, .. } => (GoBackNSender {
                cong_control: self.cong_control.after_reduction(ReductionType::Drop),
                ..self
            }).sending_from(nacked_seq, true),
            _ => self.idle(),
        }
    }

    /// Whether the sender has waited too long for an ACK or NACK.
    pub open spec fn timed_out(self, now: Nanos) -> bool {
        &&& self.retx_timeout > 0
        &&& self.completion_time is None
        &&& now - self.retx_timeout > RETX_TIMEOUT_NANOS
    }

    /// Takes an ACK or a NACK of this flow.
    pub fn got_ack(&mut self, ack: Packet, time: Nanos, trace: &mut Vec<TraceRecord>) -> (r: Result<
        (Vec<Packet>, bool),
        SimError,
    >)
        requires
            old(self).flow_info.valid(),
            old(self).takes(time, ack),
        ensures
            *final(self) == old(self).after_ack(ack, time).next,
            crate::flow::answer_of(r) == Some(
                (old(self).after_ack(ack, time).packets, old(self).after_ack(ack, time).clear),
            ),
            final(trace)@ == old(trace)@ + old(self).after_ack(ack, time).trace,
    {
        let ghost trace0 = trace@;
        match ack {
            Packet::Ack { hdr, cumulative_acked_seq } => {
                if cumulative_acked_seq > self.cumulative_acked {
                    self.cong_control.on_packet(cumulative_acked_seq - self.cumulative_acked, 0);
                    self.cumulative_acked = cumulative_acked_seq;
                    if self.cumulative_acked == self.flow_info.length_bytes {
                        let start: Nanos = match self.start_time {
                            Some(s) => s,
                            None => 0,
                        };
                        let took: Nanos = time - start;
                        self.completion_time = Some(took);
                        trace.push(
                            TraceRecord::FlowCompleted {
                                flow: self.flow_info.flow_id,
                                node: self.flow_info.sender_id,
                                side: FlowSide::Sender,
                                completion_time: took,
                                start_time: start,
                                end_time: time,
                            },
                        );
                        Ok((Vec::new(), false))
                    } else {
                        proof {
                            assert(trace@ =~= trace0 + Seq::<TraceRecord>::empty());
                        }
                        match self.maybe_send_more() {
                            Ok(pkts) => Ok((pkts, false)),
                            Err(e) => Err(e),
                        }
                    }
                } else {
                    proof {
                        assert(trace@ =~= trace0 + Seq::<TraceRecord>::empty());
                    }
                    Ok((Vec::new(), false))
                }
            },
            Packet::Nack { hdr, nacked_seq } => {
                self.cong_control.reduction(ReductionType::Drop);
                proof {
                    assert(trace@ =~= trace0 + Seq::<TraceRecord>::empty());
                }
                match self.go_back_n(nacked_seq) {
                    Ok(pkts) => Ok((pkts, true)),
                    Err(e) => Err(e),
                }
            },
            _ => {
                proof {
                    assert(trace@ =~= trace0 + Seq::<TraceRecord>::empty());
                }
                Ok((Vec::new(), false))
            },
        }
    }

    /// Whether the sender has waited too long for an ACK or NACK.
    pub fn check_timeout(&self, now: Nanos) -> (late: bool)
        ensures
            late == self.timed_out(now),
    {
        self.retx_timeout > 0 && self.completion_time.is_none() && now > self.retx_timeout && now
            - self.retx_timeout > RETX_TIMEOUT_NANOS
    }

    /// Sends what the window allows, from the first byte not yet sent on.
    pub fn maybe_send_more(&mut self) -> (r: Result<Vec<Packet>, SimError>)
        requires
            old(self).flow_info.valid(),
        ensures
            *final(self) == old(self).sending_from(old(self).next_to_send, false).next,
            r matches Ok(pkts) && pkts@ == burst(
                old(self).flow_info,
                old(self).send_limit(),
                old(self).next_to_send as int,
            ),
    {
        let window: u32 = self.cong_control.cwnd();
        let full: u32 = self.flow_info.max_packet_length;
        let length: u32 = self.flow_info.length_bytes;
        assert(window * full <= 0xffff_ffff * 0xffff_ffff) by (nonlinear_arith)
            requires
                window <= 0xffff_ffffu32,
                full <= 0xffff_ffffu32,
        ;
        let cwnd: u64 = window as u64 * full as u64;
        let limit: u64 = self.cumulative_acked as u64 + cwnd;
        let ghost fi = self.flow_info;
        let ghost start = self.next_to_send as int;
        let mut pkts: Vec<Packet> = Vec::new();
        proof {
            lemma_burst_end_bounds(fi, limit as int, start);
        }
        loop
            invariant
                fi == self.flow_info,
                fi.valid(),
                full == fi.max_packet_length,
                length == fi.length_bytes,
                limit == old(self).send_limit(),
                *self == (GoBackNSender { next_to_send: self.next_to_send, ..*old(self) }),
                pkts@ + burst(fi, limit as int, self.next_to_send as int) == burst(
                    fi,
                    limit as int,
                    start,
                ),
                burst_end(fi, limit as int, self.next_to_send as int) == burst_end(
                    fi,
                    limit as int,
                    start,
                ),
            ensures
                fi == self.flow_info,
                *self == (GoBackNSender { next_to_send: self.next_to_send, ..*old(self) }),
                pkts@ == burst(fi, limit as int, start),
                self.next_to_send == burst_end(fi, limit as int, start),
            decreases
                    if self.next_to_send <= length {
                        length - self.next_to_send
                    } else {
                        0
                    },
        {
            let ghost sent = pkts@;
            let ghost here = self.next_to_send as int;
            if (self.next_to_send as u64) < limit {
                if self.next_to_send as u64 + full as u64 <= length as u64 {
                    let pkt: Packet = Packet::Data {
                        hdr: PacketHeader {
                            flow: self.flow_info.flow_id,
                            from: self.flow_info.sender_id,
                            to: self.flow_info.dest_id,
                        },
                        seq: self.next_to_send,
                        length: full,
                    };
                    self.next_to_send += full;
                    pkts.push(pkt);
                    proof {
                        assert(sent.push(pkt) + burst(fi, limit as int, here + full) =~= sent + (
                        seq![pkt] + burst(fi, limit as int, here + full)));
                    }
                } else if self.next_to_send < length {
                    let pkt: Packet = Packet::Data {
                        hdr: PacketHeader {
                            flow: self.flow_info.flow_id,
                            from: self.flow_info.sender_id,
                            to: self.flow_info.dest_id,
                        },
                        seq: self.next_to_send,
                        length: length - self.next_to_send,
                    };
                    self.next_to_send += length - self.next_to_send;
                    pkts.push(pkt);
                    proof {
                        assert(sent.push(pkt) =~= sent + seq![pkt]);
                    }
                    break ;
                } else {
                    proof {
                        assert(sent + Seq::<Packet>::empty() =~= sent);
                    }
                    break ;
                }
            } else {
                proof {
                    assert(sent + Seq::<Packet>::empty() =~= sent);
                }
                break ;
            }
        }
        Ok(pkts)
    }

    /// Goes back to byte `go_back_to` and sends what the window allows from
    /// there on.
    pub fn go_back_n(&mut self, go_back_to: u32) -> (r: Result<Vec<Packet>, SimError>)
        requires
            old(self).flow_info.valid(),
        ensures
            *final(self) == old(self).sending_from(go_back_to, true).next,
            r matches Ok(pkts) && pkts@ == burst(
                old(self).flow_info,
                old(self).send_limit(),
                go_back_to as int,
            ),
    {
        self.next_to_send = go_back_to;
        self.maybe_send_more()
    }
}

impl<CC: CongAlg> Flow for GoBackNSender<CC> {
    open spec fn info(&self) -> FlowInfo {
        self.flow_info
    }

    open spec fn which_side(&self) -> FlowSide {
        FlowSide::Sender
    }

    open spec fn completed(&self) -> Option<Nanos> {
        self.completion_time
    }

    open spec fn wf(&self) -> bool {
        self.flow_info.valid()
    }

    open spec fn accepts(&self, time: Nanos, pkt: Packet) -> bool {
        self.takes(time, pkt)
    }

    /// Every ACK or NACK restarts the retransmit timer.
    open spec fn received(&self, time: Nanos, pkt: Packet) -> FlowStep<Self> {
        (GoBackNSender { retx_timeout: time, ..*self }).after_ack(pkt, time)
    }

    /// The first poll starts the flow's clock. A completed flow sends
    /// nothing. A flow that has waited too long for an ACK or NACK goes back
    /// to its last acknowledged byte; any other sends what its window allows.
    open spec fn polled(&self, time: Nanos) -> FlowStep<Self> {
        let started = GoBackNSender {
            start_time: if self.start_time is None {
                Some(time)
            } else {
                self.start_time
            },
            ..*self
        };
        if self.completion_time is Some {
            started.idle()
        } else if !self.timed_out(time) {
            started.sending_from(self.next_to_send, false)
        } else {
            (GoBackNSender { retx_timeout: time, ..started }).sending_from(
                self.cumulative_acked,
                true,
            )
        }
    }

    fn flow_info(&self) -> (fi: FlowInfo) {
        self.flow_info
    }

    fn side(&self) -> (s: FlowSide) {
        FlowSide::Sender
    }

    fn completion_time(&self) -> (t: Option<Nanos>) {
        self.completion_time
    }

    fn can_receive(&self, time: Nanos, pkt: Packet) -> (ok: bool) {
        let fi: FlowInfo = self.flow_info;
        match pkt {
            Packet::Ack { hdr, cumulative_acked_seq } => {
                let mine: bool = hdr.flow == fi.flow_id && hdr.from == fi.dest_id && hdr.to
                    == fi.sender_id;
                let last: bool = cumulative_acked_seq > self.cumulative_acked
                    && cumulative_acked_seq == fi.length_bytes;
                let timed: bool = match self.start_time {
                    Some(s) => s <= time,
                    None => false,
                };
                mine && (!last || timed)
            },
            Packet::Nack { hdr, .. } => hdr.flow == fi.flow_id && hdr.from == fi.dest_id && hdr.to
                == fi.sender_id,
            _ => false,
        }
    }

    fn receive(&mut self, time: Nanos, pkt: Packet, trace: &mut Vec<TraceRecord>) -> (r: Result<
        (Vec<Packet>, bool),
        SimError,
    >) {
        self.retx_timeout = time;
        proof {
            let answer = self.after_ack(pkt, time);
            match pkt {
                Packet::Nack { nacked_seq, .. } => {
                    lemma_burst_valid(self.flow_info, answer.next.send_limit(), nacked_seq as int);
                },
                _ => {
                    lemma_burst_valid(
                        self.flow_info,
                        answer.next.send_limit(),
                        self.next_to_send as int,
                    );
                },
            }
        }
        self.got_ack(pkt, time, trace)
    }

    fn exec(&mut self, time: Nanos, trace: &mut Vec<TraceRecord>) -> (r: Result<
        (Vec<Packet>, bool),
        SimError,
    >) {
        let ghost trace0 = trace@;
        proof {
            assert(trace@ =~= trace0 + Seq::<TraceRecord>::empty());
            lemma_burst_valid(self.flow_info, self.send_limit(), self.next_to_send as int);
            lemma_burst_valid(self.flow_info, self.send_limit(), self.cumulative_acked as int);
        }
        let late: bool = self.check_timeout(time);
        if let None = self.start_time {
            self.start_time = Some(time);
        }
        if self.completion_time.is_some() {
            Ok((Vec::new(), false))
        } else if !late {
            match self.maybe_send_more() {
                Ok(pkts) => Ok((pkts, false)),
                Err(e) => Err(e),
            }
        } else {
            let cum_ack: u32 = self.cumulative_acked;
            self.retx_timeout = time;
            match self.go_back_n(cum_ack) {
                Ok(pkts) => Ok((pkts, true)),
                Err(e) => Err(e),
            }
        }
    }
}

/// The receiving end of a flow.
#[derive(Clone, Copy, Debug)]
pub struct GoBackNReceiver {
    pub flow_info: FlowInfo,
    /// The next byte expected: every byte before it has arrived in order.
    pub cumulative_received: u32,
    pub start_time: Option<Nanos>,
    pub completion_time: Option<Nanos>,
    /// Whether a NACK has gone out since the last packet that arrived in
    /// order.
    pub nack_inflight: bool,
}

impl GoBackNReceiver {
    /// A receiver that has seen nothing.
    pub open spec fn fresh(fi: FlowInfo) -> Self {
        GoBackNReceiver {
            flow_info: fi,
            cumulative_received: 0,
            start_time: None,
            completion_time: None,
            nack_inflight: false,
        }
    }

    /// When the flow started, for a packet that arrives at `time`.
    pub open spec fn started_by(self, time: Nanos) -> Nanos {
        match self.start_time {
            Some(s) => s,
            None => time,
        }
    }

    /// The receiver takes the data packets of its own flow. One that arrives
    /// in order must not carry the count of bytes beyond 32 bits, and the
    /// last one must not arrive before the flow started.
    pub open spec fn takes(self, time: Nanos, pkt: Packet) -> bool {
        match pkt {
            Packet::Data { hdr, seq, length } => {
                &&& hdr == data_header(self.flow_info)
                &&& seq == self.cumulative_received ==> {
                    &&& self.cumulative_received + length <= u32::MAX
                    &&& self.cumulative_received + length == self.flow_info.length_bytes
                        ==> self.started_by(time) <= time
                }
            },
            _ => false,
        }
    }

    /// Data that arrives in order moves the expected byte on and is answered
    /// with a cumulative ACK; the last byte completes the flow. Data out of
    /// order is answered with one NACK for the expected byte, and not again
    /// until data has arrived in order.
    pub open spec fn after_data(self, data: Packet, time: Nanos) -> FlowStep<Self> {
        let start = self.started_by(time);
        let started = GoBackNReceiver { start_time: Some(start), ..self };
        match data {
            Packet::Data { hdr, seq, length } => {
                if seq == self.cumulative_received {
                    let upto = (self.cumulative_received + length) as u32;
                    let moved = GoBackNReceiver {
                        cumulative_received: upto,
                        nack_inflight: false,
                        ..started
                    };
                    let reply = seq![Packet::Ack { hdr: hdr.reversed(), cumulative_acked_seq: upto }];
                    if upto == self.flow_info.length_bytes {
                        let took = (time - start) as u64;
                        FlowStep {
                            next: GoBackNReceiver { completion_time: Some(took), ..moved },
                            packets: reply,
                            clear: false,
                            trace: seq![
                                TraceRecord::FlowCompleted {
                                    flow: self.flow_info.flow_id,
                                    node: self.flow_info.dest_id,
                                    side: FlowSide::Receiver,
                                    completion_time: took,
                                    start_time: start,
                                    end_time: time,
                                },
                            ],
                        }
                    } else {
                        FlowStep { next: moved, packets: reply, clear: false, trace: Seq::empty() }
                    }
                } else if !self.nack_inflight {
                    FlowStep {
                        next: GoBackNReceiver { nack_inflight: true, ..started },
                        packets: seq![
                            Packet::Nack {
                                hdr: hdr.reversed(),
                                nacked_seq: self.cumulative_received,
                            },
                        ],
                        clear: false,
                        trace: Seq::empty(),
                    }
                } else {
                    FlowStep {
                        next: started,
                        packets: Seq::empty(),
                        clear: false,
                        trace: Seq::empty(),
                    }
                }
            },
            _ => FlowStep { next: self, packets: Seq::empty(), clear: false, trace: Seq::empty() },
        }
    }

    /// Takes a data packet of this flow.
    pub fn got_data(&mut self, data: Packet, time: Nanos, trace: &mut Vec<TraceRecord>) -> (r: Result<
        Vec<Packet>,
        SimError,
    >)
        requires
            old(self).takes(time, data),
        ensures
            *final(self) == old(self).after_data(data, time).next,
            r matches Ok(pkts) && pkts@ == old(self).after_data(data, time).packets,
            final(trace)@ == old(trace)@ + old(self).after_data(data, time).trace,
    {
        let ghost trace0 = trace@;
        proof {
            assert(trace@ =~= trace0 + Seq::<TraceRecord>::empty());
        }
        if let None = self.start_time {
            self.start_time = Some(time);
        }
        let mut reply: Vec<Packet> = Vec::new();
        match data {
            Packet::Data { hdr, seq, length } => {
                let back: PacketHeader = PacketHeader { flow: hdr.flow, from: hdr.to, to: hdr.from };
                if seq == self.cumulative_received {
                    self.cumulative_received += length;
                    self.nack_inflight = false;
                    if self.cumulative_received == self.flow_info.length_bytes {
                        let start: Nanos = match self.start_time {
                            Some(s) => s,
                            None => time,
                        };
                        let took: Nanos = time - start;
                        self.completion_time = Some(took);
                        trace.push(
                            TraceRecord::FlowCompleted {
                                flow: self.flow_info.flow_id,
                                node: self.flow_info.dest_id,
                                side: FlowSide::Receiver,
                                completion_time: took,
                                start_time: start,
                                end_time: time,
                            },
                        );
                    }
                    reply.push(
                        Packet::Ack { hdr: back, cumulative_acked_seq: self.cumulative_received },
                    );
                } else if !self.nack_inflight {
                    self.nack_inflight = true;
                    reply.push(Packet::Nack { hdr: back, nacked_seq: self.cumulative_received });
                }
            },
            _ => {},
        }
        Ok(reply)
    }
}

impl Flow for GoBackNReceiver {
    open spec fn info(&self) -> FlowInfo {
        self.flow_info
    }

    open spec fn which_side(&self) -> FlowSide {
        FlowSide::Receiver
    }

    open spec fn completed(&self) -> Option<Nanos> {
        self.completion_time
    }

    open spec fn wf(&self) -> bool {
        self.flow_info.valid()
    }

    open spec fn accepts(&self, time: Nanos, pkt: Packet) -> bool {
        self.takes(time, pkt)
    }

    open spec fn received(&self, time: Nanos, pkt: Packet) -> FlowStep<Self> {
        self.after_data(pkt, time)
    }

    /// A receiver sends nothing of its own accord.
    open spec fn polled(&self, time: Nanos) -> FlowStep<Self> {
        FlowStep { next: *self, packets: Seq::empty(), clear: false, trace: Seq::empty() }
    }

    fn flow_info(&self) -> (fi: FlowInfo) {
        self.flow_info
    }

    fn side(&self) -> (s: FlowSide) {
        FlowSide::Receiver
    }

    fn completion_time(&self) -> (t: Option<Nanos>) {
        self.completion_time
    }

    fn can_receive(&self, time: Nanos, pkt: Packet) -> (ok: bool) {
        let fi: FlowInfo = self.flow_info;
        match pkt {
            Packet::Data { hdr, seq, length } => {
                let mine: bool = hdr.flow == fi.flow_id && hdr.from == fi.sender_id && hdr.to
                    == fi.dest_id;
                if !mine {
                    false
                } else if seq != self.cumulative_received {
                    true
                } else if length > 0xffff_ffff - self.cumulative_received {
                    false
                } else if self.cumulative_received + length == fi.length_bytes {
                    match self.start_time {
                        Some(s) => s <= time,
                        None => true,
                    }
                } else {
                    true
                }
            },
            _ => false,
        }
    }

    fn receive(&mut self, time: Nanos, pkt: Packet, trace: &mut Vec<TraceRecord>) -> (r: Result<
        (Vec<Packet>, bool),
        SimError,
    >) {
        match self.got_data(pkt, time, trace) {
            Ok(pkts) => Ok((pkts, false)),
            Err(e) => Err(e),
        }
    }

    fn exec(&mut self, _time: Nanos, trace: &mut Vec<TraceRecord>) -> (r: Result<
        (Vec<Packet>, bool),
        SimError,
    >) {
        proof {
            assert(trace@ =~= trace@ + Seq::<TraceRecord>::empty());
        }
        Ok((Vec::new(), false))
    }
}

/// Either end of a go-back-N flow: what a host keeps for each flow that
/// starts or ends at it.
#[derive(Debug)]
pub enum GoBackN<CC: CongAlg> {
    Sender(GoBackNSender<CC>),
    Receiver(GoBackNReceiver),
}

impl<CC: CongAlg> GoBackN<CC> {
    /// A step of the sending end, as a step of either end.
    pub open spec fn of_sender(step: FlowStep<GoBackNSender<CC>>) -> FlowStep<Self> {
        FlowStep {
            next: GoBackN::Sender(step.next),
            packets: step.packets,
            clear: step.clear,
            trace: step.trace,
        }
    }

    /// A step of the receiving end, as a step of either end.
    pub open spec fn of_receiver(step: FlowStep<GoBackNReceiver>) -> FlowStep<Self> {
        FlowStep {
            next: GoBackN::Receiver(step.next),
            packets: step.packets,
            clear: step.clear,
            trace: step.trace,
        }
    }
}

impl<CC: CongAlg> Flow for GoBackN<CC> {
    open spec fn info(&self) -> FlowInfo {
        match *self {
            GoBackN::Sender(f) => f.flow_info,
            GoBackN::Receiver(f) => f.flow_info,
        }
    }

    open spec fn which_side(&self) -> FlowSide {
        match *self {
            GoBackN::Sender(_) => FlowSide::Sender,
            GoBackN::Receiver(_) => FlowSide::Receiver,
        }
    }

    open spec fn completed(&self) -> Option<Nanos> {
        match *self {
            GoBackN::Sender(f) => f.completion_time,
            GoBackN::Receiver(f) => f.completion_time,
        }
    }

    open spec fn wf(&self) -> bool {
        self.info().valid()
    }

    open spec fn accepts(&self, time: Nanos, pkt: Packet) -> bool {
        match *self {
            GoBackN::Sender(f) => f.takes(time, pkt),
            GoBackN::Receiver(f) => f.takes(time, pkt),
        }
    }

    open spec fn received(&self, time: Nanos, pkt: Packet) -> FlowStep<Self> {
        match *self {
            GoBackN::Sender(f) => Self::of_sender(f.received(time, pkt)),
            GoBackN::Receiver(f) => Self::of_receiver(f.received(time, pkt)),
        }
    }

    open spec fn polled(&self, time: Nanos) -> FlowStep<Self> {
        match *self {
            GoBackN::Sender(f) => Self::of_sender(f.polled(time)),
            GoBackN::Receiver(f) => Self::of_receiver(f.polled(time)),
        }
    }

    fn flow_info(&self) -> (fi: FlowInfo) {
        match self {
            GoBackN::Sender(f) => f.flow_info(),
            GoBackN::Receiver(f) => f.flow_info(),
        }
    }

    fn side(&self) -> (s: FlowSide) {
        match self {
            GoBackN::Sender(f) => f.side(),
            GoBackN::Receiver(f) => f.side(),
        }
    }

    fn completion_time(&self) -> (t: Option<Nanos>) {
        match self {
            GoBackN::Sender(f) => f.completion_time(),
            GoBackN::Receiver(f) => f.completion_time(),
        }
    }

    fn can_receive(&self, time: Nanos, pkt: Packet) -> (ok: bool) {
        match self {
            GoBackN::Sender(f) => f.can_receive(time, pkt),
            GoBackN::Receiver(f) => f.can_receive(time, pkt),
        }
    }

    fn receive(&mut self, time: Nanos, pkt: Packet, trace: &mut Vec<TraceRecord>) -> (r: Result<
        (Vec<Packet>, bool),
        SimError,
    >) {
        match self {
            GoBackN::Sender(f) => f.receive(time, pkt, trace),
            GoBackN::Receiver(f) => f.receive(time, pkt, trace),
        }
    }

    fn exec(&mut self, time: Nanos, trace: &mut Vec<TraceRecord>) -> (r: Result<
        (Vec<Packet>, bool),
        SimError,
    >) {
        match self {
            GoBackN::Sender(f) => f.exec(time, trace),
            GoBackN::Receiver(f) => f.exec(time, trace),
        }
    }
}

impl<CC: CongAlg> GoBackNSender<CC> {
    /// What is acknowledged has been sent, and nothing is sent beyond the
    /// flow.
    pub open spec fn in_order(self) -> bool {
        self.cumulative_acked <= self.next_to_send <= self.flow_info.length_bytes
    }

    /// Whether `pkt` acknowledges no byte that is still to be sent, or names
    /// a byte between the last one acknowledged and the end of the flow.
    pub open spec fn plausible(self, pkt: Packet) -> bool {
        match pkt {
            Packet::Ack { cumulative_acked_seq, .. } => cumulative_acked_seq <= self.next_to_send,
            Packet::Nack { nacked_seq, .. } => self.cumulative_acked <= nacked_seq
                <= self.flow_info.length_bytes,
            _ => false,
        }
    }
}

/// Byte conservation at the sender: the step that completes the flow is the
/// one that acknowledges its last byte, and the time recorded is the time
/// since the flow started.
pub proof fn lemma_sender_completes_on_last_byte<CC: CongAlg>(
    s: GoBackNSender<CC>,
    time: Nanos,
    pkt: Packet,
)
    requires
        s.takes(time, pkt),
    ensures
        ({
            let next = s.received(time, pkt).next;
            next.completion_time != s.completion_time ==> {
                &&& next.cumulative_acked == s.flow_info.length_bytes
                &&& s.start_time is Some
                &&& next.completion_time == Some((time - s.start_time->0) as u64)
            }
        }),
        s.polled(time).next.completion_time == s.completion_time,
        s.polled(time).next.cumulative_acked == s.cumulative_acked,
{
}

/// Once a sender whose bytes are in order has completed, its completion time
/// stands: no packet that is plausible changes it, and the flow stays
/// acknowledged to its last byte.
pub proof fn lemma_sender_completes_once<CC: CongAlg>(
    s: GoBackNSender<CC>,
    time: Nanos,
    pkt: Packet,
)
    requires
        s.in_order(),
        s.plausible(pkt),
        s.completion_time is Some,
        s.cumulative_acked == s.flow_info.length_bytes,
    ensures
        s.received(time, pkt).next.completion_time == s.completion_time,
        s.received(time, pkt).next.cumulative_acked == s.flow_info.length_bytes,
{
}

/// The sender's bytes stay in order: what is acknowledged has been sent, and
/// nothing is sent beyond the flow, as long as the packets that come in are
/// plausible.
pub proof fn lemma_sender_stays_in_order<CC: CongAlg>(
    s: GoBackNSender<CC>,
    time: Nanos,
    pkt: Packet,
)
    requires
        s.in_order(),
        s.plausible(pkt),
    ensures
        s.received(time, pkt).next.in_order(),
        s.polled(time).next.in_order(),
        GoBackNSender::<CC>::fresh(s.flow_info).in_order(),
{
    let armed = GoBackNSender { retx_timeout: time, ..s };
    match pkt {
        Packet::Ack { cumulative_acked_seq, .. } => {
            if cumulative_acked_seq > s.cumulative_acked {
                let moved = armed.after_ack(pkt, time).next;
                if cumulative_acked_seq != s.flow_info.length_bytes {
                    let fed = GoBackNSender {
                        cong_control: s.cong_control.after_packet(
                            (cumulative_acked_seq - s.cumulative_acked) as u32,
                            0,
                        ),
                        cumulative_acked: cumulative_acked_seq,
                        ..armed
                    };
                    lemma_burst_end_bounds(s.flow_info, fed.send_limit(), s.next_to_send as int);
                }
            }
        },
        Packet::Nack { nacked_seq, .. } => {
            let slowed = GoBackNSender {
                cong_control: s.cong_control.after_reduction(ReductionType::Drop),
                ..armed
            };
            lemma_burst_end_bounds(s.flow_info, slowed.send_limit(), nacked_seq as int);
        },
        _ => {},
    }
    lemma_burst_end_bounds(s.flow_info, s.send_limit(), s.next_to_send as int);
    lemma_burst_end_bounds(s.flow_info, s.send_limit(), s.cumulative_acked as int);
}

impl GoBackNReceiver {
    /// Nothing is counted as received beyond the flow.
    pub open spec fn in_order(self) -> bool {
        self.cumulative_received <= self.flow_info.length_bytes
    }

    /// Whether `pkt` is data that, if it arrives in order, stays within the
    /// flow.
    pub open spec fn plausible(self, pkt: Packet) -> bool {
        pkt matches Packet::Data { seq, length, .. } && (seq == self.cumulative_received ==> seq
            + length <= self.flow_info.length_bytes)
    }

    /// The receiver after a run of arrivals, each a time and a packet.
    pub open spec fn after_arrivals(self, arrivals: Seq<(Nanos, Packet)>) -> Self
        decreases arrivals.len(),
    {
        if arrivals.len() == 0 {
            self
        } else {
            self.after_arrivals(arrivals.drop_last()).after_data(
                arrivals.last().1,
                arrivals.last().0,
            ).next
        }
    }

    /// How many NACKs the receiver has sent over a run of arrivals since data
    /// last arrived in order.
    pub open spec fn nacks_unanswered(self, arrivals: Seq<(Nanos, Packet)>) -> int
        decreases arrivals.len(),
    {
        if arrivals.len() == 0 {
            0
        } else {
            let before = self.after_arrivals(arrivals.drop_last());
            let (time, pkt) = arrivals.last();
            if pkt matches Packet::Data { seq, .. } && seq == before.cumulative_received {
                0
            } else {
                self.nacks_unanswered(arrivals.drop_last()) + nacks_in(
                    before.after_data(pkt, time).packets,
                )
            }
        }
    }
}

/// How many of `pkts` are NACKs.
pub open spec fn nacks_in(pkts: Seq<Packet>) -> int {
    pkts.filter(|p: Packet| p is Nack).len() as int
}

/// Byte conservation at the receiver: the step that completes the flow is the
/// one in which the last byte arrives in order.
pub proof fn lemma_receiver_completes_on_last_byte(r: GoBackNReceiver, time: Nanos, pkt: Packet)
    requires
        r.takes(time, pkt),
    ensures
        ({
            let next = r.received(time, pkt).next;
            next.completion_time != r.completion_time ==> {
                &&& next.cumulative_received == r.flow_info.length_bytes
                &&& next.completion_time == Some((time - r.started_by(time)) as u64)
            }
        }),
        r.polled(time).next == r,
{
}

/// The receiver's count stays within the flow as long as the data that
/// arrives in order does. Once the flow has completed, its completion time
/// stands against every such packet that carries at least one byte.
pub proof fn lemma_receiver_stays_in_order(r: GoBackNReceiver, time: Nanos, pkt: Packet)
    requires
        r.in_order(),
        r.plausible(pkt),
    ensures
        r.received(time, pkt).next.in_order(),
        r.completion_time is Some && r.cumulative_received == r.flow_info.length_bytes
            && pkt->Data_length > 0 ==> {
            &&& r.received(time, pkt).next.completion_time == r.completion_time
            &&& r.received(time, pkt).next.cumulative_received == r.flow_info.length_bytes
        },
{
}

/// At most one NACK in flight: a receiver answers a packet with at most one
/// packet, and sends a NACK only when none is outstanding.
pub proof fn lemma_receiver_nacks_once(r: GoBackNReceiver, time: Nanos, pkt: Packet)
    ensures
        r.after_data(pkt, time).packets.len() <= 1,
        nacks_in(r.after_data(pkt, time).packets) <= 1,
        nacks_in(r.after_data(pkt, time).packets) == 1 ==> !r.nack_inflight && r.after_data(
            pkt,
            time,
        ).next.nack_inflight,
        r.nack_inflight ==> nacks_in(r.after_data(pkt, time).packets) == 0,
{
    let pkts = r.after_data(pkt, time).packets;
    let is_nack = |p: Packet| p is Nack;
    if pkts.len() == 0 {
        assert(pkts.filter(is_nack) =~= Seq::<Packet>::empty());
    } else {
        assert(pkts =~= Seq::<Packet>::empty().push(pkts[0]));
        Seq::<Packet>::empty().lemma_filter_push(pkts[0], is_nack);
        assert(Seq::<Packet>::empty().filter(is_nack) =~= Seq::<Packet>::empty());
    }
}

/// At most one NACK in flight, over any run of arrivals: a receiver that
/// starts with no NACK outstanding has sent at most one NACK since data last
/// arrived in order, and exactly one if its flag says so.
pub proof fn lemma_at_most_one_nack_in_flight(r: GoBackNReceiver, arrivals: Seq<(Nanos, Packet)>)
    requires
        !r.nack_inflight,
        forall|i: int| 0 <= i < arrivals.len() ==> (#[trigger] arrivals[i]).1 is Data,
    ensures
        r.nacks_unanswered(arrivals) <= 1,
        r.nacks_unanswered(arrivals) == if r.after_arrivals(arrivals).nack_inflight {
            1int
        } else {
            0int
        },
    decreases arrivals.len(),
{
    if arrivals.len() > 0 {
        let head = arrivals.drop_last();
        assert forall|i: int| 0 <= i < head.len() implies (#[trigger] head[i]).1 is Data by {
            assert(head[i] == arrivals[i]);
        }
        lemma_at_most_one_nack_in_flight(r, head);
        let before = r.after_arrivals(head);
        let (time, pkt) = arrivals.last();
        lemma_receiver_nacks_once(before, time, pkt);
        let pkts = before.after_data(pkt, time).packets;
        let is_nack = |p: Packet| p is Nack;
        if pkts.len() > 0 {
            assert(pkts =~= Seq::<Packet>::empty().push(pkts[0]));
            Seq::<Packet>::empty().lemma_filter_push(pkts[0], is_nack);
            assert(Seq::<Packet>::empty().filter(is_nack) =~= Seq::<Packet>::empty());
        } else {
            assert(pkts.filter(is_nack) =~= Seq::<Packet>::empty());
        }
    }
}

} // verus!
