//! Nodes and the links between them.

use vstd::prelude::*;
use std::collections::VecDeque;
use crate::Nanos;
use crate::congcontrol::CongAlg;
use crate::error::SimError;
use crate::event::{Event, EventTime};
use crate::flow::{Flow, all_packets_valid};
use crate::flow::go_back_n::GoBackN;
use crate::packet::Packet;
use crate::trace::TraceRecord;

pub mod switch;

verus! {

/// Bytes of one maximum transmission unit.
pub const MTU_BYTES: u32 = 1500;

/// Nanoseconds in a second times bits in a byte: divides `delay * bandwidth`
/// down to bytes in flight.
pub const BIT_NANOS_PER_BYTE_SECOND: u64 = 8_000_000_000;

/// A link carries packets one way, from `from` to `to`. Two nodes that talk to
/// each other are joined by two links.
#[derive(Clone, Copy, Debug, PartialEq, Eq, Structural)]
pub struct Link {
    pub propagation_delay: Nanos,
    pub bandwidth_bps: u64,
    pub pfc_enabled: bool,
    pub from: u32,
    pub to: u32,
}

impl Link {
    /// Bytes in flight on the link: the bandwidth-delay product.
    pub open spec fn bdp_bytes(self) -> int {
        self.propagation_delay * self.bandwidth_bps / (BIT_NANOS_PER_BYTE_SECOND as int)
    }

    /// Headroom at or below which the far end must be paused. This is what can
    /// still arrive before a PAUSE takes effect: the bytes in flight, one MTU
    /// that delays the PAUSE itself, and one MTU that the sender had just begun.
    /// Zero where PFC is off.
    pub open spec fn pause_threshold(self) -> int {
        if self.pfc_enabled {
            self.bdp_bytes() + 2 * MTU_BYTES
        } else {
            0
        }
    }

    /// Headroom above which the far end is released again: two MTUs more than
    /// the pause threshold.
    pub open spec fn resume_threshold(self) -> int {
        self.pause_threshold() + 2 * MTU_BYTES
    }

    /// Whether the pause threshold can be computed: with PFC on, the product
    /// of delay and bandwidth fits in 64 bits and the threshold in 32.
    pub open spec fn pause_fits(self) -> bool {
        self.pfc_enabled ==> {
            &&& self.propagation_delay * self.bandwidth_bps <= u64::MAX
            &&& self.pause_threshold() <= u32::MAX
        }
    }

    /// Whether the resume threshold can be computed: with PFC on, the
    /// product of delay and bandwidth fits in 64 bits and the threshold in
    /// 32.
    pub open spec fn resume_fits(self) -> bool {
        self.pfc_enabled ==> {
            &&& self.propagation_delay * self.bandwidth_bps <= u64::MAX
            &&& self.resume_threshold() <= u32::MAX
        }
    }

    /// A link can carry traffic when it has bandwidth and its thresholds can
    /// be computed.
    pub open spec fn valid(self) -> bool {
        self.bandwidth_bps > 0 && self.resume_fits()
    }

    pub fn pfc_pause_threshold(&self) -> (bytes: u32)
        requires
            self.pause_fits(),
        ensures
            bytes == self.pause_threshold(),
    {
        if !self.pfc_enabled {
            0
        } else {
            let bdp: u64 = self.propagation_delay * self.bandwidth_bps / BIT_NANOS_PER_BYTE_SECOND;
            bdp as u32 + MTU_BYTES + MTU_BYTES
        }
    }

    pub fn pfc_resume_threshold(&self) -> (bytes: u32)
        requires
            self.resume_fits(),
        ensures
            bytes == self.resume_threshold(),
    {
        self.pfc_pause_threshold() + 2 * MTU_BYTES
    }

    /// Whether the link is valid, decided at run time.
    pub fn is_valid(&self) -> (ok: bool)
        ensures
            ok == self.valid(),
    {
        if self.bandwidth_bps == 0 {
            return false;
        }
        if !self.pfc_enabled {
            return true;
        }
        match self.propagation_delay.checked_mul(self.bandwidth_bps) {
            None => false,
            Some(product) => product / BIT_NANOS_PER_BYTE_SECOND <= 0xffff_ffff - 6000,
        }
    }
}

/// A packet is on the wire: it reaches the far end after the propagation
/// delay.
#[derive(Clone, Copy, Debug, PartialEq, Eq, Structural)]
pub struct LinkTransmitEvent(pub Link, pub Packet);

impl LinkTransmitEvent {
    pub fn time(&self) -> (t: EventTime)
        ensures
            t == EventTime::Delta(self.0.propagation_delay),
    {
        EventTime::Delta(self.0.propagation_delay)
    }

    /// The node at the far end.
    pub fn affected_node_ids(&self) -> (ids: Vec<u32>)
        ensures
            ids@ == seq![self.0.to],
    {
        let mut ids: Vec<u32> = Vec::new();
        ids.push(self.0.to);
        ids
    }
}

/// A node is serialising a packet onto its link: the link is busy for as long
/// as the bits take at the link's bandwidth.
#[derive(Clone, Copy, Debug, PartialEq, Eq, Structural)]
pub struct NodeTransmitEvent(pub Link, pub Packet);

impl NodeTransmitEvent {
    /// The link has bandwidth and the packet can be serialised.
    pub open spec fn valid(self) -> bool {
        self.0.bandwidth_bps > 0 && self.1.valid()
    }

    /// Nanoseconds that the packet's bits take on the link.
    pub open spec fn delay(self) -> int {
        self.1.wire_size() * (BIT_NANOS_PER_BYTE_SECOND as int) / (self.0.bandwidth_bps as int)
    }

    pub fn time(&self) -> (t: EventTime)
        requires
            self.valid(),
        ensures
            t == EventTime::Delta(self.delay() as u64),
            self.delay() <= u64::MAX,
    {
        let size: u32 = self.1.get_size_bytes();
        assert(size * 8_000_000_000 <= u64::MAX) by (nonlinear_arith)
            requires
                size <= 2_305_843_009u32,
        ;
        let bits_nanos: u64 = size as u64 * BIT_NANOS_PER_BYTE_SECOND;
        let transmission_delay: u64 = bits_nanos / self.0.bandwidth_bps;
        EventTime::Delta(transmission_delay)
    }

    /// The node that is sending.
    pub fn affected_node_ids(&self) -> (ids: Vec<u32>)
        ensures
            ids@ == seq![self.0.from],
    {
        let mut ids: Vec<u32> = Vec::new();
        ids.push(self.0.from);
        ids
    }
}

/// The packets that survive when a host forgets the data of `flow` that it
/// has not sent yet: everything but that flow's data packets.
pub open spec fn keeps_other(flow: u32) -> spec_fn(Packet) -> bool {
    |p: Packet| !p.is_data_of(flow)
}

/// What is left of `pkts` once the data of each of `flows` has been
/// forgotten, one flow after the other.
pub open spec fn evicted(pkts: Seq<Packet>, flows: Seq<u32>) -> Seq<Packet>
    decreases flows.len(),
{
    if flows.len() == 0 {
        pkts
    } else {
        evicted(pkts, flows.drop_last()).filter(keeps_other(flows.last()))
    }
}

/// What a filter keeps is what was there and passes.
pub proof fn lemma_filter_members(pkts: Seq<Packet>, keep: spec_fn(Packet) -> bool, p: Packet)
    ensures
        pkts.filter(keep).contains(p) <==> pkts.contains(p) && keep(p),
{
    let kept = pkts.filter(keep);
    if kept.contains(p) {
        pkts.lemma_filter_contains_rev(keep, p);
        let i = choose|i: int| 0 <= i < kept.len() && kept[i] == p;
        pkts.lemma_filter_pred(keep, i);
    }
    if pkts.contains(p) && keep(p) {
        let j = choose|j: int| 0 <= j < pkts.len() && pkts[j] == p;
        pkts.lemma_filter_contains(keep, j);
    }
}

/// A packet outlives the forgetting exactly if it is no data packet of any
/// of the flows.
pub proof fn lemma_evicted_members(pkts: Seq<Packet>, flows: Seq<u32>, p: Packet)
    ensures
        evicted(pkts, flows).contains(p) <==> pkts.contains(p) && forall|k: int|
            0 <= k < flows.len() ==> !p.is_data_of(#[trigger] flows[k]),
    decreases flows.len(),
{
    if flows.len() > 0 {
        let before = evicted(pkts, flows.drop_last());
        lemma_evicted_members(pkts, flows.drop_last(), p);
        lemma_filter_members(before, keeps_other(flows.last()), p);
        if evicted(pkts, flows).contains(p) {
            assert forall|k: int| 0 <= k < flows.len() implies !p.is_data_of(
                #[trigger] flows[k],
            ) by {
                if k < flows.len() - 1 {
                    assert(flows.drop_last()[k] == flows[k]);
                }
            }
        }
        if pkts.contains(p) && forall|k: int|
            0 <= k < flows.len() ==> !p.is_data_of(#[trigger] flows[k]) {
            assert forall|k: int| 0 <= k < flows.drop_last().len() implies !p.is_data_of(
                #[trigger] flows.drop_last()[k],
            ) by {
                assert(flows.drop_last()[k] == flows[k]);
            }
            assert(!p.is_data_of(flows[flows.len() - 1]));
        }
    }
}

/// A filter keeps valid packets valid.
pub proof fn lemma_filter_valid(pkts: Seq<Packet>, keep: spec_fn(Packet) -> bool)
    requires
        all_packets_valid(pkts),
    ensures
        all_packets_valid(pkts.filter(keep)),
{
    let kept = pkts.filter(keep);
    assert forall|i: int| 0 <= i < kept.len() implies (#[trigger] kept[i]).valid() by {
        assert(kept.contains(kept[i]));
        lemma_filter_members(pkts, keep, kept[i]);
        let j = choose|j: int| 0 <= j < pkts.len() && pkts[j] == kept[i];
        assert(pkts[j].valid());
    }
}

/// Forgets the data packets of `flow` that wait in `pkts`.
pub fn evict_data_of(pkts: &mut VecDeque<Packet>, flow: u32)
    ensures
        final(pkts)@ == old(pkts)@.filter(keeps_other(flow)),
{
    let mut kept: VecDeque<Packet> = VecDeque::new();
    let mut i: usize = 0;
    proof {
        assert(pkts@.take(0) =~= Seq::<Packet>::empty());
        assert(Seq::<Packet>::empty().filter(keeps_other(flow)) =~= Seq::<Packet>::empty());
    }
    while i < pkts.len()
        invariant
            i <= pkts@.len(),
            kept@ == pkts@.take(i as int).filter(keeps_other(flow)),
        decreases pkts@.len() - i,
    {
        let p: Packet = pkts[i];
        proof {
            assert(pkts@.take(i + 1) =~= pkts@.take(i as int).push(p));
            pkts@.take(i as int).lemma_filter_push(p, keeps_other(flow));
        }
        let stays: bool = match p {
            Packet::Data { hdr, .. } => hdr.flow != flow,
            _ => true,
        };
        if stays {
            kept.push_back(p);
        }
        i = i + 1;
    }
    proof {
        assert(pkts@.take(i as int) =~= pkts@);
    }
    *pkts = kept;
}

/// Appends `more` to the packets that wait in `pkts`.
pub fn append_packets(pkts: &mut VecDeque<Packet>, more: &Vec<Packet>)
    ensures
        final(pkts)@ == old(pkts)@ + more@,
{
    let mut i: usize = 0;
    proof {
        assert(pkts@ =~= old(pkts)@ + more@.take(0));
    }
    while i < more.len()
        invariant
            i <= more@.len(),
            pkts@ == old(pkts)@ + more@.take(i as int),
        decreases more@.len() - i,
    {
        pkts.push_back(more[i]);
        proof {
            assert(more@.take(i + 1) =~= more@.take(i as int).push(more@[i as int]));
            assert(pkts@ =~= old(pkts)@ + more@.take(i + 1));
        }
        i = i + 1;
    }
    proof {
        assert(more@.take(i as int) =~= more@);
    }
}

/// A host sits at the edge of the network, behind one link to its switch. It
/// needs no queue of its own: it sends one packet at a time.
pub struct Host<CC: CongAlg> {
    pub id: u32,
    pub active: bool,
    pub paused: bool,
    pub link: Link,
    pub active_flows: Vec<GoBackN<CC>>,
    pub to_send: VecDeque<Packet>,
}

/// A host as a mathematical value.
pub struct HostState<CC: CongAlg> {
    pub id: u32,
    pub active: bool,
    pub paused: bool,
    pub link: Link,
    pub flows: Seq<GoBackN<CC>>,
    pub to_send: Seq<Packet>,
}

/// What one step of a host does: the host afterwards, the events it yields
/// or the error it stops with, and the records it adds to the trace.
pub struct HostStep<CC: CongAlg> {
    pub next: HostState<CC>,
    pub result: Result<Seq<Event>, SimError>,
    pub trace: Seq<TraceRecord>,
}

/// Flow `k` is the first of the host's flows with id `flow`.
pub open spec fn carries<CC: CongAlg>(flows: Seq<GoBackN<CC>>, flow: u32, k: int) -> bool {
    &&& 0 <= k < flows.len()
    &&& flows[k].info().flow_id == flow
    &&& forall|j: int| 0 <= j < k ==> (#[trigger] flows[j]).info().flow_id != flow
}

/// The first of the host's flows with id `flow`, if any.
pub open spec fn flow_index<CC: CongAlg>(flows: Seq<GoBackN<CC>>, flow: u32) -> Option<int> {
    if exists|k: int| carries(flows, flow, k) {
        Some(choose|k: int| carries(flows, flow, k))
    } else {
        None
    }
}

/// The flows after each has been polled at `time`.
pub open spec fn flows_polled<CC: CongAlg>(flows: Seq<GoBackN<CC>>, time: Nanos) -> Seq<
    GoBackN<CC>,
> {
    flows.map_values(|f: GoBackN<CC>| f.polled(time).next)
}

/// The packets that the flows send when polled at `time`, in flow order.
pub open spec fn poll_packets<CC: CongAlg>(flows: Seq<GoBackN<CC>>, time: Nanos) -> Seq<Packet>
    decreases flows.len(),
{
    if flows.len() == 0 {
        Seq::empty()
    } else {
        poll_packets(flows.drop_last(), time) + flows.last().polled(time).packets
    }
}

/// The records that the flows leave when polled at `time`, in flow order.
pub open spec fn poll_trace<CC: CongAlg>(flows: Seq<GoBackN<CC>>, time: Nanos) -> Seq<TraceRecord>
    decreases flows.len(),
{
    if flows.len() == 0 {
        Seq::empty()
    } else {
        poll_trace(flows.drop_last(), time) + flows.last().polled(time).trace
    }
}

/// The ids of the flows that, polled at `time`, want their unsent data
/// forgotten, in flow order.
pub open spec fn clearing_flows<CC: CongAlg>(flows: Seq<GoBackN<CC>>, time: Nanos) -> Seq<u32>
    decreases flows.len(),
{
    if flows.len() == 0 {
        Seq::empty()
    } else if flows.last().polled(time).clear {
        clearing_flows(flows.drop_last(), time).push(flows.last().info().flow_id)
    } else {
        clearing_flows(flows.drop_last(), time)
    }
}

impl<CC: CongAlg> HostState<CC> {
    /// The link has bandwidth, and every flow and every waiting packet is
    /// valid.
    pub open spec fn wf(self) -> bool {
        &&& self.link.bandwidth_bps > 0
        &&& forall|k: int| 0 <= k < self.flows.len() ==> (#[trigger] self.flows[k]).wf()
        &&& all_packets_valid(self.to_send)
    }

    pub open spec fn going_on(self, trace: Seq<TraceRecord>) -> HostStep<CC> {
        HostStep { next: self, result: Ok(Seq::empty()), trace }
    }

    /// A packet of a flow goes to the first flow with that id. If the host
    /// has none, or the flow cannot take the packet, the packet is discarded
    /// with a warning. Otherwise the flow's answer joins the packets that
    /// wait to be sent, after the flow's unsent data has been forgotten if
    /// the flow asks for that; and if nothing was waiting before, the host
    /// becomes active.
    pub open spec fn dispatch(self, p: Packet, flow: u32, time: Nanos, seen: Seq<TraceRecord>) -> HostStep<
        CC,
    > {
        match flow_index(self.flows, flow) {
            Some(k) if self.flows[k].accepts(time, p) => {
                let step = self.flows[k].received(time, p);
                let waiting = if step.clear {
                    self.to_send.filter(keeps_other(flow))
                } else {
                    self.to_send
                };
                (HostState {
                    flows: self.flows.update(k, step.next),
                    to_send: waiting + step.packets,
                    active: self.active || self.to_send.len() == 0,
                    ..self
                }).going_on(seen + step.trace)
            },
            _ => self.going_on(seen.push(TraceRecord::Isolated { packet: p })),
        }
    }

    /// A packet arrives at `time`. PAUSE stops the host, RESUME releases it;
    /// any other packet goes to its flow.
    pub open spec fn receive(self, p: Packet, time: Nanos) -> HostStep<CC> {
        let seen = seq![TraceRecord::Rx { time, node: self.id, packet: p }];
        match p {
            Packet::Data { hdr, .. } | Packet::Ack { hdr, .. } | Packet::Nack { hdr, .. } => self.dispatch(
                p,
                hdr.flow,
                time,
                seen,
            ),
            Packet::Pause(_) => (HostState { paused: true, ..self }).going_on(
                seen.push(TraceRecord::Pausing { node: self.id }),
            ),
            Packet::Resume(_) => (HostState { paused: false, ..self }).going_on(
                seen.push(TraceRecord::Resuming { node: self.id }),
            ),
        }
    }

    /// What waits to be sent once every flow has been polled at `time`: what
    /// waited before, less the data that flows want forgotten, and then what
    /// the flows send now.
    pub open spec fn lined_up(self, time: Nanos) -> Seq<Packet> {
        evicted(self.to_send, clearing_flows(self.flows, time)) + poll_packets(self.flows, time)
    }

    /// The host is polled at `time`. A paused host does nothing. Any other
    /// polls its flows, gives up its active flag, and starts sending the
    /// first packet that waits; with nothing to send it says so.
    pub open spec fn exec(self, time: Nanos) -> HostStep<CC> {
        if self.paused {
            self.going_on(Seq::empty())
        } else {
            let line = self.lined_up(time);
            let polled = HostState {
                flows: flows_polled(self.flows, time),
                active: false,
                to_send: line,
                ..self
            };
            if line.len() == 0 {
                HostStep {
                    next: polled,
                    result: Err(SimError::NoPendingPackets),
                    trace: poll_trace(self.flows, time),
                }
            } else {
                HostStep {
                    next: HostState { to_send: line.skip(1), ..polled },
                    result: Ok(seq![Event::NodeTransmit(NodeTransmitEvent(self.link, line[0]))]),
                    trace: poll_trace(self.flows, time).push(
                        TraceRecord::Tx { time, node: self.id, packet: line[0] },
                    ),
                }
            }
        }
    }

    /// The host's link has finished serialising: the host is active again.
    pub open spec fn reactivate(self, l: Link) -> (HostState<CC>, Result<(), SimError>) {
        if l == self.link {
            (HostState { active: true, ..self }, Ok(()))
        } else {
            (self, Err(SimError::ForeignLink(l.from)))
        }
    }

    /// A flow starts or ends here: the host keeps it and becomes active.
    pub open spec fn flow_arrival(self, f: GoBackN<CC>) -> HostState<CC> {
        HostState { flows: self.flows.push(f), active: true, ..self }
    }
}

impl<CC: CongAlg> View for Host<CC> {
    type V = HostState<CC>;

    open spec fn view(&self) -> HostState<CC> {
        HostState {
            id: self.id,
            active: self.active,
            paused: self.paused,
            link: self.link,
            flows: self.active_flows@,
            to_send: self.to_send@,
        }
    }
}

impl<CC: CongAlg> Host<CC> {
    /// A host with no flows and nothing to send. It starts out active.
    pub fn new(id: u32, link: Link) -> (h: Self)
        requires
            link.bandwidth_bps > 0,
        ensures
            h@ == (HostState::<CC> {
                id,
                active: true,
                paused: false,
                link,
                flows: Seq::empty(),
                to_send: Seq::empty(),
            }),
            h@.wf(),
    {
        Host {
            id,
            active: true,
            paused: false,
            link,
            active_flows: Vec::new(),
            to_send: VecDeque::new(),
        }
    }

    /// Lines `p` up to be sent.
    pub fn push_pkt(&mut self, p: Packet)
        requires
            old(self)@.wf(),
            p.valid(),
        ensures
            final(self)@ == (HostState { to_send: old(self)@.to_send.push(p), ..old(self)@ }),
            final(self)@.wf(),
    {
        self.to_send.push_back(p)
    }

    pub fn id(&self) -> (id: u32)
        ensures
            id == self@.id,
    {
        self.id
    }

    pub fn is_active(&self) -> (a: bool)
        ensures
            a == self@.active,
    {
        self.active
    }

    pub fn reactivate(&mut self, l: Link) -> (r: Result<(), SimError>)
        requires
            old(self)@.wf(),
        ensures
            final(self)@ == old(self)@.reactivate(l).0,
            r == old(self)@.reactivate(l).1,
            final(self)@.wf(),
    {
        if self.link == l {
            self.active = true;
            Ok(())
        } else {
            Err(SimError::ForeignLink(l.from))
        }
    }

    pub fn flow_arrival(&mut self, f: GoBackN<CC>)
        requires
            old(self)@.wf(),
            f.wf(),
        ensures
            final(self)@ == old(self)@.flow_arrival(f),
            final(self)@.wf(),
    {
        self.active_flows.push(f);
        self.active = true;
        proof {
            assert forall|k: int| 0 <= k < self@.flows.len() implies (#[trigger] self@.flows[k]).wf() by {
                if k < old(self)@.flows.len() {
                    assert(self@.flows[k] == old(self)@.flows[k]);
                }
            }
        }
    }

    /// Finds the first flow with id `flow`.
    fn find_flow(&self, flow: u32) -> (found: Option<usize>)
        ensures
            match found {
                Some(k) => flow_index(self@.flows, flow) == Some(k as int) && k
                    < self@.flows.len(),
                None => flow_index(self@.flows, flow) is None,
            },
    {
        let mut k: usize = 0;
        while k < self.active_flows.len()
            invariant
                k <= self.active_flows@.len(),
                forall|j: int| 0 <= j < k ==> (#[trigger] self.active_flows@[j]).info().flow_id != flow,
            decreases self.active_flows@.len() - k,
        {
            if self.active_flows[k].flow_info().flow_id == flow {
                proof {
                    assert(carries(self@.flows, flow, k as int));
                    let c = choose|c: int| carries(self@.flows, flow, c);
                    if c < k {
                        assert(self@.flows[c].info().flow_id != flow);
                    } else if k < c {
                        assert(self@.flows[k as int].info().flow_id != flow);
                    }
                }
                return Some(k);
            }
            k = k + 1;
        }
        proof {
            assert forall|c: int| !carries(self@.flows, flow, c) by {
                if 0 <= c < self@.flows.len() {
                    assert(self@.flows[c].info().flow_id != flow);
                }
            }
        }
        None
    }

    pub fn receive(&mut self, p: Packet, _l: Link, time: Nanos, trace: &mut Vec<TraceRecord>) -> (r:
        Result<Vec<Event>, SimError>)
        requires
            old(self)@.wf(),
            p.valid(),
        ensures
            final(self)@ == old(self)@.receive(p, time).next,
            crate::node::switch::events_of(r) == old(self)@.receive(p, time).result,
            final(trace)@ == old(trace)@ + old(self)@.receive(p, time).trace,
            final(self)@.wf(),
            r is Ok,
    {
        let ghost before = self@;
        let ghost trace0 = trace@;
        let ghost seen = seq![TraceRecord::Rx { time, node: self.id, packet: p }];
        trace.push(TraceRecord::Rx { time, node: self.id, packet: p });
        let was_empty: bool = self.to_send.len() == 0;
        match p {
            Packet::Data { hdr, .. } | Packet::Ack { hdr, .. } | Packet::Nack { hdr, .. } => {
                let flow_id: u32 = hdr.flow;
                let found: Option<usize> = self.find_flow(flow_id);
                let mut taken: bool = false;
                if let Some(k) = found {
                    if self.active_flows[k].can_receive(time, p) {
                        taken = true;
                        let ghost step = before.flows[k as int].received(time, p);
                        let answer = self.active_flows[k].receive(time, p, trace);
                        if let Ok((pkts, should_clear)) = answer {
                            if should_clear {
                                evict_data_of(&mut self.to_send, flow_id);
                            }
                            append_packets(&mut self.to_send, &pkts);
                            if was_empty {
                                self.active = true;
                            }
                            proof {
                                assert(self@.flows =~= before.flows.update(k as int, step.next));
                                assert(trace@ =~= trace0 + (seen + step.trace));
                                lemma_packets_stay_valid(before.to_send, flow_id, step.packets);
                                assert forall|j: int| 0 <= j < self@.flows.len() implies (
                                #[trigger] self@.flows[j]).wf() by {
                                    if j != k {
                                        assert(self@.flows[j] == before.flows[j]);
                                    }
                                }
                            }
                        }
                    }
                }
                if !taken {
                    trace.push(TraceRecord::Isolated { packet: p });
                    proof {
                        assert(trace@ =~= trace0 + seen.push(TraceRecord::Isolated { packet: p }));
                    }
                }
            },
            Packet::Pause(_) => {
                self.paused = true;
                trace.push(TraceRecord::Pausing { node: self.id });
                proof {
                    assert(trace@ =~= trace0 + seen.push(TraceRecord::Pausing { node: self.id }));
                }
            },
            Packet::Resume(_) => {
                self.paused = false;
                trace.push(TraceRecord::Resuming { node: self.id });
                proof {
                    assert(trace@ =~= trace0 + seen.push(TraceRecord::Resuming { node: self.id }));
                }
            },
        }
        Ok(Vec::new())
    }

    pub fn exec(&mut self, time: Nanos, trace: &mut Vec<TraceRecord>) -> (r: Result<
        Vec<Event>,
        SimError,
    >)
        requires
            old(self)@.wf(),
        ensures
            final(self)@ == old(self)@.exec(time).next,
            crate::node::switch::events_of(r) == old(self)@.exec(time).result,
            final(trace)@ == old(trace)@ + old(self)@.exec(time).trace,
            final(self)@.wf(),
            crate::node::switch::yields_valid(crate::node::switch::events_of(r)),
    {
        let ghost before = self@;
        let ghost trace0 = trace@;
        if self.paused {
            proof {
                assert(trace@ =~= trace0 + Seq::<TraceRecord>::empty());
            }
            return Ok(Vec::new());
        }
        let link: Link = self.link;
        let id: u32 = self.id;
        let mut new_pkts: Vec<Packet> = Vec::new();
        let mut flows_to_clear: Vec<u32> = Vec::new();
        let mut k: usize = 0;
        proof {
            assert(before.flows.take(0) =~= Seq::<GoBackN<CC>>::empty());
            assert(trace@ =~= trace0 + poll_trace(before.flows.take(0), time));
        }
        while k < self.active_flows.len()
            invariant
                k <= before.flows.len(),
                self.active_flows@.len() == before.flows.len(),
                before == old(self)@,
                before.wf(),
                self@ == (HostState { flows: self@.flows, ..before }),
                forall|j: int| 0 <= j < k ==> (#[trigger] self@.flows[j]) == before.flows[j].polled(time).next,
                forall|j: int| k <= j < before.flows.len() ==> (#[trigger] self@.flows[j]) == before.flows[j],
                forall|j: int| 0 <= j < before.flows.len() ==> (#[trigger] self@.flows[j]).wf(),
                new_pkts@ == poll_packets(before.flows.take(k as int), time),
                all_packets_valid(new_pkts@),
                flows_to_clear@ == clearing_flows(before.flows.take(k as int), time),
                trace@ == trace0 + poll_trace(before.flows.take(k as int), time),
            decreases before.flows.len() - k,
        {
            let ghost f = before.flows[k as int];
            let ghost prev = self@.flows;
            let ghost trace1 = trace@;
            proof {
                assert(before.flows.take(k + 1).drop_last() =~= before.flows.take(k as int));
                assert(before.flows.take(k + 1).last() == f);
                assert(self@.flows[k as int] == f);
            }
            let answer = self.active_flows[k].exec(time, trace);
            proof {
                assert(forall|j: int| 0 <= j < prev.len() && j != k ==> self@.flows[j] == prev[j]);
                assert(trace@ =~= trace0 + poll_trace(before.flows.take(k + 1), time));
            }
            if let Ok((ps, should_clear)) = answer {
                let fid: u32 = self.active_flows[k].flow_info().flow_id;
                if should_clear {
                    flows_to_clear.push(fid);
                }
                let mut j: usize = 0;
                let ghost had = new_pkts@;
                while j < ps.len()
                    invariant
                        j <= ps@.len(),
                        new_pkts@ == had + ps@.take(j as int),
                        all_packets_valid(had),
                        all_packets_valid(ps@),
                    decreases ps@.len() - j,
                {
                    new_pkts.push(ps[j]);
                    proof {
                        assert(ps@.take(j + 1) =~= ps@.take(j as int).push(ps@[j as int]));
                        assert(new_pkts@ =~= had + ps@.take(j + 1));
                    }
                    j = j + 1;
                }
                proof {
                    assert(ps@.take(j as int) =~= ps@);
                    assert forall|i: int| 0 <= i < new_pkts@.len() implies (#[trigger] new_pkts@[i]).valid() by {
                        if i < had.len() {
                            assert(new_pkts@[i] == had[i]);
                        } else {
                            assert(new_pkts@[i] == ps@[i - had.len()]);
                        }
                    }
                }
            }
            k = k + 1;
        }
        proof {
            assert(before.flows.take(k as int) =~= before.flows);
            assert(self@.flows =~= flows_polled(before.flows, time));
        }
        let mut c: usize = 0;
        proof {
            assert(flows_to_clear@.take(0) =~= Seq::<u32>::empty());
        }
        while c < flows_to_clear.len()
            invariant
                c <= flows_to_clear@.len(),
                self@ == (HostState {
                    flows: flows_polled(before.flows, time),
                    to_send: self@.to_send,
                    ..before
                }),
                before == old(self)@,
                !before.paused,
                self@.flows == flows_polled(before.flows, time),
                self.to_send@ == evicted(before.to_send, flows_to_clear@.take(c as int)),
            decreases flows_to_clear@.len() - c,
        {
            proof {
                assert(flows_to_clear@.take(c + 1).drop_last() =~= flows_to_clear@.take(c as int));
            }
            evict_data_of(&mut self.to_send, flows_to_clear[c]);
            c = c + 1;
        }
        proof {
            assert(flows_to_clear@.take(c as int) =~= flows_to_clear@);
            lemma_evicted_valid(before.to_send, flows_to_clear@);
        }
        append_packets(&mut self.to_send, &new_pkts);
        self.active = false;
        let ghost line = before.lined_up(time);
        proof {
            assert(self.to_send@ == line);
            assert forall|i: int| 0 <= i < line.len() implies (#[trigger] line[i]).valid() by {
                let kept = evicted(before.to_send, flows_to_clear@);
                if i < kept.len() {
                    assert(line[i] == kept[i]);
                } else {
                    assert(line[i] == new_pkts@[i - kept.len()]);
                }
            }
        }
        match self.to_send.pop_front() {
            None => Err(SimError::NoPendingPackets),
            Some(pkt) => {
                trace.push(TraceRecord::Tx { time, node: id, packet: pkt });
                let mut evs: Vec<Event> = Vec::new();
                evs.push(Event::NodeTransmit(NodeTransmitEvent(link, pkt)));
                proof {
                    assert(self.to_send@ =~= line.skip(1));
                    assert(evs@ =~= seq![Event::NodeTransmit(NodeTransmitEvent(link, pkt))]);
                    assert(line[0].valid());
                }
                Ok(evs)
            },
        }
    }
}

/// Forgetting packets leaves valid packets valid.
pub proof fn lemma_evicted_valid(pkts: Seq<Packet>, flows: Seq<u32>)
    requires
        all_packets_valid(pkts),
    ensures
        all_packets_valid(evicted(pkts, flows)),
    decreases flows.len(),
{
    if flows.len() > 0 {
        lemma_evicted_valid(pkts, flows.drop_last());
        lemma_filter_valid(evicted(pkts, flows.drop_last()), keeps_other(flows.last()));
    }
}

/// What waits after a flow's answer has been lined up is valid if what waited
/// and the answer are.
pub proof fn lemma_packets_stay_valid(pkts: Seq<Packet>, flow: u32, more: Seq<Packet>)
    requires
        all_packets_valid(pkts),
        all_packets_valid(more),
    ensures
        all_packets_valid(pkts + more),
        all_packets_valid(pkts.filter(keeps_other(flow)) + more),
{
    let kept = pkts.filter(keeps_other(flow));
    lemma_filter_valid(pkts, keeps_other(flow));
    assert forall|i: int| 0 <= i < (pkts + more).len() implies (#[trigger] (pkts + more)[i]).valid() by {
        if i < pkts.len() {
            assert((pkts + more)[i] == pkts[i]);
        } else {
            assert((pkts + more)[i] == more[i - pkts.len()]);
        }
    }
    assert forall|i: int| 0 <= i < (kept + more).len() implies (#[trigger] (kept + more)[i]).valid() by {
        if i < kept.len() {
            assert((kept + more)[i] == kept[i]);
        } else {
            assert((kept + more)[i] == more[i - kept.len()]);
        }
    }
}

} // verus!
