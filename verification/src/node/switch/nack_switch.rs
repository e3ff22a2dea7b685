//! A switch that answers a drop with a NACK to the sender.

use vstd::prelude::*;
use std::collections::HashMap;
use crate::Nanos;
use crate::error::SimError;
use crate::event::Event;
use crate::node::Link;
use crate::node::switch::{
    Queue, QueueState, Switch, SwitchStep, all_polled, departures, drop_note, egress_towards,
    find_egress, forwarded, lemma_sifted_is_filter, poll_ports, ports_wf, tx_notes, views,
};
use crate::node::switch::drop_tail_queue::DropTailQueue;
use crate::packet::{Packet, PacketHeader};
use crate::trace::TraceRecord;

verus! {

/// When a data packet finds its egress queue full, the switch remembers the
/// flow and the sequence number, throws away what the queue holds of the flow
/// beyond that number, and sends a NACK back. Until the packet with that
/// number comes again, every other data packet of the flow is dropped on
/// arrival: the sender will go back and send it again.
pub struct NackSwitch {
    pub id: u32,
    pub active: bool,
    pub rack: Vec<DropTailQueue>,
    pub core: Vec<DropTailQueue>,
    /// For each blocked flow, the sequence number that unblocks it.
    pub blocked_flows: HashMap<u32, u32>,
}

/// A NACK switch as a mathematical value.
pub struct NackSwitchState {
    pub id: u32,
    pub active: bool,
    pub rack: Seq<QueueState>,
    pub core: Seq<QueueState>,
    pub blocked_flows: Map<u32, u32>,
}

/// Whether `p` is a data packet of `flow` beyond sequence number `seq`.
pub open spec fn later_data_of(p: Packet, flow: u32, seq: u32) -> bool {
    p matches Packet::Data { hdr, seq: s, .. } && hdr.flow == flow && s > seq
}

/// The packets that survive a drop of `flow` at `seq`: all but the flow's
/// later data.
pub open spec fn survives(flow: u32, seq: u32) -> spec_fn(Packet) -> bool {
    |p: Packet| !later_data_of(p, flow, seq)
}

/// The NACK that answers a drop of a data packet with header `hdr` at `seq`.
pub open spec fn nack_for(hdr: PacketHeader, seq: u32) -> Packet {
    Packet::Nack { hdr: hdr.reversed(), nacked_seq: seq }
}

impl NackSwitchState {
    pub open spec fn wf(self) -> bool {
        ports_wf(self.rack) && ports_wf(self.core)
    }

    pub open spec fn stopping(self, e: SimError, trace: Seq<TraceRecord>) -> SwitchStep<
        NackSwitchState,
    > {
        SwitchStep { next: self, result: Err(e), trace }
    }

    pub open spec fn going_on(self, trace: Seq<TraceRecord>) -> SwitchStep<NackSwitchState> {
        SwitchStep { next: self, result: Ok(Seq::empty()), trace }
    }

    /// An ACK or NACK in transit is forwarded like any packet of a lossy
    /// switch: queued towards its destination, or dropped for want of room.
    pub open spec fn transit(self, p: Packet, to: u32, time: Nanos, seen: Seq<TraceRecord>) -> SwitchStep<
        NackSwitchState,
    > {
        match egress_towards(self.rack, to) {
            None => self.stopping(SimError::NoRoute(to), seen),
            Some(i) => (NackSwitchState { rack: forwarded(self.rack, i, p), ..self }).going_on(
                seen + drop_note(self.rack, i, p, time, self.id),
            ),
        }
    }

    /// The egress queue `i` was full for a data packet of `hdr.flow` at `seq`:
    /// the flow is blocked at `seq`, the queue is purged of the flow's later
    /// data, and a NACK is queued towards the sender. A NACK that finds no
    /// port or no room stops the run.
    pub open spec fn refuse(self, i: int, p: Packet, hdr: PacketHeader, seq: u32, time: Nanos, seen: Seq<
        TraceRecord,
    >) -> SwitchStep<NackSwitchState> {
        let purged = self.rack[i].with_pkts(self.rack[i].pkts.filter(survives(hdr.flow, seq)));
        let rack = self.rack.update(i, purged);
        let blocked = NackSwitchState {
            rack,
            blocked_flows: self.blocked_flows.insert(hdr.flow, seq),
            ..self
        };
        let noted = seen.push(TraceRecord::Dropping { time, node: self.id, packet: p });
        let nack = nack_for(hdr, seq);
        match egress_towards(rack, hdr.from) {
            None => blocked.stopping(SimError::NoRoute(hdr.from), noted),
            Some(j) => if rack[j].admits(nack) {
                (NackSwitchState { rack: forwarded(rack, j, nack), ..blocked }).going_on(noted)
            } else {
                blocked.stopping(SimError::NackOverflow(hdr.from), noted)
            },
        }
    }

    /// A data packet of a blocked flow passes only if it carries the sequence
    /// number that the flow is blocked at, and unblocks the flow. A packet
    /// that passes is queued towards its destination, or refused.
    pub open spec fn data(self, p: Packet, hdr: PacketHeader, seq: u32, time: Nanos, seen: Seq<
        TraceRecord,
    >) -> SwitchStep<NackSwitchState> {
        if self.blocked_flows.contains_key(hdr.flow) && self.blocked_flows[hdr.flow] != seq {
            self.going_on(seen)
        } else {
            let open = NackSwitchState {
                blocked_flows: self.blocked_flows.remove(hdr.flow),
                ..self
            };
            match egress_towards(open.rack, hdr.to) {
                None => open.stopping(SimError::NoRoute(hdr.to), seen),
                Some(i) => if open.rack[i].admits(p) {
                    (NackSwitchState { rack: forwarded(open.rack, i, p), ..open }).going_on(seen)
                } else {
                    open.refuse(i, p, hdr, seq, time, seen)
                },
            }
        }
    }

    /// A packet arrives: the switch wakes up and notes it. PAUSE and RESUME
    /// mean nothing to this switch.
    pub open spec fn receive(self, p: Packet, time: Nanos) -> SwitchStep<NackSwitchState> {
        let awake = NackSwitchState { active: true, ..self };
        let seen = seq![TraceRecord::Rx { time, node: self.id, packet: p }];
        match p {
            Packet::Pause(_) | Packet::Resume(_) => awake.going_on(seen),
            Packet::Nack { hdr, .. } | Packet::Ack { hdr, .. } => awake.transit(p, hdr.to, time, seen),
            Packet::Data { hdr, seq, .. } => awake.data(p, hdr, seq, time, seen),
        }
    }

    /// The switch is polled: every port that takes part sends one packet,
    /// rack ports first.
    pub open spec fn exec(self, time: Nanos) -> SwitchStep<NackSwitchState> {
        let events = departures(self.rack) + departures(self.core);
        SwitchStep {
            next: NackSwitchState {
                rack: all_polled(self.rack),
                core: all_polled(self.core),
                ..self
            },
            result: Ok(events),
            trace: tx_notes(events, time, self.id),
        }
    }

    /// The first port that leads where `l` leads is flagged active again;
    /// rack ports are looked at first.
    pub open spec fn reactivate(self, l: Link) -> (NackSwitchState, Result<(), SimError>) {
        if l.from != self.id {
            (self, Err(SimError::ForeignLink(l.from)))
        } else {
            match egress_towards(self.rack, l.to) {
                Some(i) => (
                    NackSwitchState {
                        rack: self.rack.update(i, self.rack[i].with_active(true)),
                        ..self
                    },
                    Ok(()),
                ),
                None => match egress_towards(self.core, l.to) {
                    Some(i) => (
                        NackSwitchState {
                            core: self.core.update(i, self.core[i].with_active(true)),
                            ..self
                        },
                        Ok(()),
                    ),
                    None => (self, Err(SimError::NoRoute(l.to))),
                },
            }
        }
    }
}

impl NackSwitch {
    /// Queues `p` on rack port `i`, and notes a drop if there is no room.
    fn forward(&mut self, i: usize, p: Packet, time: Nanos, trace: &mut Vec<TraceRecord>)
        requires
            old(self).wf(),
            i < old(self).rack@.len(),
            p.valid(),
        ensures
            final(self).wf(),
            final(self).model() == (NackSwitchState {
                rack: forwarded(old(self).model().rack, i as int, p),
                ..old(self).model()
            }),
            final(trace)@ == old(trace)@ + drop_note(
                old(self).model().rack,
                i as int,
                p,
                time,
                old(self).id,
            ),
    {
        let id: u32 = self.id;
        let ghost before = views(self.rack@);
        let taken: Option<()> = self.rack[i].enqueue(p);
        if taken.is_none() {
            trace.push(TraceRecord::Dropping { time, node: id, packet: p });
        }
        proof {
            assert(views(self.rack@) =~= forwarded(before, i as int, p));
        }
    }
}

impl Switch for NackSwitch {
    type Model = NackSwitchState;

    open spec fn model(&self) -> NackSwitchState {
        NackSwitchState {
            id: self.id,
            active: self.active,
            rack: views(self.rack@),
            core: views(self.core@),
            blocked_flows: self.blocked_flows@,
        }
    }

    open spec fn wf(&self) -> bool {
        self.model().wf()
    }

    open spec fn model_new(switch_id: u32, queues: Seq<QueueState>) -> NackSwitchState {
        NackSwitchState {
            id: switch_id,
            active: false,
            rack: queues,
            core: Seq::empty(),
            blocked_flows: Map::empty(),
        }
    }

    open spec fn model_id(m: NackSwitchState) -> u32 {
        m.id
    }

    open spec fn model_active(m: NackSwitchState) -> bool {
        m.active
    }

    open spec fn model_receive(m: NackSwitchState, p: Packet, l: Link, time: Nanos) -> SwitchStep<
        NackSwitchState,
    > {
        m.receive(p, time)
    }

    open spec fn model_exec(m: NackSwitchState, time: Nanos) -> SwitchStep<NackSwitchState> {
        m.exec(time)
    }

    open spec fn model_reactivate(m: NackSwitchState, l: Link) -> (
        NackSwitchState,
        Result<(), SimError>,
    ) {
        m.reactivate(l)
    }

    fn new(switch_id: u32, links: Vec<DropTailQueue>) -> (s: Self) {
        let s = NackSwitch {
            id: switch_id,
            active: false,
            rack: links,
            core: Vec::new(),
            blocked_flows: HashMap::new(),
        };
        proof {
            assert(views(s.core@) =~= Seq::<QueueState>::empty());
        }
        s
    }

    fn id(&self) -> (id: u32) {
        self.id
    }

    fn receive(&mut self, p: Packet, l: Link, time: Nanos, trace: &mut Vec<TraceRecord>) -> (r:
        Result<Vec<Event>, SimError>) {
        self.active = true;
        let id: u32 = self.id;
        trace.push(TraceRecord::Rx { time, node: id, packet: p });
        let ghost awake = self.model();
        let ghost seen = seq![TraceRecord::Rx { time, node: id, packet: p }];
        match p {
            Packet::Pause(_) | Packet::Resume(_) => Ok(Vec::new()),
            Packet::Nack { hdr, .. } | Packet::Ack { hdr, .. } => {
                match find_egress(&self.rack, hdr.to) {
                    None => Err(SimError::NoRoute(hdr.to)),
                    Some(i) => {
                        self.forward(i, p, time, trace);
                        Ok(Vec::new())
                    },
                }
            },
            Packet::Data { hdr, seq, .. } => {
                let expected: Option<u32> = match self.blocked_flows.get(&hdr.flow) {
                    Some(next_expected_seq) => Some(*next_expected_seq),
                    None => None,
                };
                if let Some(next_expected_seq) = expected {
                    if seq != next_expected_seq {
                        // The sender will go back and send this one again.
                        return Ok(Vec::new());
                    }
                }
                self.blocked_flows.remove(&hdr.flow);
                let ghost open = self.model();
                match find_egress(&self.rack, hdr.to) {
                    None => Err(SimError::NoRoute(hdr.to)),
                    Some(i) => {
                        let taken: Option<()> = self.rack[i].enqueue(p);
                        if taken.is_some() {
                            proof {
                                assert(views(self.rack@) =~= forwarded(open.rack, i as int, p));
                            }
                            return Ok(Vec::new());
                        }
                        let flow_id_to_drop: u32 = hdr.flow;
                        let dropped_seq: u32 = seq;
                        self.blocked_flows.insert(flow_id_to_drop, seq);
                        let stale = move |q: Packet| -> (b: bool)
                            ensures
                                b == later_data_of(q, flow_id_to_drop, dropped_seq),
                            {
                                match q {
                                    Packet::Data { hdr, seq, .. } => hdr.flow == flow_id_to_drop
                                        && seq > dropped_seq,
                                    _ => false,
                                }
                            };
                        let _ = self.rack[i].discard_matching(stale);
                        trace.push(TraceRecord::Dropping { time, node: id, packet: p });
                        proof {
                            lemma_sifted_is_filter(
                                open.rack[i as int].pkts,
                                self.rack@[i as int]@.pkts,
                                stale,
                                survives(flow_id_to_drop, dropped_seq),
                            );
                            assert(views(self.rack@) =~= open.rack.update(
                                i as int,
                                open.rack[i as int].with_pkts(
                                    open.rack[i as int].pkts.filter(survives(hdr.flow, seq)),
                                ),
                            ));
                        }
                        let ghost purged = views(self.rack@);
                        let nack: Packet = Packet::Nack {
                            hdr: PacketHeader { flow: hdr.flow, from: hdr.to, to: hdr.from },
                            nacked_seq: seq,
                        };
                        match find_egress(&self.rack, hdr.from) {
                            None => Err(SimError::NoRoute(hdr.from)),
                            Some(j) => {
                                let sent: Option<()> = self.rack[j].enqueue(nack);
                                proof {
                                    assert(views(self.rack@) =~= forwarded(purged, j as int, nack));
                                }
                                if sent.is_some() {
                                    Ok(Vec::new())
                                } else {
                                    proof {
                                        assert(views(self.rack@) =~= purged);
                                    }
                                    Err(SimError::NackOverflow(hdr.from))
                                }
                            },
                        }
                    },
                }
            },
        }
    }

    fn exec(&mut self, time: Nanos, trace: &mut Vec<TraceRecord>) -> (r: Result<
        Vec<Event>,
        SimError,
    >) {
        let id: u32 = self.id;
        let mut evs: Vec<Event> = Vec::new();
        let ghost before = self.model();
        let ghost trace0 = trace@;
        poll_ports(&mut self.rack, time, id, true, &mut evs, trace);
        poll_ports(&mut self.core, time, id, true, &mut evs, trace);
        proof {
            let a = departures(before.rack);
            let b = departures(before.core);
            assert(evs@ =~= a + b);
            crate::node::switch::lemma_tx_notes_concat(a, b, time, id);
            assert(trace@ =~= trace0 + tx_notes(a + b, time, id));
        }
        Ok(evs)
    }

    fn reactivate(&mut self, l: Link) -> (r: Result<(), SimError>) {
        if l.from != self.id {
            return Err(SimError::ForeignLink(l.from));
        }
        let ghost before = self.model();
        match find_egress(&self.rack, l.to) {
            Some(i) => {
                self.rack[i].set_active(true);
                proof {
                    assert(views(self.rack@) =~= before.rack.update(
                        i as int,
                        before.rack[i as int].with_active(true),
                    ));
                }
                Ok(())
            },
            None => match find_egress(&self.core, l.to) {
                Some(i) => {
                    self.core[i].set_active(true);
                    proof {
                        assert(views(self.core@) =~= before.core.update(
                            i as int,
                            before.core[i as int].with_active(true),
                        ));
                    }
                    Ok(())
                },
                None => Err(SimError::NoRoute(l.to)),
            },
        }
    }

    fn is_active(&self) -> (a: bool) {
        self.active
    }
}

/// What a drop sets up: a data packet that finds its queue full is noted as
/// dropped and blocks its flow at its own sequence number, and the queue is
/// left with nothing of the flow beyond that number.
pub proof fn lemma_drop_blocks_flow(s: NackSwitchState, p: Packet, time: Nanos)
    requires
        p is Data,
        s.blocked_flows.contains_key(p->Data_hdr.flow) ==> s.blocked_flows[p->Data_hdr.flow]
            == p->Data_seq,
        egress_towards(s.rack, p->Data_hdr.to) is Some,
        !s.rack[egress_towards(s.rack, p->Data_hdr.to)->0].admits(p),
    ensures
        ({
            let after = s.receive(p, time).next;
            let i = egress_towards(s.rack, p->Data_hdr.to)->0;
            &&& after.blocked_flows.contains_key(p->Data_hdr.flow)
            &&& after.blocked_flows[p->Data_hdr.flow] == p->Data_seq
            &&& s.receive(p, time).trace.contains(
                TraceRecord::Dropping { time, node: s.id, packet: p },
            )
            &&& forall|k: int|
                0 <= k < after.rack[i].pkts.len() ==> !later_data_of(
                    #[trigger] after.rack[i].pkts[k],
                    p->Data_hdr.flow,
                    p->Data_seq,
                )
        }),
{
    let hdr = p->Data_hdr;
    let seq = p->Data_seq;
    let seen = seq![TraceRecord::Rx { time, node: s.id, packet: p }];
    let i = egress_towards(s.rack, hdr.to)->0;
    let noted = seen.push(TraceRecord::Dropping { time, node: s.id, packet: p });
    assert(noted[1] == TraceRecord::Dropping { time, node: s.id, packet: p });
    let kept = s.rack[i].pkts.filter(survives(hdr.flow, seq));
    assert forall|k: int| 0 <= k < kept.len() implies !later_data_of(
        #[trigger] kept[k],
        hdr.flow,
        seq,
    ) by {
        s.rack[i].pkts.lemma_filter_pred(survives(hdr.flow, seq), k);
    }
    let after = s.receive(p, time).next;
    assert forall|k: int| 0 <= k < after.rack[i].pkts.len() implies !later_data_of(
        #[trigger] after.rack[i].pkts[k],
        hdr.flow,
        seq,
    ) by {
        if k < kept.len() {
            assert(after.rack[i].pkts[k] == kept[k]);
        }
    }
}

/// While a flow is blocked, only the packet it waits for gets through: any
/// other data packet of the flow leaves the switch exactly as it was, but for
/// the record of its arrival.
pub proof fn lemma_blocked_flow_waits(s: NackSwitchState, p: Packet, time: Nanos)
    requires
        p matches Packet::Data { hdr, seq, .. } && s.blocked_flows.contains_key(hdr.flow)
            && s.blocked_flows[hdr.flow] != seq,
    ensures
        s.receive(p, time).next == (NackSwitchState { active: true, ..s }),
        s.receive(p, time).result == Ok::<Seq<Event>, SimError>(Seq::empty()),
{
}

/// The packet that a blocked flow waits for unblocks it, and is queued
/// towards its destination if there is room.
pub proof fn lemma_retransmission_unblocks(s: NackSwitchState, p: Packet, time: Nanos)
    requires
        p matches Packet::Data { hdr, seq, .. } && s.blocked_flows.contains_key(hdr.flow)
            && s.blocked_flows[hdr.flow] == seq && egress_towards(s.rack, hdr.to) is Some
            && s.rack[egress_towards(s.rack, hdr.to)->0].admits(p),
    ensures
        ({
            let after = s.receive(p, time).next;
            let i = egress_towards(s.rack, p->Data_hdr.to)->0;
            &&& !after.blocked_flows.contains_key(p->Data_hdr.flow)
            &&& after.rack[i].pkts == s.rack[i].pkts.push(p)
        }),
{
}

} // verus!
