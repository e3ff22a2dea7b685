//! Switches that pause their neighbours instead of dropping.

use vstd::prelude::*;
use std::collections::HashMap;
use crate::Nanos;
use crate::error::SimError;
use crate::event::{Event, all_valid};
use crate::node::{Link, NodeTransmitEvent};
use crate::node::switch::{
    PFCSwitchFamily, Queue, QueueState, Switch, SwitchStep, all_polled, departing, departures,
    egress_towards, events_of, leads, lemma_leads_unique, polled, ports_wf, tx_notes,
    views,
};
use crate::node::switch::drop_tail_queue::DropTailQueue;
use crate::packet::Packet;
use crate::trace::TraceRecord;

verus! {

/// A port of a PFC switch: the queue that feeds the outgoing link, and
/// whether the switch has paused the neighbour at the far end.
pub type PfcPort = (DropTailQueue, bool);

/// The ports of a bank, as mathematical values.
pub open spec fn port_views(ports: Seq<PfcPort>) -> Seq<(QueueState, bool)> {
    ports.map_values(|port: PfcPort| (port.0@, port.1))
}

/// The queues of a bank of ports.
pub open spec fn queues_of(ports: Seq<(QueueState, bool)>) -> Seq<QueueState> {
    ports.map_values(|port: (QueueState, bool)| port.0)
}

/// The bank with the queue of port `i` replaced.
pub open spec fn with_queue(ports: Seq<(QueueState, bool)>, i: int, q: QueueState) -> Seq<
    (QueueState, bool),
> {
    ports.update(i, (q, ports[i].1))
}

/// The bank with new queues, port by port, and the flags as they were.
pub open spec fn with_queues(ports: Seq<(QueueState, bool)>, queues: Seq<QueueState>) -> Seq<
    (QueueState, bool),
> {
    Seq::new(ports.len(), |i: int| (queues[i], ports[i].1))
}

/// The frame that tells a neighbour to stop, or to go on.
pub open spec fn signal(pause: bool, id: u32) -> Packet {
    if pause {
        Packet::Pause(id)
    } else {
        Packet::Resume(id)
    }
}

/// A port after the switch has signalled its neighbours: a port whose flag
/// already says `pause` is left alone; any other gets the frame as its forced
/// head and takes the flag.
pub open spec fn signalled_port(port: (QueueState, bool), pause: bool, id: u32) -> (
    QueueState,
    bool,
) {
    if port.1 == pause {
        port
    } else {
        (port.0.force_tx_next(signal(pause, id)), pause)
    }
}

/// The bank after the switch has signalled its neighbours.
pub open spec fn signalled(ports: Seq<(QueueState, bool)>, pause: bool, id: u32) -> Seq<
    (QueueState, bool),
> {
    ports.map_values(|port: (QueueState, bool)| signalled_port(port, pause, id))
}

/// How many ports of the bank a signal goes out on: those whose flag does not
/// say `pause` yet.
pub open spec fn signal_count(ports: Seq<(QueueState, bool)>, pause: bool) -> nat
    decreases ports.len(),
{
    if ports.len() == 0 {
        0
    } else {
        signal_count(ports.drop_last(), pause) + if ports.last().1 == pause {
            0nat
        } else {
            1nat
        }
    }
}

/// One `tx` record for each signal that goes out on the bank.
pub open spec fn signal_notes(ports: Seq<(QueueState, bool)>, pause: bool, time: Nanos, id: u32) -> Seq<
    TraceRecord,
> {
    Seq::new(
        signal_count(ports, pause),
        |k: int| TraceRecord::Tx { time, node: id, packet: signal(pause, id) },
    )
}

/// Port `i` is the first of the bank whose link starts at node `from`.
pub open spec fn starts(queues: Seq<QueueState>, from: u32, i: int) -> bool {
    &&& 0 <= i < queues.len()
    &&& queues[i].link.from == from
    &&& forall|j: int| 0 <= j < i ==> (#[trigger] queues[j]).link.from != from
}

/// The first port of the bank whose link starts at node `from`, if any.
pub open spec fn egress_from(queues: Seq<QueueState>, from: u32) -> Option<int> {
    if exists|i: int| starts(queues, from, i) {
        Some(choose|i: int| starts(queues, from, i))
    } else {
        None
    }
}

/// Polling a bank frees enough room to lift a pause when some port sends a
/// packet and is then left with more headroom than its link's resume
/// threshold.
pub open spec fn relieved(queues: Seq<QueueState>) -> bool {
    exists|i: int| 0 <= i < queues.len() && relieved_at(#[trigger] queues[i])
}

pub open spec fn relieved_at(q: QueueState) -> bool {
    departing(q) is Some && polled(q).headroom() > q.link.resume_threshold()
}

/// Finds the first port whose link leads to node `to`.
pub fn find_port(ports: &Vec<PfcPort>, to: u32) -> (found: Option<usize>)
    ensures
        match found {
            Some(i) => egress_towards(queues_of(port_views(ports@)), to) == Some(i as int) && i
                < ports@.len(),
            None => egress_towards(queues_of(port_views(ports@)), to) is None,
        },
{
    let ghost queues = queues_of(port_views(ports@));
    let mut i: usize = 0;
    while i < ports.len()
        invariant
            i <= ports@.len(),
            queues == queues_of(port_views(ports@)),
            forall|j: int| 0 <= j < i ==> (#[trigger] queues[j]).link.to != to,
        decreases ports@.len() - i,
    {
        if ports[i].0.link().to == to {
            proof {
                assert(queues[i as int] == ports@[i as int].0@);
                assert(leads(queues, to, i as int));
                lemma_leads_unique(queues, to, i as int);
            }
            return Some(i);
        }
        proof {
            assert(queues[i as int] == ports@[i as int].0@);
        }
        i = i + 1;
    }
    proof {
        assert forall|k: int| !leads(queues, to, k) by {
            if 0 <= k < queues.len() {
                assert(queues[k].link.to != to);
            }
        }
    }
    None
}

/// Finds the first port whose link starts at node `from`.
pub fn find_port_from(ports: &Vec<PfcPort>, from: u32) -> (found: Option<usize>)
    ensures
        match found {
            Some(i) => egress_from(queues_of(port_views(ports@)), from) == Some(i as int) && i
                < ports@.len(),
            None => egress_from(queues_of(port_views(ports@)), from) is None,
        },
{
    let ghost queues = queues_of(port_views(ports@));
    let mut i: usize = 0;
    while i < ports.len()
        invariant
            i <= ports@.len(),
            queues == queues_of(port_views(ports@)),
            forall|j: int| 0 <= j < i ==> (#[trigger] queues[j]).link.from != from,
        decreases ports@.len() - i,
    {
        if ports[i].0.link().from == from {
            proof {
                assert(queues[i as int] == ports@[i as int].0@);
                assert(starts(queues, from, i as int));
                let k = choose|k: int| starts(queues, from, k);
                if k < i {
                    assert(queues[k].link.from != from);
                } else if i < k {
                    assert(queues[i as int].link.from != from);
                }
            }
            return Some(i);
        }
        proof {
            assert(queues[i as int] == ports@[i as int].0@);
        }
        i = i + 1;
    }
    proof {
        assert forall|k: int| !starts(queues, from, k) by {
            if 0 <= k < queues.len() {
                assert(queues[k].link.from != from);
            }
        }
    }
    None
}

/// Sends a PAUSE (or a RESUME) out on every port of the bank that has not
/// had it yet, ahead of whatever waits there.
pub fn signal_ports(
    ports: &mut Vec<PfcPort>,
    pause: bool,
    time: Nanos,
    id: u32,
    trace: &mut Vec<TraceRecord>,
)
    requires
        ports_wf(queues_of(port_views(old(ports)@))),
    ensures
        port_views(final(ports)@) == signalled(port_views(old(ports)@), pause, id),
        ports_wf(queues_of(port_views(final(ports)@))),
        final(trace)@ == old(trace)@ + signal_notes(port_views(old(ports)@), pause, time, id),
{
    let ghost before = port_views(ports@);
    let ghost trace0 = trace@;
    let frame: Packet = if pause {
        Packet::Pause(id)
    } else {
        Packet::Resume(id)
    };
    let mut i: usize = 0;
    proof {
        assert(before.take(0) =~= Seq::<(QueueState, bool)>::empty());
        assert forall|j: int| 0 <= j < before.len() implies (#[trigger] ports@[j]).0@.wf()
            && ports@[j].0@.link.valid() by {
            assert(queues_of(before)[j] == ports@[j].0@);
        }
    }
    while i < ports.len()
        invariant
            i <= ports@.len(),
            ports@.len() == before.len(),
            frame == signal(pause, id),
            forall|j: int|
                0 <= j < i ==> (#[trigger] ports@[j]).0@ == signalled_port(before[j], pause, id).0
                    && ports@[j].1 == signalled_port(before[j], pause, id).1,
            forall|j: int|
                i <= j < before.len() ==> (#[trigger] ports@[j]).0@ == before[j].0 && ports@[j].1
                    == before[j].1,
            forall|j: int|
                0 <= j < before.len() ==> (#[trigger] ports@[j]).0@.wf()
                    && ports@[j].0@.link.valid(),
            trace@ == trace0 + signal_notes(before.take(i as int), pause, time, id),
        decreases ports@.len() - i,
    {
        let ghost prev = ports@;
        let ghost done = before.take(i as int);
        proof {
            assert(before.take(i + 1).drop_last() =~= done);
            assert(before.take(i + 1).last() == before[i as int]);
        }
        if ports[i].1 != pause {
            trace.push(TraceRecord::Tx { time, node: id, packet: frame });
            ports[i].1 = pause;
            let _ = ports[i].0.force_tx_next(frame);
            proof {
                assert(trace@ =~= trace0 + signal_notes(before.take(i + 1), pause, time, id));
            }
        } else {
            proof {
                assert(trace@ =~= trace0 + signal_notes(before.take(i + 1), pause, time, id));
            }
        }
        proof {
            assert(forall|j: int| 0 <= j < prev.len() && j != i ==> ports@[j] == prev[j]);
        }
        i = i + 1;
    }
    proof {
        assert(before.take(i as int) =~= before);
        assert(port_views(ports@) =~= signalled(before, pause, id));
        assert forall|j: int| 0 <= j < before.len() implies (#[trigger] queues_of(
            port_views(ports@),
        )[j]).wf() && queues_of(port_views(ports@))[j].link.valid() by {
            assert(queues_of(port_views(ports@))[j] == ports@[j].0@);
        }
    }
}

/// Polls every port of a bank in order, as `poll_ports` does, and says
/// whether a pause can be lifted.
pub fn poll_pfc_ports(
    ports: &mut Vec<PfcPort>,
    time: Nanos,
    node: u32,
    events: &mut Vec<Event>,
    trace: &mut Vec<TraceRecord>,
) -> (room: bool)
    requires
        ports_wf(queues_of(port_views(old(ports)@))),
        all_valid(old(events)@),
    ensures
        port_views(final(ports)@) == with_queues(
            port_views(old(ports)@),
            all_polled(queues_of(port_views(old(ports)@))),
        ),
        ports_wf(queues_of(port_views(final(ports)@))),
        final(events)@ == old(events)@ + departures(queues_of(port_views(old(ports)@))),
        all_valid(final(events)@),
        final(trace)@ == old(trace)@ + tx_notes(
            departures(queues_of(port_views(old(ports)@))),
            time,
            node,
        ),
        room == relieved(queues_of(port_views(old(ports)@))),
{
    let ghost ports0 = port_views(ports@);
    let ghost before = queues_of(ports0);
    let ghost events0 = events@;
    let ghost trace0 = trace@;
    let mut room: bool = false;
    let mut i: usize = 0;
    proof {
        assert(before.take(0) =~= Seq::<QueueState>::empty());
        assert forall|j: int| 0 <= j < before.len() implies (#[trigger] ports@[j]).0@ == before[j]
            && ports@[j].1 == ports0[j].1 by {}
    }
    while i < ports.len()
        invariant
            i <= ports@.len(),
            ports@.len() == before.len(),
            ports0.len() == before.len(),
            ports_wf(before),
            forall|j: int| 0 <= j < i ==> (#[trigger] ports@[j]).0@ == polled(before[j]),
            forall|j: int| i <= j < before.len() ==> (#[trigger] ports@[j]).0@ == before[j],
            forall|j: int| 0 <= j < before.len() ==> (#[trigger] ports@[j]).1 == ports0[j].1,
            forall|j: int|
                0 <= j < before.len() ==> (#[trigger] ports@[j]).0@.wf()
                    && ports@[j].0@.link.valid(),
            events@ == events0 + departures(before.take(i as int)),
            all_valid(events@),
            trace@ == trace0 + tx_notes(departures(before.take(i as int)), time, node),
            room == relieved(before.take(i as int)),
        decreases ports@.len() - i,
    {
        let ghost here = before[i as int];
        let ghost sent = departures(before.take(i as int));
        let ghost prev = ports@;
        let ghost room0 = room;
        proof {
            assert(ports@[i as int].0@ == here);
            assert(before.take(i + 1).drop_last() =~= before.take(i as int));
            assert(before.take(i + 1).last() == here);
        }
        if ports[i].0.is_active() {
            ports[i].0.set_active(false);
            let out: Option<Packet> = ports[i].0.dequeue();
            if let Some(pkt) = out {
                if ports[i].0.headroom() > ports[i].0.link().pfc_resume_threshold() {
                    room = true;
                }
                let link: Link = ports[i].0.link();
                let ev: Event = Event::NodeTransmit(NodeTransmitEvent(link, pkt));
                trace.push(TraceRecord::Tx { time, node, packet: pkt });
                events.push(ev);
                proof {
                    assert(departures(before.take(i + 1)) == sent.push(ev));
                    assert(events@ =~= events0 + sent.push(ev));
                    assert(sent.push(ev).drop_last() =~= sent);
                }
            }
        }
        proof {
            assert(ports@[i as int].0@ == polled(here));
            assert(forall|j: int| 0 <= j < prev.len() && j != i ==> ports@[j] == prev[j]);
            assert(trace@ =~= trace0 + tx_notes(departures(before.take(i + 1)), time, node));
            let more = before.take(i + 1);
            let less = before.take(i as int);
            if room0 {
                let k = choose|k: int| 0 <= k < less.len() && relieved_at(#[trigger] less[k]);
                assert(relieved_at(more[k]));
            }
            if relieved_at(here) {
                assert(relieved_at(more[i as int]));
            }
            if relieved(more) {
                let k = choose|k: int| 0 <= k < more.len() && relieved_at(#[trigger] more[k]);
                if k < i {
                    assert(relieved_at(less[k]));
                }
            }
            assert(room == relieved(more));
        }
        i = i + 1;
    }
    proof {
        assert(before.take(i as int) =~= before);
        assert(port_views(ports@) =~= with_queues(ports0, all_polled(before)));
        assert forall|j: int| 0 <= j < before.len() implies (#[trigger] queues_of(
            port_views(ports@),
        )[j]).wf() && queues_of(port_views(ports@))[j].link.valid() by {
            assert(queues_of(port_views(ports@))[j] == ports@[j].0@);
        }
    }
    room
}

/// PFC with one fixed threshold per link, blind to where the traffic comes
/// from. Once an egress queue is left with no more headroom than its link's
/// pause threshold, every neighbour is paused; once a queue that sends is left
/// with more than the resume threshold, every neighbour is released.
pub struct PFCSwitch {
    pub id: u32,
    pub active: bool,
    pub rack: Vec<PfcPort>,
    pub core: Vec<PfcPort>,
}

/// A PFC switch as a mathematical value.
pub struct PfcSwitchState {
    pub id: u32,
    pub active: bool,
    pub rack: Seq<(QueueState, bool)>,
    pub core: Seq<(QueueState, bool)>,
}

impl PfcSwitchState {
    pub open spec fn wf(self) -> bool {
        ports_wf(queues_of(self.rack)) && ports_wf(queues_of(self.core))
    }

    pub open spec fn stopping(self, e: SimError, trace: Seq<TraceRecord>) -> SwitchStep<
        PfcSwitchState,
    > {
        SwitchStep { next: self, result: Err(e), trace }
    }

    pub open spec fn going_on(self, trace: Seq<TraceRecord>) -> SwitchStep<PfcSwitchState> {
        SwitchStep { next: self, result: Ok(Seq::empty()), trace }
    }

    /// Every neighbour that has not been told yet is told to pause (or to go
    /// on), rack ports first.
    pub open spec fn signal_all(self, pause: bool) -> PfcSwitchState {
        PfcSwitchState {
            rack: signalled(self.rack, pause, self.id),
            core: signalled(self.core, pause, self.id),
            ..self
        }
    }

    pub open spec fn signal_all_notes(self, pause: bool, time: Nanos) -> Seq<TraceRecord> {
        signal_notes(self.rack, pause, time, self.id) + signal_notes(
            self.core,
            pause,
            time,
            self.id,
        )
    }

    /// A neighbour's PAUSE or RESUME sets the paused flag of the first rack
    /// queue whose link starts at the node named in the frame.
    pub open spec fn obey(self, from: u32, pause: bool, seen: Seq<TraceRecord>) -> SwitchStep<
        PfcSwitchState,
    > {
        match egress_from(queues_of(self.rack), from) {
            None => self.stopping(SimError::NoRoute(from), seen),
            Some(i) => (PfcSwitchState {
                rack: with_queue(self.rack, i, self.rack[i].0.with_paused(pause)),
                ..self
            }).going_on(seen),
        }
    }

    /// A packet in transit is queued towards its destination or dropped. If
    /// it is queued and leaves no more headroom than the pause threshold of
    /// the queue's link, the neighbours are paused.
    pub open spec fn transit(self, p: Packet, to: u32, time: Nanos, seen: Seq<TraceRecord>) -> SwitchStep<
        PfcSwitchState,
    > {
        match egress_towards(queues_of(self.rack), to) {
            None => self.stopping(SimError::NoRoute(to), seen),
            Some(i) => {
                let q = self.rack[i].0;
                if !q.admits(p) {
                    self.going_on(seen.push(TraceRecord::Dropping { time, node: self.id, packet: p }))
                } else {
                    let queued = PfcSwitchState {
                        rack: with_queue(self.rack, i, q.enqueue(p)),
                        ..self
                    };
                    if q.enqueue(p).headroom() <= q.link.pause_threshold() {
                        queued.signal_all(true).going_on(seen + queued.signal_all_notes(true, time))
                    } else {
                        queued.going_on(seen)
                    }
                }
            },
        }
    }

    pub open spec fn receive(self, p: Packet, time: Nanos) -> SwitchStep<PfcSwitchState> {
        let awake = PfcSwitchState { active: true, ..self };
        let seen = seq![TraceRecord::Rx { time, node: self.id, packet: p }];
        match p {
            Packet::Pause(from) => awake.obey(from, true, seen),
            Packet::Resume(from) => awake.obey(from, false, seen),
            Packet::Nack { hdr, .. } | Packet::Ack { hdr, .. } | Packet::Data { hdr, .. } => awake.transit(
                p,
                hdr.to,
                time,
                seen,
            ),
        }
    }

    /// The switch after every port has been polled, before any RESUME.
    pub open spec fn swept(self) -> PfcSwitchState {
        PfcSwitchState {
            rack: with_queues(self.rack, all_polled(queues_of(self.rack))),
            core: with_queues(self.core, all_polled(queues_of(self.core))),
            ..self
        }
    }

    /// The switch is polled: every port that takes part sends one packet,
    /// rack ports first. If that frees enough room on any port, the paused
    /// neighbours are released.
    pub open spec fn exec(self, time: Nanos) -> SwitchStep<PfcSwitchState> {
        let events = departures(queues_of(self.rack)) + departures(queues_of(self.core));
        let sent = tx_notes(events, time, self.id);
        if relieved(queues_of(self.rack)) || relieved(queues_of(self.core)) {
            SwitchStep {
                next: self.swept().signal_all(false),
                result: Ok(events),
                trace: sent + self.swept().signal_all_notes(false, time),
            }
        } else {
            SwitchStep { next: self.swept(), result: Ok(events), trace: sent }
        }
    }

    /// The first port that leads where `l` leads is flagged active again;
    /// rack ports are looked at first.
    pub open spec fn reactivate(self, l: Link) -> (PfcSwitchState, Result<(), SimError>) {
        if l.from != self.id {
            (self, Err(SimError::ForeignLink(l.from)))
        } else {
            match egress_towards(queues_of(self.rack), l.to) {
                Some(i) => (
                    PfcSwitchState {
                        rack: with_queue(self.rack, i, self.rack[i].0.with_active(true)),
                        ..self
                    },
                    Ok(()),
                ),
                None => match egress_towards(queues_of(self.core), l.to) {
                    Some(i) => (
                        PfcSwitchState {
                            core: with_queue(self.core, i, self.core[i].0.with_active(true)),
                            ..self
                        },
                        Ok(()),
                    ),
                    None => (self, Err(SimError::NoRoute(l.to))),
                },
            }
        }
    }

    /// The neighbour at node `to` alone is told to pause (or to go on), over
    /// the first port that leads there, unless it has been told already.
    pub open spec fn signal_one(self, to: u32, pause: bool) -> PfcSwitchState {
        match egress_towards(queues_of(self.rack), to) {
            Some(i) => PfcSwitchState {
                rack: self.rack.update(i, signalled_port(self.rack[i], pause, self.id)),
                ..self
            },
            None => match egress_towards(queues_of(self.core), to) {
                Some(i) => PfcSwitchState {
                    core: self.core.update(i, signalled_port(self.core[i], pause, self.id)),
                    ..self
                },
                None => self,
            },
        }
    }

    /// The switch after each of `ingresses` has been released, one after the
    /// other.
    pub open spec fn released(self, ingresses: Seq<u32>) -> PfcSwitchState
        decreases ingresses.len(),
    {
        if ingresses.len() == 0 {
            self
        } else {
            self.released(ingresses.drop_last()).signal_one(ingresses.last(), false)
        }
    }

    /// One `tx` record for each RESUME that goes out as `ingresses` are
    /// released.
    pub open spec fn release_notes(self, ingresses: Seq<u32>, time: Nanos) -> Seq<TraceRecord>
        decreases ingresses.len(),
    {
        if ingresses.len() == 0 {
            Seq::empty()
        } else {
            self.release_notes(ingresses.drop_last(), time) + resume_note(
                self.released(ingresses.drop_last()).would_signal(ingresses.last(), false),
                time,
                self.id,
            )
        }
    }

    /// Whether a signal to the neighbour at node `to` would go out.
    pub open spec fn would_signal(self, to: u32, pause: bool) -> bool {
        match egress_towards(queues_of(self.rack), to) {
            Some(i) => self.rack[i].1 != pause,
            None => match egress_towards(queues_of(self.core), to) {
                Some(i) => self.core[i].1 != pause,
                None => false,
            },
        }
    }
}

/// Ports made of fresh queues: no neighbour is paused.
pub open spec fn fresh_ports(queues: Seq<QueueState>) -> Seq<(QueueState, bool)> {
    queues.map_values(|q: QueueState| (q, false))
}

impl PFCSwitch {
    /// Tells the neighbour at node `to` alone to pause (or to go on), unless
    /// it has been told already. A RESUME that goes out is noted.
    pub fn signal_one(&mut self, to: u32, pause: bool, time: Nanos, trace: &mut Vec<TraceRecord>)
        requires
            old(self).wf(),
        ensures
            final(self).wf(),
            final(self).model() == old(self).model().signal_one(to, pause),
            final(trace)@ == old(trace)@ + resume_note(
                old(self).model().would_signal(to, pause) && !pause,
                time,
                old(self).id,
            ),
    {
        let id: u32 = self.id;
        let ghost before = self.model();
        let ghost trace0 = trace@;
        let frame: Packet = if pause {
            Packet::Pause(id)
        } else {
            Packet::Resume(id)
        };
        match find_port(&self.rack, to) {
            Some(i) => {
                if self.rack[i].1 != pause {
                    if !pause {
                        trace.push(TraceRecord::Tx { time, node: id, packet: frame });
                    }
                    self.rack[i].1 = pause;
                    let _ = self.rack[i].0.force_tx_next(frame);
                }
                proof {
                    let done = signalled_port(before.rack[i as int], pause, id);
                    assert(port_views(self.rack@) =~= before.rack.update(i as int, done));
                    assert(before.rack.update(i as int, done) =~= with_queue(
                        before.rack,
                        i as int,
                        done.0,
                    ).update(i as int, done));
                    assert(queues_of(before.rack)[i as int] == before.rack[i as int].0);
                    lemma_queue_swap_keeps_wf(before.rack, i as int, done.0);
                    assert(queues_of(before.rack.update(i as int, done)) =~= queues_of(
                        with_queue(before.rack, i as int, done.0),
                    ));
                    assert(trace@ =~= trace0 + resume_note(
                        before.would_signal(to, pause) && !pause,
                        time,
                        id,
                    ));
                }
            },
            None => match find_port(&self.core, to) {
                Some(i) => {
                    if self.core[i].1 != pause {
                        if !pause {
                            trace.push(TraceRecord::Tx { time, node: id, packet: frame });
                        }
                        self.core[i].1 = pause;
                        let _ = self.core[i].0.force_tx_next(frame);
                    }
                    proof {
                        let done = signalled_port(before.core[i as int], pause, id);
                        assert(port_views(self.core@) =~= before.core.update(i as int, done));
                        assert(queues_of(before.core)[i as int] == before.core[i as int].0);
                        lemma_queue_swap_keeps_wf(before.core, i as int, done.0);
                        assert(queues_of(before.core.update(i as int, done)) =~= queues_of(
                            with_queue(before.core, i as int, done.0),
                        ));
                        assert(trace@ =~= trace0 + resume_note(
                            before.would_signal(to, pause) && !pause,
                            time,
                            id,
                        ));
                    }
                },
                None => {
                    proof {
                        assert(trace@ =~= trace0 + resume_note(
                            before.would_signal(to, pause) && !pause,
                            time,
                            id,
                        ));
                    }
                },
            },
        }
    }
}

/// Releasing ingresses leaves the switch's id and the number of its ports
/// alone.
pub proof fn lemma_released_keeps_id(s: PfcSwitchState, ingresses: Seq<u32>)
    ensures
        s.released(ingresses).id == s.id,
        s.released(ingresses).active == s.active,
        s.released(ingresses).rack.len() == s.rack.len(),
        s.released(ingresses).core.len() == s.core.len(),
    decreases ingresses.len(),
{
    if ingresses.len() > 0 {
        lemma_released_keeps_id(s, ingresses.drop_last());
    }
}

/// The `tx` record of a RESUME that node `id` sends, if it sends one.
pub open spec fn resume_note(sent: bool, time: Nanos, id: u32) -> Seq<TraceRecord> {
    if sent {
        seq![TraceRecord::Tx { time, node: id, packet: Packet::Resume(id) }]
    } else {
        Seq::empty()
    }
}

impl PFCSwitchFamily for PFCSwitch {

}

impl PFCSwitch {
    /// Tells every neighbour that has not been told yet to stop sending.
    pub fn pause_incoming(&mut self, time: Nanos, trace: &mut Vec<TraceRecord>)
        requires
            old(self).wf(),
        ensures
            final(self).wf(),
            final(self).model() == old(self).model().signal_all(true),
            final(trace)@ == old(trace)@ + old(self).model().signal_all_notes(true, time),
    {
        let id: u32 = self.id;
        signal_ports(&mut self.rack, true, time, id, trace);
        signal_ports(&mut self.core, true, time, id, trace);
    }

    /// Releases every neighbour that has been paused.
    pub fn resume_incoming(&mut self, time: Nanos, trace: &mut Vec<TraceRecord>)
        requires
            old(self).wf(),
        ensures
            final(self).wf(),
            final(self).model() == old(self).model().signal_all(false),
            final(trace)@ == old(trace)@ + old(self).model().signal_all_notes(false, time),
    {
        let id: u32 = self.id;
        signal_ports(&mut self.rack, false, time, id, trace);
        signal_ports(&mut self.core, false, time, id, trace);
    }

    /// Sets the paused flag of the first rack queue whose link starts at
    /// `from`.
    fn obey(&mut self, from: u32, pause: bool) -> (r: Result<Vec<Event>, SimError>)
        requires
            old(self).wf(),
        ensures
            final(self).wf(),
            final(self).model() == old(self).model().obey(from, pause, Seq::empty()).next,
            crate::node::switch::events_of(r) == old(self).model().obey(
                from,
                pause,
                Seq::empty(),
            ).result,
    {
        let ghost before = self.model();
        match find_port_from(&self.rack, from) {
            None => Err(SimError::NoRoute(from)),
            Some(i) => {
                self.rack[i].0.set_paused(pause);
                proof {
                    assert(port_views(self.rack@) =~= with_queue(
                        before.rack,
                        i as int,
                        before.rack[i as int].0.with_paused(pause),
                    ));
                    lemma_queue_swap_keeps_wf(
                        before.rack,
                        i as int,
                        before.rack[i as int].0.with_paused(pause),
                    );
                }
                Ok(Vec::new())
            },
        }
    }
}

/// Replacing the queue of one port by a well-formed queue on a valid link
/// keeps the bank well-formed.
pub proof fn lemma_queue_swap_keeps_wf(ports: Seq<(QueueState, bool)>, i: int, q: QueueState)
    requires
        ports_wf(queues_of(ports)),
        0 <= i < ports.len(),
        q.wf(),
        q.link.valid(),
    ensures
        ports_wf(queues_of(with_queue(ports, i, q))),
{
    let after = queues_of(with_queue(ports, i, q));
    assert forall|j: int| 0 <= j < after.len() implies (#[trigger] after[j]).wf()
        && after[j].link.valid() by {
        if j != i {
            assert(after[j] == queues_of(ports)[j]);
        }
    }
}

impl Switch for PFCSwitch {
    type Model = PfcSwitchState;

    open spec fn model(&self) -> PfcSwitchState {
        PfcSwitchState {
            id: self.id,
            active: self.active,
            rack: port_views(self.rack@),
            core: port_views(self.core@),
        }
    }

    open spec fn wf(&self) -> bool {
        self.model().wf()
    }

    open spec fn model_new(switch_id: u32, queues: Seq<QueueState>) -> PfcSwitchState {
        PfcSwitchState {
            id: switch_id,
            active: false,
            rack: fresh_ports(queues),
            core: Seq::empty(),
        }
    }

    open spec fn model_id(m: PfcSwitchState) -> u32 {
        m.id
    }

    open spec fn model_active(m: PfcSwitchState) -> bool {
        m.active
    }

    open spec fn model_receive(m: PfcSwitchState, p: Packet, l: Link, time: Nanos) -> SwitchStep<
        PfcSwitchState,
    > {
        m.receive(p, time)
    }

    open spec fn model_exec(m: PfcSwitchState, time: Nanos) -> SwitchStep<PfcSwitchState> {
        m.exec(time)
    }

    open spec fn model_reactivate(m: PfcSwitchState, l: Link) -> (
        PfcSwitchState,
        Result<(), SimError>,
    ) {
        m.reactivate(l)
    }

    fn new(switch_id: u32, links: Vec<DropTailQueue>) -> (s: Self) {
        let ghost queues = views(links@);
        let mut rack: Vec<PfcPort> = Vec::new();
        for q in it: links
            invariant
                queues == it.seq().map_values(|q: DropTailQueue| q@),
                rack@.len() == it.index(),
                forall|j: int| 0 <= j < rack@.len() ==> (#[trigger] rack@[j]).0@ == queues[j] && !rack@[j].1,
        {
            rack.push((q, false));
        }
        let s = PFCSwitch { id: switch_id, active: false, rack, core: Vec::new() };
        proof {
            assert(port_views(s.rack@) =~= fresh_ports(queues));
            assert(port_views(s.core@) =~= Seq::<(QueueState, bool)>::empty());
            assert(queues_of(fresh_ports(queues)) =~= queues);
            assert(queues_of(Seq::<(QueueState, bool)>::empty()) =~= Seq::<QueueState>::empty());
        }
        s
    }

    fn id(&self) -> (id: u32) {
        self.id
    }

    fn receive(&mut self, p: Packet, l: Link, time: Nanos, trace: &mut Vec<TraceRecord>) -> (r:
        Result<Vec<Event>, SimError>) {
        self.active = true;
        let id: u32 = self.id;
        trace.push(TraceRecord::Rx { time, node: id, packet: p });
        let ghost awake = self.model();
        let ghost seen = seq![TraceRecord::Rx { time, node: id, packet: p }];
        let ghost trace1 = trace@;
        match p {
            Packet::Pause(from) => self.obey(from, true),
            Packet::Resume(from) => self.obey(from, false),
            Packet::Nack { hdr, .. } | Packet::Ack { hdr, .. } | Packet::Data { hdr, .. } => {
                match find_port(&self.rack, hdr.to) {
                    None => Err(SimError::NoRoute(hdr.to)),
                    Some(i) => {
                        proof {
                            assert(queues_of(awake.rack)[i as int] == awake.rack[i as int].0);
                        }
                        let taken: Option<()> = self.rack[i].0.enqueue(p);
                        if taken.is_none() {
                            trace.push(TraceRecord::Dropping { time, node: id, packet: p });
                            proof {
                                assert(port_views(self.rack@) =~= awake.rack);
                            }
                            return Ok(Vec::new());
                        }
                        proof {
                            assert(port_views(self.rack@) =~= with_queue(
                                awake.rack,
                                i as int,
                                awake.rack[i as int].0.enqueue(p),
                            ));
                            lemma_queue_swap_keeps_wf(
                                awake.rack,
                                i as int,
                                awake.rack[i as int].0.enqueue(p),
                            );
                        }
                        let full: bool = self.rack[i].0.headroom() <= self.rack[i].0.link().pfc_pause_threshold();
                        if full {
                            self.pause_incoming(time, trace);
                            proof {
                                let queued = PfcSwitchState {
                                    rack: with_queue(
                                        awake.rack,
                                        i as int,
                                        awake.rack[i as int].0.enqueue(p),
                                    ),
                                    ..awake
                                };
                                assert(trace@ =~= trace1.drop_last() + (seen
                                    + queued.signal_all_notes(true, time)));
                            }
                        }
                        Ok(Vec::new())
                    },
                }
            },
        }
    }

    fn exec(&mut self, time: Nanos, trace: &mut Vec<TraceRecord>) -> (r: Result<
        Vec<Event>,
        SimError,
    >) {
        let id: u32 = self.id;
        let mut evs: Vec<Event> = Vec::new();
        let ghost before = self.model();
        let ghost trace0 = trace@;
        let rack_room: bool = poll_pfc_ports(&mut self.rack, time, id, &mut evs, trace);
        let core_room: bool = poll_pfc_ports(&mut self.core, time, id, &mut evs, trace);
        proof {
            let a = departures(queues_of(before.rack));
            let b = departures(queues_of(before.core));
            assert(evs@ =~= a + b);
            crate::node::switch::lemma_tx_notes_concat(a, b, time, id);
            assert(trace@ =~= trace0 + tx_notes(a + b, time, id));
            assert(self.model() == before.swept());
        }
        if rack_room || core_room {
            self.resume_incoming(time, trace);
            proof {
                let a = departures(queues_of(before.rack));
                let b = departures(queues_of(before.core));
                assert(trace@ =~= trace0 + (tx_notes(a + b, time, id)
                    + before.swept().signal_all_notes(false, time)));
            }
        }
        Ok(evs)
    }

    fn reactivate(&mut self, l: Link) -> (r: Result<(), SimError>) {
        if l.from != self.id {
            return Err(SimError::ForeignLink(l.from));
        }
        let ghost before = self.model();
        match find_port(&self.rack, l.to) {
            Some(i) => {
                proof {
                    assert(queues_of(before.rack)[i as int] == before.rack[i as int].0);
                }
                self.rack[i].0.set_active(true);
                proof {
                    assert(port_views(self.rack@) =~= with_queue(
                        before.rack,
                        i as int,
                        before.rack[i as int].0.with_active(true),
                    ));
                    lemma_queue_swap_keeps_wf(
                        before.rack,
                        i as int,
                        before.rack[i as int].0.with_active(true),
                    );
                }
                Ok(())
            },
            None => match find_port(&self.core, l.to) {
                Some(i) => {
                    proof {
                        assert(queues_of(before.core)[i as int] == before.core[i as int].0);
                    }
                    self.core[i].0.set_active(true);
                    proof {
                        assert(port_views(self.core@) =~= with_queue(
                            before.core,
                            i as int,
                            before.core[i as int].0.with_active(true),
                        ));
                        lemma_queue_swap_keeps_wf(
                            before.core,
                            i as int,
                            before.core[i as int].0.with_active(true),
                        );
                    }
                    Ok(())
                },
                None => Err(SimError::NoRoute(l.to)),
            },
        }
    }

    fn is_active(&self) -> (a: bool) {
        self.active
    }
}

/// Where packets came in: pairs of a packet and the node at the far end of
/// the link that brought it, in arrival order. A packet is listed once,
/// however often it arrives.
pub type Origins = Seq<(Packet, u32)>;

/// Entry `i` is the first that lists `p`.
pub open spec fn lists(origin: Origins, p: Packet, i: int) -> bool {
    &&& 0 <= i < origin.len()
    &&& origin[i].0 == p
    &&& forall|j: int| 0 <= j < i ==> (#[trigger] origin[j]).0 != p
}

/// The first entry that lists `p`, if any.
pub open spec fn origin_index(origin: Origins, p: Packet) -> Option<int> {
    if exists|i: int| lists(origin, p, i) {
        Some(choose|i: int| lists(origin, p, i))
    } else {
        None
    }
}

/// The table after `p` has come in from `ingress`.
pub open spec fn noted(origin: Origins, p: Packet, ingress: u32) -> Origins {
    if origin_index(origin, p) is Some {
        origin
    } else {
        origin.push((p, ingress))
    }
}

/// The bytes counted against an ingress.
pub open spec fn bytes_from(occupancy: Map<u32, u32>, ingress: u32) -> int {
    if occupancy.contains_key(ingress) {
        occupancy[ingress] as int
    } else {
        0
    }
}

/// Lists `p` as having come in from `ingress`, unless it is listed already.
pub fn note_origin(origin: &mut Vec<(Packet, u32)>, p: Packet, ingress: u32)
    ensures
        final(origin)@ == noted(old(origin)@, p, ingress),
{
    let mut i: usize = 0;
    while i < origin.len()
        invariant
            i <= origin@.len(),
            forall|j: int| 0 <= j < i ==> (#[trigger] origin@[j]).0 != p,
        decreases origin@.len() - i,
    {
        if origin[i].0 == p {
            proof {
                assert(lists(origin@, p, i as int));
            }
            return ;
        }
        i = i + 1;
    }
    proof {
        assert forall|k: int| !lists(origin@, p, k) by {
            if 0 <= k < origin@.len() {
                assert(origin@[k].0 != p);
            }
        }
    }
    origin.push((p, ingress));
}

/// Strikes the first entry that lists `p` and says which ingress it named.
pub fn take_origin(origin: &mut Vec<(Packet, u32)>, p: Packet) -> (ingress: Option<u32>)
    ensures
        match origin_index(old(origin)@, p) {
            Some(k) => ingress == Some(old(origin)@[k].1) && final(origin)@ == old(origin)@.remove(
                k,
            ),
            None => ingress is None && final(origin)@ == old(origin)@,
        },
{
    let mut i: usize = 0;
    while i < origin.len()
        invariant
            i <= origin@.len(),
            origin@ == old(origin)@,
            forall|j: int| 0 <= j < i ==> (#[trigger] origin@[j]).0 != p,
        decreases origin@.len() - i,
    {
        if origin[i].0 == p {
            proof {
                assert(lists(origin@, p, i as int));
                let k = choose|k: int| lists(origin@, p, k);
                if k < i {
                    assert(origin@[k].0 != p);
                } else if i < k {
                    assert(origin@[i as int].0 != p);
                }
            }
            let entry: (Packet, u32) = origin.remove(i);
            return Some(entry.1);
        }
        i = i + 1;
    }
    proof {
        assert forall|k: int| !lists(origin@, p, k) by {
            if 0 <= k < origin@.len() {
                assert(origin@[k].0 != p);
            }
        }
    }
    None
}

/// An equal share, per port, of the bytes by which `headroom` exceeds
/// `reserve`; nothing when it does not.
pub open spec fn share(headroom: int, reserve: int, num_links: int) -> int {
    if headroom > reserve {
        (headroom - reserve) / num_links
    } else {
        0
    }
}

/// Where a sweep over a bank of ports stands.
pub struct Sweep {
    pub ports: Seq<(QueueState, bool)>,
    pub occupancy: Map<u32, u32>,
    pub origin: Origins,
    pub events: Seq<Event>,
    /// The ingresses found to hold less than their share, in the order in
    /// which they were found.
    pub to_resume: Seq<u32>,
    pub failed: Option<SimError>,
}

impl Sweep {
    /// Takes a departing packet off the books. `q` is the port it leaves as
    /// it was before. PAUSE and RESUME were never on the books. For any other
    /// packet the ingress it came through is struck from the table and its
    /// bytes from that ingress's count; if the count is then below the
    /// ingress's share of what the port has free beyond the resume threshold,
    /// the ingress is to be released.
    pub open spec fn settle(self, q: QueueState, pkt: Packet, num_links: int) -> Sweep {
        match pkt {
            Packet::Pause(_) | Packet::Resume(_) => self,
            _ => match origin_index(self.origin, pkt) {
                None => Sweep { failed: Some(SimError::UntrackedPacket(q.link.to)), ..self },
                Some(k) => {
                    let ingress = self.origin[k].1;
                    let struck = Sweep { origin: self.origin.remove(k), ..self };
                    let left = bytes_from(self.occupancy, ingress) - pkt.wire_size();
                    if !self.occupancy.contains_key(ingress) || left < 0 {
                        Sweep { failed: Some(SimError::IngressAccounting(ingress)), ..struck }
                    } else {
                        Sweep {
                            occupancy: self.occupancy.insert(ingress, left as u32),
                            to_resume: if left < share(
                                polled(q).headroom(),
                                q.link.resume_threshold(),
                                num_links,
                            ) {
                                self.to_resume.push(ingress)
                            } else {
                                self.to_resume
                            },
                            ..struck
                        }
                    }
                },
            },
        }
    }

    /// Polls port `k`.
    pub open spec fn poll(self, k: int, num_links: int) -> Sweep {
        let q = self.ports[k].0;
        let moved = Sweep { ports: with_queue(self.ports, k, polled(q)), ..self };
        match departing(q) {
            None => moved,
            Some(pkt) => (Sweep {
                events: self.events.push(Event::NodeTransmit(NodeTransmitEvent(q.link, pkt))),
                ..moved
            }).settle(q, pkt, num_links),
        }
    }

    /// Polls the first `n` ports in order, stopping at the first failure.
    pub open spec fn through(self, n: nat, num_links: int) -> Sweep
        decreases n,
    {
        if n == 0 {
            self
        } else {
            let so_far = self.through((n - 1) as nat, num_links);
            if so_far.failed is Some {
                so_far
            } else {
                so_far.poll(n - 1, num_links)
            }
        }
    }
}

/// Polls every port of a bank in order while keeping the per-ingress books.
/// On failure the sweep stops where it failed.
pub fn sweep_ports(
    ports: &mut Vec<PfcPort>,
    occupancy: &mut HashMap<u32, u32>,
    origin: &mut Vec<(Packet, u32)>,
    to_resume: &mut Vec<u32>,
    num_links: usize,
    time: Nanos,
    node: u32,
    events: &mut Vec<Event>,
    trace: &mut Vec<TraceRecord>,
) -> (r: Result<(), SimError>)
    requires
        ports_wf(queues_of(port_views(old(ports)@))),
        all_valid(old(events)@),
        old(ports)@.len() > 0 ==> num_links > 0,
    ensures
        ({
            let start = Sweep {
                ports: port_views(old(ports)@),
                occupancy: old(occupancy)@,
                origin: old(origin)@,
                events: old(events)@,
                to_resume: old(to_resume)@,
                failed: None,
            };
            let end = start.through(old(ports)@.len(), num_links as int);
            &&& port_views(final(ports)@) == end.ports
            &&& final(occupancy)@ == end.occupancy
            &&& final(origin)@ == end.origin
            &&& final(events)@ == end.events
            &&& final(to_resume)@ == end.to_resume
            &&& match r {
                Ok(()) => end.failed is None,
                Err(e) => end.failed == Some(e),
            }
            &&& final(trace)@ == old(trace)@ + tx_notes(
                end.events.skip(old(events)@.len() as int),
                time,
                node,
            )
            &&& old(events)@.len() <= end.events.len()
            &&& end.events.take(old(events)@.len() as int) == old(events)@
        }),
        ports_wf(queues_of(port_views(final(ports)@))),
        all_valid(final(events)@),
        final(ports)@.len() == old(ports)@.len(),
{
    let ghost start = Sweep {
        ports: port_views(ports@),
        occupancy: occupancy@,
        origin: origin@,
        events: events@,
        to_resume: to_resume@,
        failed: None,
    };
    let ghost n0 = events@.len() as int;
    let ghost trace0 = trace@;
    let ghost total = ports@.len();
    let ghost links = num_links as int;
    let mut i: usize = 0;
    proof {
        assert(events@.skip(n0) =~= Seq::<Event>::empty());
        assert(events@.take(n0) =~= events@);
        assert forall|j: int| 0 <= j < total implies (#[trigger] ports@[j]).0@.wf()
            && ports@[j].0@.link.valid() by {
            assert(queues_of(port_views(ports@))[j] == ports@[j].0@);
        }
    }
    while i < ports.len()
        invariant
            i <= total,
            ports@.len() == total,
            links == num_links,
            total > 0 ==> num_links > 0,
            total == old(ports)@.len(),
            n0 == old(events)@.len(),
            trace0 == old(trace)@,
            start == (Sweep {
                ports: port_views(old(ports)@),
                occupancy: old(occupancy)@,
                origin: old(origin)@,
                events: old(events)@,
                to_resume: old(to_resume)@,
                failed: None,
            }),
            start.ports.len() == total,
            start.failed is None,
            start.through(i as nat, links) == (Sweep {
                ports: port_views(ports@),
                occupancy: occupancy@,
                origin: origin@,
                events: events@,
                to_resume: to_resume@,
                failed: None,
            }),
            forall|j: int| i <= j < total ==> (#[trigger] ports@[j]).0@ == start.ports[j].0,
            forall|j: int|
                0 <= j < total ==> (#[trigger] ports@[j]).0@.wf() && ports@[j].0@.link.valid(),
            n0 <= events@.len(),
            events@.take(n0) == old(events)@,
            all_valid(events@),
            trace@ == trace0 + tx_notes(events@.skip(n0), time, node),
        decreases total - i,
    {
        let ghost so_far = start.through(i as nat, links);
        let ghost here = ports@[i as int].0@;
        let ghost prev = ports@;
        let ghost events1 = events@;
        proof {
            assert(so_far.ports[i as int].0 == here);
            assert(start.through((i + 1) as nat, links) == so_far.poll(i as int, links));
        }
        if ports[i].0.is_active() {
            ports[i].0.set_active(false);
            let out: Option<Packet> = ports[i].0.dequeue();
            proof {
                assert(forall|j: int| 0 <= j < prev.len() && j != i ==> ports@[j] == prev[j]);
                assert(port_views(ports@) =~= with_queue(so_far.ports, i as int, polled(here)));
            }
            if let Some(pkt) = out {
                let link: Link = ports[i].0.link();
                let ev: Event = Event::NodeTransmit(NodeTransmitEvent(link, pkt));
                trace.push(TraceRecord::Tx { time, node, packet: pkt });
                events.push(ev);
                proof {
                    assert(events@ == events1.push(ev));
                    assert(n0 <= events1.len());
                    assert(events@.take(n0) =~= events1.take(n0));
                    assert(events@.skip(n0) =~= events1.skip(n0).push(ev));
                    assert(events1.skip(n0).push(ev).drop_last() =~= events1.skip(n0));
                }
                match pkt {
                    Packet::Pause(_) | Packet::Resume(_) => {},
                    _ => {
                        let came: Option<u32> = take_origin(origin, pkt);
                        match came {
                            None => {
                                proof {
                                    assert(start.through(total as nat, links) == start.through(
                                        (i + 1) as nat,
                                        links,
                                    )) by {
                                        lemma_failed_sweep_stays(
                                            start,
                                            (i + 1) as nat,
                                            total as nat,
                                            links,
                                        );
                                    }
                                    lemma_swap_views_wf(ports@);
                                }
                                return Err(SimError::UntrackedPacket(link.to));
                            },
                            Some(ingress) => {
                                let held: Option<u32> = match occupancy.get(&ingress) {
                                    Some(bytes) => Some(*bytes),
                                    None => None,
                                };
                                let size: u32 = pkt.get_size_bytes();
                                let bytes: u32 = match held {
                                    Some(bytes) => bytes,
                                    None => 0,
                                };
                                if held.is_none() || bytes < size {
                                    proof {
                                        assert(start.through(total as nat, links)
                                            == start.through((i + 1) as nat, links)) by {
                                            lemma_failed_sweep_stays(
                                                start,
                                                (i + 1) as nat,
                                                total as nat,
                                                links,
                                            );
                                        }
                                        lemma_swap_views_wf(ports@);
                                    }
                                    return Err(SimError::IngressAccounting(ingress));
                                }
                                let left: u32 = bytes - size;
                                occupancy.insert(ingress, left);
                                let headroom: u32 = ports[i].0.headroom();
                                let reserve: u32 = link.pfc_resume_threshold();
                                let fair: u64 = if headroom > reserve {
                                    (headroom - reserve) as u64 / (num_links as u64)
                                } else {
                                    0
                                };
                                if (left as u64) < fair {
                                    to_resume.push(ingress);
                                }
                            },
                        }
                    },
                }
            }
        } else {
            proof {
                assert(port_views(ports@) =~= with_queue(so_far.ports, i as int, polled(here)));
            }
        }
        i = i + 1;
    }
    proof {
        lemma_swap_views_wf(ports@);
    }
    Ok(())
}

/// A bank whose queues are each well-formed on a valid link is well-formed.
pub proof fn lemma_swap_views_wf(ports: Seq<PfcPort>)
    requires
        forall|j: int|
            0 <= j < ports.len() ==> (#[trigger] ports[j]).0@.wf() && ports[j].0@.link.valid(),
    ensures
        ports_wf(queues_of(port_views(ports))),
{
    assert forall|j: int| 0 <= j < ports.len() implies (#[trigger] queues_of(
        port_views(ports),
    )[j]).wf() && queues_of(port_views(ports))[j].link.valid() by {
        assert(queues_of(port_views(ports))[j] == ports[j].0@);
    }
}

/// A sweep that has failed goes no further.
pub proof fn lemma_failed_sweep_stays(start: Sweep, n: nat, m: nat, num_links: int)
    requires
        n <= m,
        start.through(n, num_links).failed is Some,
    ensures
        start.through(m, num_links) == start.through(n, num_links),
    decreases m,
{
    if n < m {
        lemma_failed_sweep_stays(start, n, (m - 1) as nat, num_links);
    }
}

/// PFC that looks at where the traffic comes from. The switch keeps count of
/// the bytes it holds from each ingress. An ingress is paused, alone, when its
/// count plus the pause threshold exceeds its equal share of the headroom of
/// the egress queue it has just added to; it is released when its count falls
/// below its share of what an egress queue has free beyond the resume
/// threshold.
pub struct IngressPFCSwitch(PFCSwitch, HashMap<u32, u32>, Vec<(Packet, u32)>);

/// An ingress-PFC switch as a mathematical value.
pub struct IngressPfcState {
    pub pfc: PfcSwitchState,
    /// Bytes held, by the node they came from.
    pub occupancy: Map<u32, u32>,
    pub origin: Origins,
}

impl IngressPfcState {
    /// The ports are well-formed, and where there is any port there is a
    /// rack port: shares are counted per rack port.
    pub open spec fn wf(self) -> bool {
        self.pfc.wf() && (self.pfc.core.len() > 0 ==> self.pfc.rack.len() > 0)
    }

    pub open spec fn stopping(self, e: SimError, trace: Seq<TraceRecord>) -> SwitchStep<
        IngressPfcState,
    > {
        SwitchStep { next: self, result: Err(e), trace }
    }

    pub open spec fn going_on(self, trace: Seq<TraceRecord>) -> SwitchStep<IngressPfcState> {
        SwitchStep { next: self, result: Ok(Seq::empty()), trace }
    }

    /// What the plain PFC switch inside does, carried over.
    pub open spec fn lift(self, step: SwitchStep<PfcSwitchState>) -> SwitchStep<IngressPfcState> {
        SwitchStep {
            next: IngressPfcState { pfc: step.next, ..self },
            result: step.result,
            trace: step.trace,
        }
    }

    /// A packet in transit came in over link `l`. It is queued towards its
    /// destination or dropped. Once queued it is entered in the books, and
    /// the ingress is paused if it now holds more than its share.
    pub open spec fn transit(self, p: Packet, to: u32, l: Link, time: Nanos) -> SwitchStep<
        IngressPfcState,
    > {
        let awake = IngressPfcState { pfc: PfcSwitchState { active: true, ..self.pfc }, ..self };
        let rack = self.pfc.rack;
        match egress_towards(queues_of(rack), to) {
            None => awake.stopping(SimError::NoRoute(to), Seq::empty()),
            Some(i) => {
                let q = rack[i].0;
                if !q.admits(p) {
                    awake.going_on(
                        seq![TraceRecord::Dropping { time, node: self.pfc.id, packet: p }],
                    )
                } else {
                    let held = bytes_from(self.occupancy, l.from) + p.wire_size();
                    let listed = IngressPfcState {
                        pfc: PfcSwitchState { rack: with_queue(rack, i, q.enqueue(p)), ..awake.pfc },
                        origin: noted(self.origin, p, l.from),
                        ..awake
                    };
                    if held > u32::MAX {
                        listed.stopping(SimError::IngressAccounting(l.from), Seq::empty())
                    } else {
                        let counted = IngressPfcState {
                            occupancy: self.occupancy.insert(l.from, held as u32),
                            ..listed
                        };
                        if held + q.link.pause_threshold() > q.enqueue(p).headroom() / (
                        rack.len() as int) {
                            (IngressPfcState {
                                pfc: counted.pfc.signal_one(l.from, true),
                                ..counted
                            }).going_on(Seq::empty())
                        } else {
                            counted.going_on(Seq::empty())
                        }
                    }
                }
            },
        }
    }

    pub open spec fn receive(self, p: Packet, l: Link, time: Nanos) -> SwitchStep<IngressPfcState> {
        match p {
            Packet::Pause(_) | Packet::Resume(_) => self.lift(self.pfc.receive(p, time)),
            Packet::Nack { hdr, .. } | Packet::Ack { hdr, .. } | Packet::Data { hdr, .. } => self.transit(
                p,
                hdr.to,
                l,
                time,
            ),
        }
    }

    /// The sweep over the rack ports.
    pub open spec fn rack_sweep(self) -> Sweep {
        (Sweep {
            ports: self.pfc.rack,
            occupancy: self.occupancy,
            origin: self.origin,
            events: Seq::empty(),
            to_resume: Seq::empty(),
            failed: None,
        }).through(self.pfc.rack.len(), self.pfc.rack.len() as int)
    }

    /// The sweep over the core ports, which takes up where the rack sweep
    /// ended.
    pub open spec fn core_sweep(self) -> Sweep {
        (Sweep { ports: self.pfc.core, ..self.rack_sweep() }).through(
            self.pfc.core.len(),
            self.pfc.rack.len() as int,
        )
    }

    /// The switch is polled: every port that takes part sends one packet,
    /// rack ports first, and each packet is taken off the books. Then every
    /// ingress found to hold less than its share is released, if it was
    /// paused. A failure of the books stops the sweep and the run.
    pub open spec fn exec(self, time: Nanos) -> SwitchStep<IngressPfcState> {
        let id = self.pfc.id;
        let first = self.rack_sweep();
        let second = self.core_sweep();
        if first.failed is Some {
            SwitchStep {
                next: IngressPfcState {
                    pfc: PfcSwitchState { rack: first.ports, ..self.pfc },
                    occupancy: first.occupancy,
                    origin: first.origin,
                },
                result: Err(first.failed->0),
                trace: tx_notes(first.events, time, id),
            }
        } else {
            let polled = IngressPfcState {
                pfc: PfcSwitchState { rack: first.ports, core: second.ports, ..self.pfc },
                occupancy: second.occupancy,
                origin: second.origin,
            };
            let sent = tx_notes(second.events, time, id);
            if second.failed is Some {
                SwitchStep { next: polled, result: Err(second.failed->0), trace: sent }
            } else {
                SwitchStep {
                    next: IngressPfcState {
                        pfc: polled.pfc.released(second.to_resume),
                        ..polled
                    },
                    result: Ok(second.events),
                    trace: sent + polled.pfc.release_notes(second.to_resume, time),
                }
            }
        }
    }
}

impl PFCSwitchFamily for IngressPFCSwitch {

}

impl Switch for IngressPFCSwitch {
    type Model = IngressPfcState;

    closed spec fn model(&self) -> IngressPfcState {
        IngressPfcState { pfc: self.0.model(), occupancy: self.1@, origin: self.2@ }
    }

    open spec fn wf(&self) -> bool {
        self.model().wf()
    }

    open spec fn model_new(switch_id: u32, queues: Seq<QueueState>) -> IngressPfcState {
        IngressPfcState {
            pfc: PFCSwitch::model_new(switch_id, queues),
            occupancy: Map::empty(),
            origin: Seq::empty(),
        }
    }

    open spec fn model_id(m: IngressPfcState) -> u32 {
        m.pfc.id
    }

    open spec fn model_active(m: IngressPfcState) -> bool {
        m.pfc.active
    }

    open spec fn model_receive(m: IngressPfcState, p: Packet, l: Link, time: Nanos) -> SwitchStep<
        IngressPfcState,
    > {
        m.receive(p, l, time)
    }

    open spec fn model_exec(m: IngressPfcState, time: Nanos) -> SwitchStep<IngressPfcState> {
        m.exec(time)
    }

    open spec fn model_reactivate(m: IngressPfcState, l: Link) -> (
        IngressPfcState,
        Result<(), SimError>,
    ) {
        (IngressPfcState { pfc: m.pfc.reactivate(l).0, ..m }, m.pfc.reactivate(l).1)
    }

    fn new(switch_id: u32, links: Vec<DropTailQueue>) -> (s: Self) {
        IngressPFCSwitch(PFCSwitch::new(switch_id, links), HashMap::new(), Vec::new())
    }

    fn id(&self) -> (id: u32) {
        self.0.id()
    }

    fn receive(&mut self, p: Packet, l: Link, time: Nanos, trace: &mut Vec<TraceRecord>) -> (r:
        Result<Vec<Event>, SimError>) {
        match p {
            Packet::Pause(_) | Packet::Resume(_) => self.0.receive(p, l, time, trace),
            Packet::Nack { hdr, .. } | Packet::Ack { hdr, .. } | Packet::Data { hdr, .. } => {
                let ghost before = self.model();
                let id: u32 = self.0.id;
                self.0.active = true;
                let num_links: usize = self.0.rack.len();
                match find_port(&self.0.rack, hdr.to) {
                    None => Err(SimError::NoRoute(hdr.to)),
                    Some(i) => {
                        proof {
                            assert(queues_of(before.pfc.rack)[i as int] == before.pfc.rack[i as int].0);
                        }
                        let ghost q = before.pfc.rack[i as int].0;
                        let taken: Option<()> = self.0.rack[i].0.enqueue(p);
                        if taken.is_none() {
                            trace.push(TraceRecord::Dropping { time, node: id, packet: p });
                            proof {
                                assert(port_views(self.0.rack@) =~= before.pfc.rack);
                            }
                            return Ok(Vec::new());
                        }
                        proof {
                            assert(port_views(self.0.rack@) =~= with_queue(
                                before.pfc.rack,
                                i as int,
                                q.enqueue(p),
                            ));
                            lemma_queue_swap_keeps_wf(before.pfc.rack, i as int, q.enqueue(p));
                        }
                        note_origin(&mut self.2, p, l.from);
                        let held: Option<u32> = match self.1.get(&l.from) {
                            Some(bytes) => Some(*bytes),
                            None => None,
                        };
                        let bytes: u32 = match held {
                            Some(bytes) => bytes,
                            None => 0,
                        };
                        let size: u32 = p.get_size_bytes();
                        if size > 0xffff_ffff - bytes {
                            return Err(SimError::IngressAccounting(l.from));
                        }
                        let virtual_ingress_queue_occupancy: u32 = bytes + size;
                        self.1.insert(l.from, virtual_ingress_queue_occupancy);
                        let headroom: u32 = self.0.rack[i].0.headroom();
                        let threshold: u32 = self.0.rack[i].0.link().pfc_pause_threshold();
                        let per_ingress_static_pfc_thresh: u64 = headroom as u64 / (
                        num_links as u64);
                        if virtual_ingress_queue_occupancy as u64 + threshold as u64
                            > per_ingress_static_pfc_thresh {
                            let ghost trace1 = trace@;
                            self.0.signal_one(l.from, true, time, trace);
                            proof {
                                assert(trace@ =~= trace1);
                            }
                        }
                        proof {
                            assert(trace@ =~= old(trace)@ + Seq::<TraceRecord>::empty());
                        }
                        Ok(Vec::new())
                    },
                }
            },
        }
    }

    fn exec(&mut self, time: Nanos, trace: &mut Vec<TraceRecord>) -> (r: Result<
        Vec<Event>,
        SimError,
    >) {
        let id: u32 = self.0.id;
        let ghost before = self.model();
        let ghost trace0 = trace@;
        let num_links: usize = self.0.rack.len();
        let mut queue_to_resume: Vec<u32> = Vec::new();
        let mut evs: Vec<Event> = Vec::new();
        let swept: Result<(), SimError> = sweep_ports(
            &mut self.0.rack,
            &mut self.1,
            &mut self.2,
            &mut queue_to_resume,
            num_links,
            time,
            id,
            &mut evs,
            trace,
        );
        let ghost first = before.rack_sweep();
        proof {
            assert(first.events.skip(0) =~= first.events);
        }
        if let Err(e) = swept {
            return Err(e);
        }
        let swept: Result<(), SimError> = sweep_ports(
            &mut self.0.core,
            &mut self.1,
            &mut self.2,
            &mut queue_to_resume,
            num_links,
            time,
            id,
            &mut evs,
            trace,
        );
        let ghost second = before.core_sweep();
        proof {
            let n = first.events.len() as int;
            assert(second.events =~= first.events + second.events.skip(n)) by {
                assert(second.events.take(n) == first.events);
                assert(second.events =~= second.events.take(n) + second.events.skip(n));
            }
            crate::node::switch::lemma_tx_notes_concat(first.events, second.events.skip(n), time, id);
            assert(trace@ =~= trace0 + tx_notes(second.events, time, id));
        }
        if let Err(e) = swept {
            return Err(e);
        }
        let ghost polled = self.model();
        let ghost sent = trace@;
        let mut k: usize = 0;
        proof {
            assert(queue_to_resume@.take(0) =~= Seq::<u32>::empty());
            assert(trace@ =~= sent + polled.pfc.release_notes(queue_to_resume@.take(0), time));
        }
        while k < queue_to_resume.len()
            invariant
                k <= queue_to_resume@.len(),
                self.wf(),
                self.model() == (IngressPfcState {
                    pfc: polled.pfc.released(queue_to_resume@.take(k as int)),
                    ..polled
                }),
                trace@ == sent + polled.pfc.release_notes(queue_to_resume@.take(k as int), time),
                polled.pfc.id == id,
            decreases queue_to_resume@.len() - k,
        {
            proof {
                assert(queue_to_resume@.take(k + 1).drop_last() =~= queue_to_resume@.take(k as int));
                lemma_released_keeps_id(polled.pfc, queue_to_resume@.take(k as int));
            }
            let ghost trace2 = trace@;
            self.0.signal_one(queue_to_resume[k], false, time, trace);
            proof {
                assert(trace@ =~= sent + polled.pfc.release_notes(
                    queue_to_resume@.take(k + 1),
                    time,
                ));
            }
            k = k + 1;
        }
        proof {
            assert(queue_to_resume@.take(k as int) =~= queue_to_resume@);
            lemma_released_keeps_id(polled.pfc, queue_to_resume@);
            assert(trace@ =~= trace0 + (tx_notes(second.events, time, id)
                + polled.pfc.release_notes(queue_to_resume@, time)));
        }
        Ok(evs)
    }

    fn reactivate(&mut self, l: Link) -> (r: Result<(), SimError>) {
        self.0.reactivate(l)
    }

    fn is_active(&self) -> (a: bool) {
        self.0.is_active()
    }
}

/// A pause takes no hold while a port stands idle: when the switch is
/// polled and a rack port that takes part holds nothing but a forced head,
/// on a queue whose limit lies above its link's resume threshold, then after
/// the poll no neighbour is paused. So the poll that sends a PAUSE out on
/// such a port is also the one that lifts it.
pub proof fn lemma_idle_port_lifts_pause(s: PfcSwitchState, k: int, time: Nanos)
    requires
        0 <= k < s.rack.len(),
        s.rack[k].0.forced_next is Some,
        s.rack[k].0.pkts.len() == 0,
        s.rack[k].0.is_active(),
        s.rack[k].0.limit_bytes > s.rack[k].0.link.resume_threshold(),
    ensures
        forall|j: int| 0 <= j < s.rack.len() ==> !(#[trigger] s.exec(time).next.rack[j]).1,
        forall|j: int| 0 <= j < s.core.len() ==> !(#[trigger] s.exec(time).next.core[j]).1,
        s.exec(time).next.rack.len() == s.rack.len(),
        s.exec(time).next.core.len() == s.core.len(),
{
    let q = s.rack[k].0;
    assert(queues_of(s.rack)[k] == q);
    assert(departing(q) is Some);
    assert(polled(q).pkts =~= Seq::<Packet>::empty());
    assert(crate::node::switch::total_bytes(polled(q).pkts) == 0);
    assert(relieved_at(queues_of(s.rack)[k]));
    assert(relieved(queues_of(s.rack)));
}

} // verus!
