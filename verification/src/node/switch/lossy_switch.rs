//! A switch that drops what does not fit, and tells nobody.

use vstd::prelude::*;
use crate::Nanos;
use crate::error::SimError;
use crate::event::Event;
use crate::node::Link;
use crate::node::switch::{
    Queue, QueueState, Switch, SwitchStep, all_polled, departures, drop_note, egress_towards,
    find_egress, forwarded, poll_ports, ports_wf, views,
};
use crate::node::switch::drop_tail_queue::DropTailQueue;
use crate::packet::Packet;
use crate::trace::TraceRecord;

verus! {

/// Output-queued forwarding with drop-tail queues. PFC is off: PAUSE and
/// RESUME are ignored.
pub struct LossySwitch {
    pub id: u32,
    pub active: bool,
    pub rack: Vec<DropTailQueue>,
    pub core: Vec<DropTailQueue>,
}

/// A lossy switch as a mathematical value.
pub struct LossySwitchState {
    pub id: u32,
    pub active: bool,
    pub rack: Seq<QueueState>,
    pub core: Seq<QueueState>,
}

impl LossySwitchState {
    pub open spec fn wf(self) -> bool {
        ports_wf(self.rack) && ports_wf(self.core)
    }

    /// A packet arrives: the switch wakes up. Data, ACKs and NACKs are queued
    /// on the first rack port that leads to their destination, or dropped
    /// with a record if the queue has no room.
    pub open spec fn receive(self, p: Packet, time: Nanos) -> SwitchStep<LossySwitchState> {
        let awake = LossySwitchState { active: true, ..self };
        match p.header() {
            None => SwitchStep { next: awake, result: Ok(Seq::empty()), trace: Seq::empty() },
            Some(hdr) => match egress_towards(self.rack, hdr.to) {
                None => SwitchStep {
                    next: awake,
                    result: Err(SimError::NoRoute(hdr.to)),
                    trace: Seq::empty(),
                },
                Some(i) => SwitchStep {
                    next: LossySwitchState { rack: forwarded(self.rack, i, p), ..awake },
                    result: Ok(Seq::empty()),
                    trace: drop_note(self.rack, i, p, time, self.id),
                },
            },
        }
    }

    /// The switch is polled: every port that takes part sends one packet,
    /// rack ports first.
    pub open spec fn exec(self, time: Nanos) -> SwitchStep<LossySwitchState> {
        SwitchStep {
            next: LossySwitchState {
                rack: all_polled(self.rack),
                core: all_polled(self.core),
                ..self
            },
            result: Ok(departures(self.rack) + departures(self.core)),
            trace: Seq::empty(),
        }
    }

    /// The first port that leads where `l` leads is flagged active again;
    /// rack ports are looked at first.
    pub open spec fn reactivate(self, l: Link) -> (LossySwitchState, Result<(), SimError>) {
        if l.from != self.id {
            (self, Err(SimError::ForeignLink(l.from)))
        } else {
            match egress_towards(self.rack, l.to) {
                Some(i) => (
                    LossySwitchState {
                        rack: self.rack.update(i, self.rack[i].with_active(true)),
                        ..self
                    },
                    Ok(()),
                ),
                None => match egress_towards(self.core, l.to) {
                    Some(i) => (
                        LossySwitchState {
                            core: self.core.update(i, self.core[i].with_active(true)),
                            ..self
                        },
                        Ok(()),
                    ),
                    None => (self, Err(SimError::NoRoute(l.to))),
                },
            }
        }
    }
}

impl Switch for LossySwitch {
    type Model = LossySwitchState;

    open spec fn model(&self) -> LossySwitchState {
        LossySwitchState {
            id: self.id,
            active: self.active,
            rack: views(self.rack@),
            core: views(self.core@),
        }
    }

    open spec fn wf(&self) -> bool {
        self.model().wf()
    }

    open spec fn model_new(switch_id: u32, queues: Seq<QueueState>) -> LossySwitchState {
        LossySwitchState { id: switch_id, active: false, rack: queues, core: Seq::empty() }
    }

    open spec fn model_id(m: LossySwitchState) -> u32 {
        m.id
    }

    open spec fn model_active(m: LossySwitchState) -> bool {
        m.active
    }

    open spec fn model_receive(m: LossySwitchState, p: Packet, l: Link, time: Nanos) -> SwitchStep<
        LossySwitchState,
    > {
        m.receive(p, time)
    }

    open spec fn model_exec(m: LossySwitchState, time: Nanos) -> SwitchStep<LossySwitchState> {
        m.exec(time)
    }

    open spec fn model_reactivate(m: LossySwitchState, l: Link) -> (
        LossySwitchState,
        Result<(), SimError>,
    ) {
        m.reactivate(l)
    }

    fn new(switch_id: u32, links: Vec<DropTailQueue>) -> (s: Self) {
        let s = LossySwitch { id: switch_id, active: false, rack: links, core: Vec::new() };
        proof {
            assert(views(s.core@) =~= Seq::<QueueState>::empty());
        }
        s
    }

    fn id(&self) -> (id: u32) {
        self.id
    }

    fn receive(&mut self, p: Packet, l: Link, time: Nanos, trace: &mut Vec<TraceRecord>) -> (r:
        Result<Vec<Event>, SimError>) {
        self.active = true;
        let id: u32 = self.id;
        let ghost before = self.model();
        let ghost trace0 = trace@;
        match p {
            Packet::Pause(_) | Packet::Resume(_) => {
                proof {
                    assert(trace@ =~= trace0 + Seq::<TraceRecord>::empty());
                }
                Ok(Vec::new())
            },
            Packet::Nack { hdr, .. } | Packet::Ack { hdr, .. } | Packet::Data { hdr, .. } => {
                match find_egress(&self.rack, hdr.to) {
                    None => {
                        proof {
                            assert(trace@ =~= trace0 + Seq::<TraceRecord>::empty());
                        }
                        Err(SimError::NoRoute(hdr.to))
                    },
                    Some(i) => {
                        let taken: Option<()> = self.rack[i].enqueue(p);
                        if taken.is_none() {
                            trace.push(TraceRecord::Dropping { time, node: id, packet: p });
                        }
                        proof {
                            assert(views(self.rack@) =~= forwarded(before.rack, i as int, p));
                            assert(trace@ =~= trace0 + drop_note(before.rack, i as int, p, time, id));
                        }
                        Ok(Vec::new())
                    },
                }
            },
        }
    }

    fn exec(&mut self, time: Nanos, trace: &mut Vec<TraceRecord>) -> (r: Result<
        Vec<Event>,
        SimError,
    >) {
        let id: u32 = self.id;
        let mut evs: Vec<Event> = Vec::new();
        let ghost before = self.model();
        let ghost trace0 = trace@;
        poll_ports(&mut self.rack, time, id, false, &mut evs, trace);
        poll_ports(&mut self.core, time, id, false, &mut evs, trace);
        proof {
            assert(evs@ =~= departures(before.rack) + departures(before.core));
            assert(trace@ =~= trace0 + Seq::<TraceRecord>::empty());
        }
        Ok(evs)
    }

    fn reactivate(&mut self, l: Link) -> (r: Result<(), SimError>) {
        if l.from != self.id {
            return Err(SimError::ForeignLink(l.from));
        }
        let ghost before = self.model();
        match find_egress(&self.rack, l.to) {
            Some(i) => {
                self.rack[i].set_active(true);
                proof {
                    assert(views(self.rack@) =~= before.rack.update(
                        i as int,
                        before.rack[i as int].with_active(true),
                    ));
                }
                Ok(())
            },
            None => match find_egress(&self.core, l.to) {
                Some(i) => {
                    self.core[i].set_active(true);
                    proof {
                        assert(views(self.core@) =~= before.core.update(
                            i as int,
                            before.core[i as int].with_active(true),
                        ));
                    }
                    Ok(())
                },
                None => Err(SimError::NoRoute(l.to)),
            },
        }
    }

    fn is_active(&self) -> (a: bool) {
        self.active
    }
}

} // verus!
