//! Events and the executor that fires them in time order.
//!
//! One event covers what a single node does at a single instant. Firing an
//! event may yield further events.

use vstd::prelude::*;
use crate::Nanos;
use crate::congcontrol::CongAlg;
use crate::error::SimError;
use crate::flow::{Flow, FlowArrivalEvent};
use crate::flow::go_back_n::{GoBackN, GoBackNReceiver, GoBackNSender};
use crate::node::{LinkTransmitEvent, NodeTransmitEvent};
use crate::node::switch::{Switch, events_of};
use crate::node::switch::lossy_switch::LossySwitch;
use crate::node::switch::nack_switch::NackSwitch;
use crate::node::switch::pfc_switch::{IngressPFCSwitch, PFCSwitch};
use crate::node::switch::yields_valid;
use crate::topology::{NodeStep, Topology, TopologyNode, TopologyState, nodes_of, resolved, slots};
use crate::trace::TraceRecord;

verus! {

/// When an event fires: at a fixed instant, or a while after it is scheduled.
#[derive(Clone, Copy, Debug, PartialEq, Eq, Structural)]
pub enum EventTime {
    Absolute(Nanos),
    Delta(Nanos),
}

impl EventTime {
    /// The instant meant when the event is scheduled at `now`.
    pub open spec fn resolve(self, now: Nanos) -> int {
        match self {
            EventTime::Absolute(t) => t as int,
            EventTime::Delta(t) => now + t,
        }
    }
}

/// The three kinds of event.
#[derive(Clone, Copy, Debug, PartialEq, Eq, Structural)]
pub enum Event {
    FlowArrival(FlowArrivalEvent),
    NodeTransmit(NodeTransmitEvent),
    LinkTransmit(LinkTransmitEvent),
}

impl Event {
    /// An event can be scheduled and fired when what it carries is valid.
    pub open spec fn valid(self) -> bool {
        match self {
            Event::FlowArrival(ev) => ev.0.valid(),
            Event::NodeTransmit(ev) => ev.valid(),
            Event::LinkTransmit(ev) => ev.1.valid(),
        }
    }

    /// When the event fires.
    pub open spec fn fire_time(self) -> EventTime {
        match self {
            Event::FlowArrival(ev) => EventTime::Absolute(ev.1),
            Event::NodeTransmit(ev) => EventTime::Delta(ev.delay() as u64),
            Event::LinkTransmit(ev) => EventTime::Delta(ev.0.propagation_delay),
        }
    }

    /// The nodes that the event touches, in the order in which it wants them.
    pub open spec fn node_ids(self) -> Seq<u32> {
        match self {
            Event::FlowArrival(ev) => seq![ev.0.sender_id, ev.0.dest_id],
            Event::NodeTransmit(ev) => seq![ev.0.from],
            Event::LinkTransmit(ev) => seq![ev.0.to],
        }
    }

    pub fn time(&self) -> (t: EventTime)
        requires
            self.valid(),
        ensures
            t == self.fire_time(),
    {
        match self {
            Event::FlowArrival(ev) => ev.time(),
            Event::NodeTransmit(ev) => ev.time(),
            Event::LinkTransmit(ev) => ev.time(),
        }
    }

    pub fn affected_node_ids(&self) -> (ids: Vec<u32>)
        ensures
            ids@ == self.node_ids(),
    {
        match self {
            Event::FlowArrival(ev) => ev.affected_node_ids(),
            Event::NodeTransmit(ev) => ev.affected_node_ids(),
            Event::LinkTransmit(ev) => ev.affected_node_ids(),
        }
    }
}

/// Whether every event of a sequence is valid.
pub open spec fn all_valid(events: Seq<Event>) -> bool {
    forall|i: int| 0 <= i < events.len() ==> (#[trigger] events[i]).valid()
}

/// The most steps that a run may take.
pub const MAX_STEPS: u64 = 0xffff_ffff_ffff_ffff;

/// An event with the instant at which it fires.
#[derive(Clone, Copy, Debug)]
struct EventContainer(Event, Nanos);

/// Entry `i` fires first: no entry fires before it, and those that were
/// scheduled before it fire later.
pub open spec fn fires_first(events: Seq<(Event, Nanos)>, i: int) -> bool {
    &&& 0 <= i < events.len()
    &&& forall|j: int| 0 <= j < events.len() ==> (#[trigger] events[j]).1 >= events[i].1
    &&& forall|j: int| 0 <= j < i ==> (#[trigger] events[j]).1 > events[i].1
}

/// The entry that fires first, if there is any entry.
pub open spec fn earliest(events: Seq<(Event, Nanos)>) -> Option<int> {
    if exists|i: int| fires_first(events, i) {
        Some(choose|i: int| fires_first(events, i))
    } else {
        None
    }
}

/// Only one entry fires first.
pub proof fn lemma_fires_first_unique(events: Seq<(Event, Nanos)>, i: int)
    requires
        fires_first(events, i),
    ensures
        earliest(events) == Some(i),
{
    let k = choose|k: int| fires_first(events, k);
    if k < i {
        assert(events[k].1 > events[i].1);
        assert(events[i].1 >= events[k].1);
    } else if i < k {
        assert(events[i].1 > events[k].1);
        assert(events[k].1 >= events[i].1);
    }
}

/// Where there is an entry, one fires first.
pub proof fn lemma_some_entry_fires_first(events: Seq<(Event, Nanos)>)
    requires
        events.len() > 0,
    ensures
        earliest(events) is Some,
    decreases events.len(),
{
    if events.len() == 1 {
        assert(fires_first(events, 0));
    } else {
        let head = events.drop_last();
        lemma_some_entry_fires_first(head);
        let k = earliest(head)->0;
        assert(fires_first(head, k));
        if events.last().1 < head[k].1 {
            assert forall|j: int| 0 <= j < events.len() implies (#[trigger] events[j]).1
                >= events.last().1 by {
                if j < head.len() {
                    assert(head[j].1 >= head[k].1);
                }
            }
            assert forall|j: int| 0 <= j < events.len() - 1 implies (#[trigger] events[j]).1
                > events.last().1 by {
                assert(head[j].1 >= head[k].1);
            }
            assert(fires_first(events, events.len() - 1));
        } else {
            assert forall|j: int| 0 <= j < events.len() implies (#[trigger] events[j]).1
                >= events[k].1 by {
                if j < head.len() {
                    assert(head[j].1 >= head[k].1);
                }
            }
            assert forall|j: int| 0 <= j < k implies (#[trigger] events[j]).1 > events[k].1 by {
                assert(head[j].1 > head[k].1);
            }
            assert(fires_first(events, k));
        }
    }
}

/// An executor as a mathematical value: the events that wait with their fire
/// times, in the order in which they were scheduled; the clock; the nodes;
/// and the trace so far.
pub struct ExecutorState<S: Switch, CC: CongAlg> {
    pub events: Seq<(Event, Nanos)>,
    pub time: Nanos,
    pub topology: TopologyState<S, CC>,
    pub trace: Seq<TraceRecord>,
}

impl<S: Switch, CC: CongAlg> ExecutorState<S, CC> {
    /// No event waits to fire before now.
    pub open spec fn timely(self) -> bool {
        forall|i: int| 0 <= i < self.events.len() ==> (#[trigger] self.events[i]).1 >= self.time
    }

    pub open spec fn events_valid(self) -> bool {
        forall|i: int| 0 <= i < self.events.len() ==> (#[trigger] self.events[i]).0.valid()
    }

    /// Every slot of the topology, hosts first.
    pub open spec fn nodes(self) -> Seq<TopologyNode> {
        slots(self.topology.hosts.len(), self.topology.switches.len())
    }

    /// The executor with `ev` scheduled from now, unless its fire time does
    /// not fit in the clock or lies in the past.
    pub open spec fn scheduled(self, ev: Event) -> Result<Self, SimError> {
        let at = ev.fire_time().resolve(self.time);
        if at > u64::MAX {
            Err(SimError::TimeOverflow)
        } else if at < self.time {
            Err(SimError::PastEvent)
        } else {
            Ok(ExecutorState { events: self.events.push((ev, at as u64)), ..self })
        }
    }

    /// The executor with each of `evs` scheduled from now, in order.
    pub open spec fn scheduled_all(self, evs: Seq<Event>) -> Result<Self, SimError>
        decreases evs.len(),
    {
        if evs.len() == 0 {
            Ok(self)
        } else {
            match self.scheduled_all(evs.drop_last()) {
                Ok(s) => s.scheduled(evs.last()),
                Err(e) => Err(e),
            }
        }
    }

    /// One node's turn in a poll phase. A node that is not active is passed
    /// over. An active node is polled and what it yields is scheduled. A
    /// host with nothing to send is no failure; any other error ends the
    /// run.
    pub open spec fn polled_node(self, node: TopologyNode) -> Result<Self, SimError> {
        if !self.topology.is_active(node) {
            Ok(self)
        } else {
            let step = self.topology.exec(node, self.time);
            let after = ExecutorState {
                topology: step.next,
                trace: self.trace + step.trace,
                ..self
            };
            match step.result {
                Ok(evs) => after.scheduled_all(evs),
                Err(SimError::NoPendingPackets) => Ok(after),
                Err(e) => Err(e),
            }
        }
    }

    /// The turns of `nodes`, one after the other.
    pub open spec fn polled_through(self, nodes: Seq<TopologyNode>) -> Result<Self, SimError>
        decreases nodes.len(),
    {
        if nodes.len() == 0 {
            Ok(self)
        } else {
            match self.polled_through(nodes.drop_last()) {
                Ok(s) => s.polled_node(nodes.last()),
                Err(e) => Err(e),
            }
        }
    }

    /// A poll phase: every node has its turn, hosts first, in slot order.
    pub open spec fn polled(self) -> Result<Self, SimError> {
        self.polled_through(self.nodes())
    }

    /// What firing `ev` now does to the nodes `nodes` that it touches: the
    /// nodes change, the trace grows, and what the event yields is scheduled.
    pub open spec fn effect(self, ev: Event, nodes: Seq<TopologyNode>) -> Result<Self, SimError> {
        let outcome = ev.outcome(self.topology, nodes, self.time);
        match outcome.result {
            Err(e) => Err(e),
            Ok(evs) => (ExecutorState {
                topology: outcome.next,
                trace: self.trace + outcome.trace,
                ..self
            }).scheduled_all(evs),
        }
    }

    /// Firing `ev` now: the nodes it names are looked up, and it acts on
    /// them.
    pub open spec fn fired(self, ev: Event) -> Result<Self, SimError> {
        match resolved(
            ev.node_ids(),
            self.topology.hosts.len(),
            self.topology.switches.len(),
        ) {
            Err(e) => Err(e),
            Ok(nodes) => self.effect(ev, nodes),
        }
    }

    /// The executor about to fire: the event that fires first is taken out
    /// and the clock is set to its fire time.
    pub open spec fn advanced(self) -> (Self, Event) {
        let j = earliest(self.events)->0;
        (
            ExecutorState { events: self.events.remove(j), time: self.events[j].1, ..self },
            self.events[j].0,
        )
    }

    /// One step of the main loop, and whether the run is over.
    ///
    /// With no event waiting, the nodes are polled once more; if still no
    /// event waits the run is over. Otherwise, if the first event fires later
    /// than now, the nodes are polled first; then the event that now fires
    /// first is fired.
    pub open spec fn step(self) -> Result<(Self, bool), SimError> {
        match earliest(self.events) {
            None => match self.polled() {
                Err(e) => Err(e),
                Ok(s) => if s.events.len() == 0 {
                    Ok(
                        (
                            ExecutorState {
                                trace: s.trace.push(TraceRecord::Exiting { time: s.time }),
                                ..s
                            },
                            true,
                        ),
                    )
                } else {
                    Ok((s, false))
                },
            },
            Some(i) => {
                let ready = if self.events[i].1 > self.time {
                    self.polled()
                } else {
                    Ok(self)
                };
                match ready {
                    Err(e) => Err(e),
                    Ok(s) => match s.advanced().0.fired(s.advanced().1) {
                        Err(e) => Err(e),
                        Ok(after) => Ok((after, false)),
                    },
                }
            },
        }
    }

    /// The run from here on, cut off after `fuel` steps.
    pub open spec fn run(self, fuel: nat) -> Result<Self, SimError>
        decreases fuel,
    {
        if fuel == 0 {
            Err(SimError::StepLimit)
        } else {
            match self.step() {
                Err(e) => Err(e),
                Ok((s, true)) => Ok(s),
                Ok((s, false)) => s.run((fuel - 1) as nat),
            }
        }
    }
}

impl Event {
    /// What the event does at `time` to the nodes in the slots `nodes`: the
    /// topology afterwards, the events it yields or the error it stops with,
    /// and the records it adds to the trace.
    ///
    /// A flow arrival installs the sender's half on the first node and the
    /// receiver's half on the second; both must be hosts. A node that has
    /// finished serialising gets its link back, and the packet goes on the
    /// wire. A packet that comes off the wire is handed to the node at the
    /// far end.
    pub open spec fn outcome<S: Switch, CC: CongAlg>(
        self,
        topo: TopologyState<S, CC>,
        nodes: Seq<TopologyNode>,
        time: Nanos,
    ) -> NodeStep<S, CC> {
        match self {
            Event::FlowArrival(arrival) => {
                let fi = arrival.0;
                let at_sender = topo.flow_arrival(
                    nodes[0],
                    fi.sender_id,
                    GoBackN::Sender(GoBackNSender::fresh(fi)),
                );
                let at_dest = at_sender.0.flow_arrival(
                    nodes[1],
                    fi.dest_id,
                    GoBackN::Receiver(GoBackNReceiver::fresh(fi)),
                );
                NodeStep {
                    next: at_dest.0,
                    result: if at_sender.1 is Err {
                        Err(at_sender.1->Err_0)
                    } else if at_dest.1 is Err {
                        Err(at_dest.1->Err_0)
                    } else {
                        Ok(Seq::empty())
                    },
                    trace: Seq::empty(),
                }
            },
            Event::NodeTransmit(tx) => {
                let freed = topo.reactivate(nodes[0], tx.0);
                NodeStep {
                    next: freed.0,
                    result: match freed.1 {
                        Err(e) => Err(e),
                        Ok(()) => Ok(seq![Event::LinkTransmit(LinkTransmitEvent(tx.0, tx.1))]),
                    },
                    trace: Seq::empty(),
                }
            },
            Event::LinkTransmit(arrival) => topo.receive(nodes[0], arrival.1, arrival.0, time),
        }
    }

    /// Fires the event at `time` on the nodes in the slots `nodes`, which
    /// are those that the event names.
    pub fn exec<S: Switch, CC: CongAlg>(
        &self,
        time: Nanos,
        nodes: &Vec<TopologyNode>,
        topology: &mut Topology<S, CC>,
        trace: &mut Vec<TraceRecord>,
    ) -> (r: Result<Vec<Event>, SimError>)
        requires
            self.valid(),
            old(topology).wf(),
            nodes@.len() == self.node_ids().len(),
            forall|k: int| 0 <= k < nodes@.len() ==> old(topology)@.has(#[trigger] nodes@[k]),
        ensures
            final(topology).wf(),
            final(topology).hosts@.len() == old(topology).hosts@.len(),
            final(topology).switches@.len() == old(topology).switches@.len(),
            events_of(r) == self.outcome(old(topology)@, nodes@, time).result,
            r is Ok ==> final(topology)@ == self.outcome(old(topology)@, nodes@, time).next,
            r is Ok ==> final(trace)@ == old(trace)@ + self.outcome(
                old(topology)@,
                nodes@,
                time,
            ).trace,
            yields_valid(events_of(r)),
    {
        match self {
            Event::FlowArrival(arrival) => arrival.exec(time, nodes, topology, trace),
            Event::NodeTransmit(tx) => tx.exec(time, nodes, topology, trace),
            Event::LinkTransmit(arrival) => arrival.exec(time, nodes, topology, trace),
        }
    }
}

impl FlowArrivalEvent {
    /// Installs the sender's half of the flow on the first node and the
    /// receiver's half on the second.
    pub fn exec<S: Switch, CC: CongAlg>(
        &self,
        time: Nanos,
        nodes: &Vec<TopologyNode>,
        topology: &mut Topology<S, CC>,
        trace: &mut Vec<TraceRecord>,
    ) -> (r: Result<Vec<Event>, SimError>)
        requires
            self.0.valid(),
            old(topology).wf(),
            nodes@.len() == 2,
            forall|k: int| 0 <= k < nodes@.len() ==> old(topology)@.has(#[trigger] nodes@[k]),
        ensures
            final(topology).wf(),
            final(topology).hosts@.len() == old(topology).hosts@.len(),
            final(topology).switches@.len() == old(topology).switches@.len(),
            events_of(r) == Event::FlowArrival(*self).outcome(old(topology)@, nodes@, time).result,
            r is Ok ==> final(topology)@ == Event::FlowArrival(*self).outcome(
                old(topology)@,
                nodes@,
                time,
            ).next,
            final(trace)@ == old(trace)@,
            yields_valid(events_of(r)),
    {
        let fi = self.0;
        let ends = crate::flow::go_back_n::new::<CC>(fi);
        let f_send: GoBackNSender<CC> = *ends.0;
        let f_recv: GoBackNReceiver = *ends.1;
        match topology.node_flow_arrival(nodes[0], fi.sender_id, GoBackN::Sender(f_send)) {
            Err(e) => Err(e),
            Ok(()) => match topology.node_flow_arrival(
                nodes[1],
                fi.dest_id,
                GoBackN::Receiver(f_recv),
            ) {
                Err(e) => Err(e),
                Ok(()) => Ok(Vec::new()),
            },
        }
    }
}

impl NodeTransmitEvent {
    /// The node has finished serialising: its link is free again, and the
    /// packet goes on the wire.
    pub fn exec<S: Switch, CC: CongAlg>(
        &self,
        time: Nanos,
        nodes: &Vec<TopologyNode>,
        topology: &mut Topology<S, CC>,
        trace: &mut Vec<TraceRecord>,
    ) -> (r: Result<Vec<Event>, SimError>)
        requires
            self.valid(),
            old(topology).wf(),
            nodes@.len() == 1,
            old(topology)@.has(nodes@[0]),
        ensures
            final(topology).wf(),
            final(topology).hosts@.len() == old(topology).hosts@.len(),
            final(topology).switches@.len() == old(topology).switches@.len(),
            events_of(r) == Event::NodeTransmit(*self).outcome(old(topology)@, nodes@, time).result,
            final(topology)@ == Event::NodeTransmit(*self).outcome(
                old(topology)@,
                nodes@,
                time,
            ).next,
            final(trace)@ == old(trace)@,
            yields_valid(events_of(r)),
    {
        match topology.node_reactivate(nodes[0], self.0) {
            Err(e) => Err(e),
            Ok(()) => {
                let mut evs: Vec<Event> = Vec::new();
                evs.push(Event::LinkTransmit(LinkTransmitEvent(self.0, self.1)));
                proof {
                    assert(evs@ =~= seq![Event::LinkTransmit(LinkTransmitEvent(self.0, self.1))]);
                }
                Ok(evs)
            },
        }
    }
}

impl LinkTransmitEvent {
    /// The packet comes off the wire: the node at the far end takes it.
    pub fn exec<S: Switch, CC: CongAlg>(
        &self,
        time: Nanos,
        nodes: &Vec<TopologyNode>,
        topology: &mut Topology<S, CC>,
        trace: &mut Vec<TraceRecord>,
    ) -> (r: Result<Vec<Event>, SimError>)
        requires
            self.1.valid(),
            old(topology).wf(),
            nodes@.len() == 1,
            old(topology)@.has(nodes@[0]),
        ensures
            final(topology).wf(),
            final(topology).hosts@.len() == old(topology).hosts@.len(),
            final(topology).switches@.len() == old(topology).switches@.len(),
            events_of(r) == Event::LinkTransmit(*self).outcome(old(topology)@, nodes@, time).result,
            final(topology)@ == Event::LinkTransmit(*self).outcome(
                old(topology)@,
                nodes@,
                time,
            ).next,
            final(trace)@ == old(trace)@ + Event::LinkTransmit(*self).outcome(
                old(topology)@,
                nodes@,
                time,
            ).trace,
            yields_valid(events_of(r)),
    {
        topology.node_receive(nodes[0], self.1, self.0, time, trace)
    }
}

/// Runs a simulation: fires events in time order, and polls the nodes
/// whenever time is about to move on.
pub struct Executor<S: Switch, CC: CongAlg> {
    events: Vec<EventContainer>,
    current_time: Nanos,
    topology: Topology<S, CC>,
    trace: Vec<TraceRecord>,
}

/// The waiting events with their fire times.
spec fn entries(events: Seq<EventContainer>) -> Seq<(Event, Nanos)> {
    events.map_values(|c: EventContainer| (c.0, c.1))
}

/// Schedules `ev` from `now` at the back of `heap`, unless its fire time does
/// not fit in the clock or lies in the past.
fn push_onto(now: Nanos, ev: Event, heap: &mut Vec<EventContainer>) -> (r: Result<(), SimError>)
    requires
        ev.valid(),
    ensures
        match r {
            Ok(()) => {
                &&& now <= ev.fire_time().resolve(now) <= u64::MAX
                &&& final(heap)@ == old(heap)@.push(
                    EventContainer(ev, ev.fire_time().resolve(now) as u64),
                )
            },
            Err(e) => {
                &&& final(heap)@ == old(heap)@
                &&& if ev.fire_time().resolve(now) > u64::MAX {
                    e == SimError::TimeOverflow
                } else {
                    ev.fire_time().resolve(now) < now && e == SimError::PastEvent
                }
            },
        },
{
    let at: Option<Nanos> = match ev.time() {
        EventTime::Absolute(t) => Some(t),
        EventTime::Delta(t) => now.checked_add(t),
    };
    match at {
        Some(t) => {
            if t < now {
                return Err(SimError::PastEvent);
            }
            heap.push(EventContainer(ev, t));
            Ok(())
        },
        None => Err(SimError::TimeOverflow),
    }
}

impl<S: Switch, CC: CongAlg> View for Executor<S, CC> {
    type V = ExecutorState<S, CC>;

    closed spec fn view(&self) -> ExecutorState<S, CC> {
        ExecutorState {
            events: entries(self.events@),
            time: self.current_time,
            topology: self.topology@,
            trace: self.trace@,
        }
    }
}

impl<S: Switch, CC: CongAlg> Executor<S, CC> {
    /// The nodes are well-formed, every waiting event is valid, and none
    /// waits to fire before now.
    pub closed spec fn wf(&self) -> bool {
        &&& self.topology.wf()
        &&& self@.events_valid()
        &&& self@.timely()
    }

    /// An executor at time zero with no event waiting.
    pub fn new(topology: Topology<S, CC>) -> (e: Self)
        requires
            topology.wf(),
        ensures
            e.wf(),
            e@ == (ExecutorState {
                events: Seq::empty(),
                time: 0,
                topology: topology@,
                trace: Seq::empty(),
            }),
    {
        let e = Executor { events: Vec::new(), current_time: 0, topology, trace: Vec::new() };
        proof {
            assert(entries(e.events@) =~= Seq::<(Event, Nanos)>::empty());
        }
        e
    }

    /// The clock, the nodes and the trace.
    pub fn components(&mut self) -> (parts: (Nanos, &mut Topology<S, CC>, &Vec<TraceRecord>))
        ensures
            parts.0 == old(self)@.time,
            (*parts.1)@ == old(self)@.topology,
            parts.2@ == old(self)@.trace,
            final(self)@ == (ExecutorState { topology: (*final(parts.1))@, ..old(self)@ }),
            old(self).wf() ==> parts.1.wf(),
            old(self).wf() && final(parts.1).wf() ==> final(self).wf(),
    {
        (self.current_time, &mut self.topology, &self.trace)
    }

    /// Schedules an event. One with an absolute time must not lie in the
    /// past, and one with a delay must not lie beyond the end of the clock.
    pub fn push(&mut self, ev: Event)
        requires
            old(self).wf(),
            ev.valid(),
            old(self)@.time <= ev.fire_time().resolve(old(self)@.time) <= u64::MAX,
        ensures
            final(self).wf(),
            Ok::<ExecutorState<S, CC>, SimError>(final(self)@) == old(self)@.scheduled(ev),
    {
        let ghost before = self@;
        let r = push_onto(self.current_time, ev, &mut self.events);
        proof {
            let at = ev.fire_time().resolve(before.time) as u64;
            assert(entries(self.events@) =~= before.events.push((ev, at)));
        }
    }

    pub fn current_time(&self) -> (now: Nanos)
        ensures
            now == self@.time,
    {
        self.current_time
    }

    /// The records left so far.
    pub fn trace(&self) -> (records: &Vec<TraceRecord>)
        ensures
            records@ == self@.trace,
    {
        &self.trace
    }

    /// Whether `ev` may be handed to `push` now.
    pub fn can_push(&self, ev: &Event) -> (ok: bool)
        requires
            ev.valid(),
        ensures
            ok == (self@.time <= ev.fire_time().resolve(self@.time) <= u64::MAX),
    {
        match ev.time() {
            EventTime::Absolute(t) => t >= self.current_time,
            EventTime::Delta(t) => t <= 0xffff_ffff_ffff_ffff - self.current_time,
        }
    }

    /// Schedules each of `evs` from now, in order.
    fn push_all(&mut self, evs: &Vec<Event>) -> (r: Result<(), SimError>)
        requires
            old(self).wf(),
            all_valid(evs@),
        ensures
            match r {
                Ok(()) => final(self).wf() && Ok::<ExecutorState<S, CC>, SimError>(final(self)@)
                    == old(self)@.scheduled_all(evs@),
                Err(e) => old(self)@.scheduled_all(evs@) == Err::<ExecutorState<S, CC>, SimError>(e),
            },
            r is Ok ==> final(self)@.topology == old(self)@.topology,
    {
        let ghost before = self@;
        let mut i: usize = 0;
        proof {
            assert(evs@.take(0) =~= Seq::<Event>::empty());
            lemma_schedule_grows(before, evs@);
        }
        while i < evs.len()
            invariant
                i <= evs@.len(),
                self.wf(),
                all_valid(evs@),
                before == old(self)@,
                Ok::<ExecutorState<S, CC>, SimError>(self@) == before.scheduled_all(
                    evs@.take(i as int),
                ),
            decreases evs@.len() - i,
        {
            let ghost here = self@;
            proof {
                assert(evs@.take(i + 1).drop_last() =~= evs@.take(i as int));
                assert(evs@.take(i + 1).last() == evs@[i as int]);
            }
            match push_onto(self.current_time, evs[i], &mut self.events) {
                Ok(()) => {
                    proof {
                        let at = evs@[i as int].fire_time().resolve(here.time) as u64;
                        assert(entries(self.events@) =~= here.events.push((evs@[i as int], at)));
                        assert(self@.timely()) by {
                            assert forall|k: int| 0 <= k < self@.events.len() implies (
                            #[trigger] self@.events[k]).1 >= self@.time by {
                                if k < here.events.len() {
                                    assert(self@.events[k] == here.events[k]);
                                }
                            }
                        }
                        assert(self@.events_valid()) by {
                            assert forall|k: int| 0 <= k < self@.events.len() implies (
                            #[trigger] self@.events[k]).0.valid() by {
                                if k < here.events.len() {
                                    assert(self@.events[k] == here.events[k]);
                                }
                            }
                        }
                    }
                },
                Err(e) => {
                    proof {
                        lemma_failed_schedule_stays(before, evs@, i + 1);
                    }
                    return Err(e);
                },
            }
            i = i + 1;
        }
        proof {
            assert(evs@.take(i as int) =~= evs@);
        }
        Ok(())
    }

    /// Gives one node its turn in a poll phase.
    fn poll_node(&mut self, node: TopologyNode) -> (r: Result<(), SimError>)
        requires
            old(self).wf(),
            old(self)@.topology.has(node),
        ensures
            match r {
                Ok(()) => {
                    &&& final(self).wf()
                    &&& Ok::<ExecutorState<S, CC>, SimError>(final(self)@) == old(self)@.polled_node(
                        node,
                    )
                    &&& final(self)@.topology.hosts.len() == old(self)@.topology.hosts.len()
                    &&& final(self)@.topology.switches.len() == old(self)@.topology.switches.len()
                },
                Err(e) => old(self)@.polled_node(node) == Err::<ExecutorState<S, CC>, SimError>(e),
            },
    {
        let ghost before = self@;
        if !self.topology.node_is_active(node) {
            return Ok(());
        }
        let now: Nanos = self.current_time;
        let polled = self.topology.node_exec(node, now, &mut self.trace);
        match polled {
            Ok(evs) => self.push_all(&evs),
            Err(SimError::NoPendingPackets) => Ok(()),
            Err(e) => Err(e),
        }
    }

    /// Polls every node that is active, hosts first, and schedules what they
    /// yield.
    fn poll_nodes(&mut self) -> (r: Result<(), SimError>)
        requires
            old(self).wf(),
        ensures
            match r {
                Ok(()) => final(self).wf() && Ok::<ExecutorState<S, CC>, SimError>(final(self)@)
                    == old(self)@.polled(),
                Err(e) => old(self)@.polled() == Err::<ExecutorState<S, CC>, SimError>(e),
            },
    {
        let ghost before = self@;
        let ghost all = before.nodes();
        let hosts: usize = self.topology.hosts.len();
        let switches: usize = self.topology.switches.len();
        let mut i: usize = 0;
        proof {
            assert(all.take(0) =~= Seq::<TopologyNode>::empty());
        }
        while i < hosts
            invariant
                i <= hosts,
                self.wf(),
                before == old(self)@,
                all == before.nodes(),
                hosts == before.topology.hosts.len(),
                switches == before.topology.switches.len(),
                self@.topology.hosts.len() == hosts,
                self@.topology.switches.len() == switches,
                Ok::<ExecutorState<S, CC>, SimError>(self@) == before.polled_through(
                    all.take(i as int),
                ),
            decreases hosts - i,
        {
            proof {
                assert(all.take(i + 1).drop_last() =~= all.take(i as int));
                assert(all.take(i + 1).last() == TopologyNode::Host(i));
            }
            match self.poll_node(TopologyNode::Host(i)) {
                Ok(()) => {},
                Err(e) => {
                    proof {
                        lemma_failed_poll_stays(before, all, i + 1);
                    }
                    return Err(e);
                },
            }
            i = i + 1;
        }
        let mut j: usize = 0;
        while j < switches
            invariant
                j <= switches,
                i == hosts,
                self.wf(),
                before == old(self)@,
                all == before.nodes(),
                hosts == before.topology.hosts.len(),
                switches == before.topology.switches.len(),
                self@.topology.hosts.len() == hosts,
                self@.topology.switches.len() == switches,
                Ok::<ExecutorState<S, CC>, SimError>(self@) == before.polled_through(
                    all.take(hosts + j),
                ),
            decreases switches - j,
        {
            proof {
                assert(all.take(hosts + j + 1).drop_last() =~= all.take(hosts + j));
                assert(all.take(hosts + j + 1).last() == TopologyNode::Switch(j));
            }
            match self.poll_node(TopologyNode::Switch(j)) {
                Ok(()) => {},
                Err(e) => {
                    proof {
                        lemma_failed_poll_stays(before, all, hosts + j + 1);
                    }
                    return Err(e);
                },
            }
            j = j + 1;
        }
        proof {
            assert(all.take(hosts + j) =~= all);
        }
        Ok(())
    }

    /// Finds the event that fires first.
    fn find_earliest(&self) -> (found: Option<usize>)
        ensures
            match found {
                Some(i) => earliest(self@.events) == Some(i as int) && i < self@.events.len(),
                None => self@.events.len() == 0 && earliest(self@.events) is None,
            },
    {
        if self.events.len() == 0 {
            proof {
                assert forall|k: int| !fires_first(self@.events, k) by {}
            }
            return None;
        }
        let ghost evs = self@.events;
        let mut best: usize = 0;
        let mut i: usize = 1;
        while i < self.events.len()
            invariant
                1 <= i <= self.events@.len(),
                best < i,
                evs == self@.events,
                evs.len() == self.events@.len(),
                forall|j: int| 0 <= j < i ==> (#[trigger] evs[j]).1 >= evs[best as int].1,
                forall|j: int| 0 <= j < best ==> (#[trigger] evs[j]).1 > evs[best as int].1,
            decreases self.events@.len() - i,
        {
            proof {
                assert(evs[i as int].1 == self.events@[i as int].1);
                assert(evs[best as int].1 == self.events@[best as int].1);
            }
            if self.events[i].1 < self.events[best].1 {
                best = i;
            }
            i = i + 1;
        }
        proof {
            assert(fires_first(evs, best as int));
            lemma_fires_first_unique(evs, best as int);
        }
        Some(best)
    }

    /// Takes one step of the main loop and says whether the run is over.
    pub fn step(self) -> (r: Result<(Self, bool), SimError>)
        requires
            self.wf(),
        ensures
            match r {
                Ok((next, done)) => next.wf() && Ok::<(ExecutorState<S, CC>, bool), SimError>(
                    (next@, done),
                ) == self@.step(),
                Err(e) => self@.step() == Err::<(ExecutorState<S, CC>, bool), SimError>(e),
            },
    {
        let mut this = self;
        let ghost before = this@;
        match this.find_earliest() {
            None => {
                match this.poll_nodes() {
                    Err(e) => Err(e),
                    Ok(()) => {
                        if this.events.len() == 0 {
                            this.trace.push(TraceRecord::Exiting { time: this.current_time });
                            Ok((this, true))
                        } else {
                            Ok((this, false))
                        }
                    },
                }
            },
            Some(i) => {
                if this.events[i].1 > this.current_time {
                    match this.poll_nodes() {
                        Err(e) => {
                            return Err(e);
                        },
                        Ok(()) => {},
                    }
                }
                let ghost ready = this@;
                proof {
                    assert(ready.events.len() > 0) by {
                        if before.events[i as int].1 > before.time {
                            lemma_poll_keeps_events(before);
                        }
                    }
                    lemma_some_entry_fires_first(ready.events);
                }
                let j: usize = match this.find_earliest() {
                    Some(j) => j,
                    None => 0,
                };
                let evc: EventContainer = this.events.remove(j);
                this.current_time = evc.1;
                let ev: Event = evc.0;
                proof {
                    assert(entries(this.events@) =~= ready.events.remove(j as int));
                    assert(this@ == ready.advanced().0);
                    assert(ev == ready.advanced().1);
                    assert(ready.events[j as int] == (evc.0, evc.1));
                    assert(this@.timely()) by {
                        assert forall|k: int| 0 <= k < this@.events.len() implies (
                        #[trigger] this@.events[k]).1 >= this@.time by {
                            if k < j {
                                assert(this@.events[k] == ready.events[k]);
                            } else {
                                assert(this@.events[k] == ready.events[k + 1]);
                            }
                        }
                    }
                    assert(this@.events_valid()) by {
                        assert forall|k: int| 0 <= k < this@.events.len() implies (
                        #[trigger] this@.events[k]).0.valid() by {
                            if k < j {
                                assert(this@.events[k] == ready.events[k]);
                            } else {
                                assert(this@.events[k] == ready.events[k + 1]);
                            }
                        }
                    }
                }
                let ids: Vec<u32> = ev.affected_node_ids();
                let nodes = match this.topology.lookup_nodes(ids.as_slice()) {
                    Ok(nodes) => nodes,
                    Err(e) => {
                        return Err(e);
                    },
                };
                let now: Nanos = this.current_time;
                let fired = ev.exec(now, &nodes, &mut this.topology, &mut this.trace);
                match fired {
                    Err(e) => Err(e),
                    Ok(new_evs) => match this.push_all(&new_evs) {
                        Err(e) => Err(e),
                        Ok(()) => Ok((this, false)),
                    },
                }
            },
        }
    }

    /// Runs until no event waits and no node has anything left to send, and
    /// hands the executor back for inspection.
    pub fn execute(self) -> (r: Result<Self, SimError>)
        requires
            self.wf(),
        ensures
            match r {
                Ok(done) => done.wf() && Ok::<ExecutorState<S, CC>, SimError>(done@) == self@.run(
                    MAX_STEPS as nat,
                ),
                Err(e) => self@.run(MAX_STEPS as nat) == Err::<ExecutorState<S, CC>, SimError>(e),
            },
    {
        let mut this = self;
        let mut fuel: u64 = MAX_STEPS;
        let ghost goal = this@.run(MAX_STEPS as nat);
        loop
            invariant
                this.wf(),
                goal == self@.run(MAX_STEPS as nat),
                this@.run(fuel as nat) == goal,
            decreases fuel,
        {
            if fuel == 0 {
                return Err(SimError::StepLimit);
            }
            match this.step() {
                Err(e) => {
                    return Err(e);
                },
                Ok((next, done)) => {
                    if done {
                        return Ok(next);
                    }
                    this = next;
                    fuel = fuel - 1;
                },
            }
        }
    }
}

/// Once an event cannot be scheduled, none after it is.
pub proof fn lemma_failed_schedule_stays<S: Switch, CC: CongAlg>(
    s: ExecutorState<S, CC>,
    evs: Seq<Event>,
    n: int,
)
    requires
        0 <= n <= evs.len(),
        s.scheduled_all(evs.take(n)) is Err,
    ensures
        s.scheduled_all(evs) == s.scheduled_all(evs.take(n)),
    decreases evs.len() - n,
{
    if n < evs.len() {
        assert(evs.take(n + 1).drop_last() =~= evs.take(n));
        lemma_failed_schedule_stays(s, evs, n + 1);
    } else {
        assert(evs.take(n) =~= evs);
    }
}

/// Once a poll phase has failed, no node after has its turn.
pub proof fn lemma_failed_poll_stays<S: Switch, CC: CongAlg>(
    s: ExecutorState<S, CC>,
    nodes: Seq<TopologyNode>,
    n: int,
)
    requires
        0 <= n <= nodes.len(),
        s.polled_through(nodes.take(n)) is Err,
    ensures
        s.polled_through(nodes) == s.polled_through(nodes.take(n)),
    decreases nodes.len() - n,
{
    if n < nodes.len() {
        assert(nodes.take(n + 1).drop_last() =~= nodes.take(n));
        lemma_failed_poll_stays(s, nodes, n + 1);
    } else {
        assert(nodes.take(n) =~= nodes);
    }
}

/// Scheduling only adds events, none of them in the past, and leaves
/// everything else alone.
pub proof fn lemma_schedule_grows<S: Switch, CC: CongAlg>(s: ExecutorState<S, CC>, evs: Seq<Event>)
    ensures
        s.scheduled_all(evs) matches Ok(after) ==> {
            &&& after.events.len() == s.events.len() + evs.len()
            &&& after.events.take(s.events.len() as int) == s.events
            &&& after.time == s.time
            &&& after.topology == s.topology
            &&& after.trace == s.trace
            &&& forall|k: int|
                s.events.len() <= k < after.events.len() ==> (#[trigger] after.events[k]).1 >= s.time
        },
    decreases evs.len(),
{
    if evs.len() == 0 {
        assert(s.events.take(s.events.len() as int) =~= s.events);
    } else {
        lemma_schedule_grows(s, evs.drop_last());
        match s.scheduled_all(evs.drop_last()) {
            Ok(mid) => {
                match mid.scheduled(evs.last()) {
                    Ok(after) => {
                        let n = s.events.len() as int;
                        assert(after.events.take(n) =~= mid.events.take(n));
                        assert forall|k: int| n <= k < after.events.len() implies (
                        #[trigger] after.events[k]).1 >= s.time by {
                            if k < mid.events.len() {
                                assert(after.events[k] == mid.events[k]);
                            }
                        }
                    },
                    Err(_) => {},
                }
            },
            Err(_) => {},
        }
    }
}

/// A node's turn only adds events, none of them in the past, and leaves the
/// clock alone.
pub proof fn lemma_turn_grows<S: Switch, CC: CongAlg>(s: ExecutorState<S, CC>, node: TopologyNode)
    ensures
        s.polled_node(node) matches Ok(after) ==> {
            &&& after.events.len() >= s.events.len()
            &&& after.events.take(s.events.len() as int) == s.events
            &&& after.time == s.time
            &&& forall|k: int|
                s.events.len() <= k < after.events.len() ==> (#[trigger] after.events[k]).1 >= s.time
        },
{
    if s.topology.is_active(node) {
        let step = s.topology.exec(node, s.time);
        let after = ExecutorState { topology: step.next, trace: s.trace + step.trace, ..s };
        match step.result {
            Ok(evs) => {
                lemma_schedule_grows(after, evs);
            },
            Err(_) => {
                assert(s.events.take(s.events.len() as int) =~= s.events);
            },
        }
    } else {
        assert(s.events.take(s.events.len() as int) =~= s.events);
    }
}

/// A run of turns only adds events, none of them in the past, and leaves the
/// clock alone.
pub proof fn lemma_turns_grow<S: Switch, CC: CongAlg>(
    s: ExecutorState<S, CC>,
    nodes: Seq<TopologyNode>,
)
    ensures
        s.polled_through(nodes) matches Ok(after) ==> {
            &&& after.events.len() >= s.events.len()
            &&& after.events.take(s.events.len() as int) == s.events
            &&& after.time == s.time
            &&& forall|k: int|
                s.events.len() <= k < after.events.len() ==> (#[trigger] after.events[k]).1 >= s.time
        },
    decreases nodes.len(),
{
    if nodes.len() == 0 {
        assert(s.events.take(s.events.len() as int) =~= s.events);
    } else {
        lemma_turns_grow(s, nodes.drop_last());
        match s.polled_through(nodes.drop_last()) {
            Ok(mid) => {
                lemma_turn_grows(mid, nodes.last());
                match mid.polled_node(nodes.last()) {
                    Ok(after) => {
                        let n = s.events.len() as int;
                        assert(after.events.take(n) =~= after.events.take(
                            mid.events.len() as int,
                        ).take(n));
                        assert forall|k: int| n <= k < after.events.len() implies (
                        #[trigger] after.events[k]).1 >= s.time by {
                            if k < mid.events.len() {
                                assert(after.events.take(mid.events.len() as int)[k]
                                    == mid.events[k]);
                            }
                        }
                    },
                    Err(_) => {},
                }
            },
            Err(_) => {},
        }
    }
}

/// A poll phase loses no event and leaves the clock alone.
pub proof fn lemma_poll_keeps_events<S: Switch, CC: CongAlg>(s: ExecutorState<S, CC>)
    ensures
        s.polled() matches Ok(after) ==> after.events.len() >= s.events.len() && after.time
            == s.time,
{
    lemma_turns_grow(s, s.nodes());
}

/// A well-formed executor has no event waiting to fire in the past, so that
/// what is shown of steps and runs that start without one holds of it.
pub proof fn lemma_wf_is_timely<S: Switch, CC: CongAlg>(e: &Executor<S, CC>)
    requires
        e.wf(),
    ensures
        e@.timely(),
        e@.events_valid(),
{
}

/// A poll phase schedules nothing in the past.
pub proof fn lemma_poll_is_timely<S: Switch, CC: CongAlg>(s: ExecutorState<S, CC>)
    requires
        s.timely(),
    ensures
        s.polled() matches Ok(after) ==> after.timely() && after.time == s.time,
{
    lemma_turns_grow(s, s.nodes());
    match s.polled() {
        Ok(after) => {
            assert forall|k: int| 0 <= k < after.events.len() implies (#[trigger] after.events[k]).1
                >= after.time by {
                if k < s.events.len() {
                    assert(after.events.take(s.events.len() as int)[k] == s.events[k]);
                }
            }
        },
        Err(_) => {},
    }
}

/// Time never goes back: while no event waits to fire in the past, a step
/// leaves the clock where it was or moves it forward, and again leaves no
/// event waiting in the past. So of two events fired one after the other, the
/// second does not fire before the first.
pub proof fn lemma_step_keeps_time_order<S: Switch, CC: CongAlg>(s: ExecutorState<S, CC>)
    requires
        s.timely(),
    ensures
        s.step() matches Ok((next, _)) ==> next.time >= s.time && next.timely(),
{
    lemma_poll_is_timely(s);
    match earliest(s.events) {
        None => {},
        Some(i) => {
            let ready = if s.events[i].1 > s.time {
                s.polled()
            } else {
                Ok(s)
            };
            match ready {
                Ok(r) => {
                    if s.events[i].1 > s.time {
                        lemma_poll_keeps_events(s);
                    }
                    assert(fires_first(s.events, i));
                    lemma_some_entry_fires_first(r.events);
                    let j = earliest(r.events)->0;
                    assert(fires_first(r.events, j));
                    let (about, ev) = r.advanced();
                    assert(about.time >= r.time);
                    assert forall|k: int| 0 <= k < about.events.len() implies (
                    #[trigger] about.events[k]).1 >= about.time by {
                        if k < j {
                            assert(about.events[k] == r.events[k]);
                        } else {
                            assert(about.events[k] == r.events[k + 1]);
                        }
                    }
                    match resolved(
                        ev.node_ids(),
                        about.topology.hosts.len(),
                        about.topology.switches.len(),
                    ) {
                        Ok(nodes) => {
                            let outcome = ev.outcome(about.topology, nodes, about.time);
                            match outcome.result {
                                Ok(evs) => {
                                    let mid = ExecutorState {
                                        topology: outcome.next,
                                        trace: about.trace + outcome.trace,
                                        ..about
                                    };
                                    lemma_schedule_grows(mid, evs);
                                    match mid.scheduled_all(evs) {
                                        Ok(after) => {
                                            assert forall|k: int|
                                                0 <= k < after.events.len() implies (
                                            #[trigger] after.events[k]).1 >= after.time by {
                                                if k < mid.events.len() {
                                                    assert(after.events.take(
                                                        mid.events.len() as int,
                                                    )[k] == mid.events[k]);
                                                }
                                            }
                                        },
                                        Err(_) => {},
                                    }
                                },
                                Err(_) => {},
                            }
                        },
                        Err(_) => {},
                    }
                },
                Err(_) => {},
            }
        },
    }
}

/// Equal starts give equal runs: the outcome of a run, its trace included, is
/// a function of the executor it starts from.
pub proof fn lemma_runs_repeat<S: Switch, CC: CongAlg>(
    first: ExecutorState<S, CC>,
    second: ExecutorState<S, CC>,
    fuel: nat,
)
    requires
        first == second,
    ensures
        first.run(fuel) == second.run(fuel),
        first.run(fuel) matches Ok(end) ==> second.run(fuel) matches Ok(other) && other.trace
            == end.trace && other.time == end.time,
{
}

/// A run never ends before it began.
pub proof fn lemma_run_keeps_time_order<S: Switch, CC: CongAlg>(s: ExecutorState<S, CC>, fuel: nat)
    requires
        s.timely(),
    ensures
        s.run(fuel) matches Ok(end) ==> end.time >= s.time && end.timely(),
    decreases fuel,
{
    if fuel > 0 {
        lemma_step_keeps_time_order(s);
        match s.step() {
            Ok((next, false)) => {
                lemma_run_keeps_time_order(next, (fuel - 1) as nat);
            },
            _ => {},
        }
    }
}

/// A run that ends leaves no event waiting, and its last record says so.
pub proof fn lemma_run_ends_drained<S: Switch, CC: CongAlg>(s: ExecutorState<S, CC>, fuel: nat)
    ensures
        s.run(fuel) matches Ok(end) ==> end.events.len() == 0 && end.trace.len() > 0
            && end.trace.last() == (TraceRecord::Exiting { time: end.time }),
    decreases fuel,
{
    if fuel > 0 {
        match s.step() {
            Ok((next, false)) => {
                lemma_run_ends_drained(next, (fuel - 1) as nat);
            },
            _ => {},
        }
    }
}

/// The queue limit holds at every time of a run over lossy switches: in a
/// well-formed executor, which is what every step leaves behind, no queue
/// holds more bytes than its limit.
pub proof fn lemma_lossy_queues_within_limit<CC: CongAlg>(
    e: &Executor<LossySwitch, CC>,
    j: int,
    k: int,
)
    requires
        e.wf(),
        0 <= j < e@.topology.switches.len(),
        0 <= k < e@.topology.switches[j].rack.len(),
    ensures
        e@.topology.switches[j].rack[k].occupancy() <= e@.topology.switches[j].rack[k].limit_bytes,
{
    assert(e.topology.switches@[j].wf());
    assert(e@.topology.switches[j].rack[k].wf());
}

/// The queue limit holds at every time of a run over NACK switches.
pub proof fn lemma_nack_queues_within_limit<CC: CongAlg>(
    e: &Executor<NackSwitch, CC>,
    j: int,
    k: int,
)
    requires
        e.wf(),
        0 <= j < e@.topology.switches.len(),
        0 <= k < e@.topology.switches[j].rack.len(),
    ensures
        e@.topology.switches[j].rack[k].occupancy() <= e@.topology.switches[j].rack[k].limit_bytes,
{
    assert(e.topology.switches@[j].wf());
    assert(e@.topology.switches[j].rack[k].wf());
}

/// The queue limit holds at every time of a run over PFC switches.
pub proof fn lemma_pfc_queues_within_limit<CC: CongAlg>(
    e: &Executor<PFCSwitch, CC>,
    j: int,
    k: int,
)
    requires
        e.wf(),
        0 <= j < e@.topology.switches.len(),
        0 <= k < e@.topology.switches[j].rack.len(),
    ensures
        e@.topology.switches[j].rack[k].0.occupancy()
            <= e@.topology.switches[j].rack[k].0.limit_bytes,
{
    assert(e.topology.switches@[j].wf());
    let ports = e@.topology.switches[j].rack;
    assert(crate::node::switch::pfc_switch::queues_of(ports)[k] == ports[k].0);
    assert(crate::node::switch::pfc_switch::queues_of(ports)[k].wf());
}

/// The queue limit holds at every time of a run over ingress-PFC switches.
pub proof fn lemma_ingress_queues_within_limit<CC: CongAlg>(
    e: &Executor<IngressPFCSwitch, CC>,
    j: int,
    k: int,
)
    requires
        e.wf(),
        0 <= j < e@.topology.switches.len(),
        0 <= k < e@.topology.switches[j].pfc.rack.len(),
    ensures
        e@.topology.switches[j].pfc.rack[k].0.occupancy()
            <= e@.topology.switches[j].pfc.rack[k].0.limit_bytes,
{
    assert(e.topology.switches@[j].wf());
    let ports = e@.topology.switches[j].pfc.rack;
    assert(crate::node::switch::pfc_switch::queues_of(ports)[k] == ports[k].0);
    assert(crate::node::switch::pfc_switch::queues_of(ports)[k].wf());
}

} // verus!
