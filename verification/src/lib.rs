//! A discrete-event simulator for datacenter transport over a single switch tier.
//!
//! Hosts run a go-back-N sliding-window transport; switches forward packets
//! through per-egress drop-tail queues under one of four disciplines (lossy,
//! PFC, per-ingress PFC, switch-originated NACKs). Time is an integer number
//! of nanoseconds and every run is deterministic.

use vstd::prelude::*;

pub mod congcontrol;
pub mod error;
pub mod event;
pub mod flow;
pub mod packet;
pub mod topology;
pub mod trace;
pub mod viz;
pub mod node;

use crate::congcontrol::ConstCwnd;
use crate::event::{Event, Executor, ExecutorState};
use crate::flow::{FlowArrivalEvent, FlowInfo};
use crate::node::switch::Switch;
use crate::topology::TopologyStrategy;
use crate::topology::one_big_switch::{OneBigSwitch, built};

verus! {

/// Simulated time, in nanoseconds.
pub type Nanos = u64;

/// Hosts in a scenario.
pub const SCENARIO_HOSTS: u32 = 4;

/// Bytes that each of the switch's queues holds in a scenario.
pub const SCENARIO_QUEUE_BYTES: u32 = 15_000;

/// Bits per second on every link of a scenario.
pub const SCENARIO_BANDWIDTH: u64 = 1_000_000;

/// Nanoseconds that a packet spends on every link of a scenario.
pub const SCENARIO_DELAY: Nanos = 1_000_000;

/// Payload bytes of a full packet in a scenario.
pub const SCENARIO_PACKET: u32 = 1460;

/// How a scenario starts: four hosts around one switch at time zero, with
/// the arrivals of `flows` scheduled in order.
pub open spec fn scenario_start<S: Switch>(flows: Seq<FlowArrivalEvent>) -> ExecutorState<
    S,
    ConstCwnd,
> {
    ExecutorState {
        events: flows.map_values(|f: FlowArrivalEvent| (Event::FlowArrival(f), f.1)),
        time: 0,
        topology: built::<S, ConstCwnd>(
            SCENARIO_HOSTS,
            SCENARIO_QUEUE_BYTES,
            SCENARIO_BANDWIDTH,
            SCENARIO_DELAY,
            false,
        ),
        trace: Seq::empty(),
    }
}

/// A flow of `packets` full packets that arrives at `at`.
pub open spec fn scenario_flow(flow_id: u32, sender_id: u32, dest_id: u32, packets: u32, at: Nanos) -> FlowArrivalEvent {
    FlowArrivalEvent(
        FlowInfo {
            flow_id,
            sender_id,
            dest_id,
            length_bytes: (packets * SCENARIO_PACKET) as u32,
            max_packet_length: SCENARIO_PACKET,
        },
        at,
    )
}

/// A ready-made simulation, for any kind of switch.
pub trait Scenario {
    /// The flows of the scenario, in the order in which they are scheduled.
    spec fn flows() -> Seq<FlowArrivalEvent>;

    fn make<S: Switch>() -> (e: Executor<S, ConstCwnd>)
        ensures
            e.wf(),
            e@ == scenario_start::<S>(Self::flows()),
    ;
}

/// An executor over the scenario topology with three flows scheduled.
fn three_flows<S: Switch>(first: FlowArrivalEvent, second: FlowArrivalEvent, third: FlowArrivalEvent) -> (e:
    Executor<S, ConstCwnd>)
    requires
        first.0.valid(),
        second.0.valid(),
        third.0.valid(),
    ensures
        e.wf(),
        e@ == scenario_start::<S>(seq![first, second, third]),
{
    let t = <OneBigSwitch<S> as TopologyStrategy<S, ConstCwnd>>::make_topology(
        SCENARIO_HOSTS,
        SCENARIO_QUEUE_BYTES,
        SCENARIO_BANDWIDTH,
        SCENARIO_DELAY,
    );
    let mut e = Executor::new(t);
    e.push(Event::FlowArrival(first));
    e.push(Event::FlowArrival(second));
    e.push(Event::FlowArrival(third));
    proof {
        let flows = seq![first, second, third];
        assert(e@.events =~= flows.map_values(|f: FlowArrivalEvent| (Event::FlowArrival(f), f.1)));
    }
    e
}

/// Hosts 2 and 3 each send 300 packets to host 0 from 1.0 s on, which
/// congests the switch's queue towards host 0. From 1.1 s on a victim flow of
/// 30 packets goes from host 0 to host 1: it shares no queue with the others.
///
/// A PFC switch that pauses every neighbour when one queue fills stops the
/// victim too. A switch that pauses by ingress leaves it alone.
pub struct IndependentVictimFlowScenario;

impl Scenario for IndependentVictimFlowScenario {
    open spec fn flows() -> Seq<FlowArrivalEvent> {
        seq![
            scenario_flow(0, 0, 1, 30, 1_100_000_000),
            scenario_flow(1, 2, 0, 300, 1_000_000_000),
            scenario_flow(2, 3, 0, 300, 1_000_000_000),
        ]
    }

    fn make<S: Switch>() -> (e: Executor<S, ConstCwnd>) {
        let flow = FlowInfo {
            flow_id: 0,
            sender_id: 0,
            dest_id: 1,
            length_bytes: 43800,
            max_packet_length: 1460,
        };
        let victim = FlowArrivalEvent(flow, 1_100_000_000);
        let flow = FlowInfo {
            flow_id: 1,
            sender_id: 2,
            dest_id: 0,
            length_bytes: 438000,
            max_packet_length: 1460,
        };
        let first = FlowArrivalEvent(flow, 1_000_000_000);
        let flow = FlowInfo {
            flow_id: 2,
            sender_id: 3,
            dest_id: 0,
            length_bytes: 438000,
            max_packet_length: 1460,
        };
        let second = FlowArrivalEvent(flow, 1_000_000_000);
        three_flows(victim, first, second)
    }
}

/// As `IndependentVictimFlowScenario`, but the victim flow goes from host 2
/// to host 1: it comes in over the same link as one of the flows that
/// congest, so that a switch that pauses by ingress stops it as well.
pub struct SharedIngressVictimFlowScenario;

impl Scenario for SharedIngressVictimFlowScenario {
    open spec fn flows() -> Seq<FlowArrivalEvent> {
        seq![
            scenario_flow(0, 2, 1, 30, 1_100_000_000),
            scenario_flow(1, 2, 0, 300, 1_000_000_000),
            scenario_flow(2, 3, 0, 300, 1_000_000_000),
        ]
    }

    fn make<S: Switch>() -> (e: Executor<S, ConstCwnd>) {
        let flow = FlowInfo {
            flow_id: 0,
            sender_id: 2,
            dest_id: 1,
            length_bytes: 43800,
            max_packet_length: 1460,
        };
        let victim = FlowArrivalEvent(flow, 1_100_000_000);
        let flow = FlowInfo {
            flow_id: 1,
            sender_id: 2,
            dest_id: 0,
            length_bytes: 438000,
            max_packet_length: 1460,
        };
        let first = FlowArrivalEvent(flow, 1_000_000_000);
        let flow = FlowInfo {
            flow_id: 2,
            sender_id: 3,
            dest_id: 0,
            length_bytes: 438000,
            max_packet_length: 1460,
        };
        let second = FlowArrivalEvent(flow, 1_000_000_000);
        three_flows(victim, first, second)
    }
}

} // verus!
