use rdma_sim::congcontrol::ConstCwnd;
use rdma_sim::error::SimError;
use rdma_sim::event::{Event, EventTime, Executor};
use rdma_sim::flow::{Flow, FlowArrivalEvent, FlowInfo, FlowSide};
use rdma_sim::node::switch::lossy_switch::LossySwitch;
use rdma_sim::node::switch::nack_switch::NackSwitch;
use rdma_sim::node::switch::pfc_switch::{IngressPFCSwitch, PFCSwitch};
use rdma_sim::node::switch::drop_tail_queue::DropTailQueue;
use rdma_sim::node::switch::{Queue, Switch};
use rdma_sim::node::Link;
use rdma_sim::packet::{Packet, PacketHeader};
use rdma_sim::topology::one_big_switch::OneBigSwitch;
use rdma_sim::topology::{Topology, TopologyStrategy};
use rdma_sim::trace::TraceRecord;
use rdma_sim::{IndependentVictimFlowScenario, Nanos, Scenario, SharedIngressVictimFlowScenario};

fn make<S: Switch>(num_hosts: u32) -> Topology<S, ConstCwnd> {
    <OneBigSwitch<S> as TopologyStrategy<S, ConstCwnd>>::make_topology(
        num_hosts, 15_000, 1_000_000, 1_000_000,
    )
}

fn setup_test() -> Executor<LossySwitch, ConstCwnd> {
    Executor::new(make::<LossySwitch>(2))
}

#[test]
fn send_one_packet() {
    let mut e = setup_test();

    {
        let pkt = Packet::Data { hdr: PacketHeader { flow: 0, from: 0, to: 1 }, seq: 0, length: 1460 };

        let topo = e.components().1;
        topo.lookup_host(0).unwrap().push_pkt(pkt);
    }

    let e = e.execute().unwrap();
    assert_eq!(e.current_time(), 26000000);
}

#[test]
fn send_one_flow() {
    let mut e = setup_test();

    let flowinfo = FlowInfo {
        flow_id: 1,
        sender_id: 0,
        dest_id: 1,
        length_bytes: 4380, // 3 packet flow
        max_packet_length: 1460,
    };

    // starts at t = 1.0s
    let flow_arrival = Event::FlowArrival(FlowArrivalEvent(flowinfo, 1_000_000_000));
    e.push(flow_arrival);
    let e = e.execute().unwrap();
    assert_eq!(e.current_time(), 1052640000);
}

/// A NACK switch that loses the third data packet it sees.
pub struct NackTestSwitch(NackSwitch, usize);

impl Switch for NackTestSwitch {
    type Model = ();

    fn new(switch_id: u32, links: Vec<DropTailQueue>) -> Self {
        NackTestSwitch(NackSwitch::new(switch_id, links), 0)
    }

    fn id(&self) -> u32 {
        self.0.id()
    }

    fn receive(
        &mut self,
        p: Packet,
        l: Link,
        time: Nanos,
        trace: &mut Vec<TraceRecord>,
    ) -> Result<Vec<Event>, SimError> {
        match p {
            Packet::Data { hdr, seq, .. } => {
                self.1 += 1;

                if self.1 == 3 {
                    trace.push(TraceRecord::Rx { time, node: self.0.id(), packet: p });

                    // drop 3rd packet and send NACK
                    let nack_pkt = Packet::Nack {
                        hdr: PacketHeader { flow: hdr.flow, from: hdr.to, to: hdr.from },
                        nacked_seq: seq,
                    };

                    self.0.blocked_flows.insert(hdr.flow, seq);

                    let q = self
                        .0
                        .rack
                        .iter_mut()
                        .find(|q| {
                            let link_dst = q.link().to;
                            match nack_pkt {
                                Packet::Nack { hdr, .. } => link_dst == hdr.to,
                                _ => unreachable!(),
                            }
                        })
                        .unwrap();
                    q.enqueue(nack_pkt).unwrap();
                    return Ok(vec![]);
                }
            }
            _ => (),
        };

        self.0.receive(p, l, time, trace)
    }

    fn exec(&mut self, time: Nanos, trace: &mut Vec<TraceRecord>) -> Result<Vec<Event>, SimError> {
        self.0.exec(time, trace)
    }

    fn reactivate(&mut self, l: Link) -> Result<(), SimError> {
        self.0.reactivate(l)
    }

    fn is_active(&self) -> bool {
        self.0.is_active()
    }
}

#[test]
fn one_flow_with_nack() {
    let t = make::<NackTestSwitch>(2);
    let mut e = Executor::new(t);

    let flowinfo = FlowInfo {
        flow_id: 1,
        sender_id: 0,
        dest_id: 1,
        length_bytes: 14600, // 10 packet flow
        max_packet_length: 1460,
    };

    // starts at t = 1.0s
    let flow_arrival = Event::FlowArrival(FlowArrivalEvent(flowinfo, 1_000_000_000));
    e.push(flow_arrival);
    let e = e.execute().unwrap();

    // H0 - Switch - H1
    // 1ms propagation delay,
    // 1Mbps link
    // 1500Byte packets -> 12m transmission delay
    // 40Byte ACKs -> 320us transmission delay
    //
    // 36ms: H0 finishes tx D3, starts tx D4
    // 37ms: D3 rx switch, is dropped, NACK3 tx
    // 38ms: NACK3 rx at H0
    // 48ms: H0 finishes tx D4 (will be dropped at switch), start tx D3
    // 60ms: H0 finishes tx D3
    // ...
    // 144ms: H0 finishes tx D10
    // 157ms: Switch finishes rx D10, starts tx D10 to H1
    // 158ms: H1 rx D10
    // 159ms + 320us: Switch tx A10
    // 160ms + 640us: H0 rx A10
    assert_eq!(e.current_time(), 1_160_640_000);
}

fn two_flows_scenario<S: Switch>(t: Topology<S, ConstCwnd>) {
    let mut e = Executor::new(t);

    let flow1 = FlowInfo {
        flow_id: 1,
        sender_id: 1,
        dest_id: 0,
        length_bytes: 43800, // 30 packet flow
        max_packet_length: 1460,
    };

    let flow2 = FlowInfo {
        flow_id: 2,
        sender_id: 2,
        dest_id: 0,
        length_bytes: 43800, // 30 packet flow
        max_packet_length: 1460,
    };

    // starts at t = 1.0s
    e.push(Event::FlowArrival(FlowArrivalEvent(flow1, 1_000_000_000)));
    e.push(Event::FlowArrival(FlowArrivalEvent(flow2, 1_000_000_000)));

    let mut e = e.execute().unwrap();
    assert!(e.components().1.all_flows().iter().all(|f| f.completion_time().is_some()));
}

#[test]
fn two_flows_lossy() {
    two_flows_scenario(make::<LossySwitch>(3))
}

#[test]
fn two_flows_pfc() {
    two_flows_scenario(make::<PFCSwitch>(3))
}

#[test]
fn two_flows_pfc_ingress() {
    two_flows_scenario(make::<IngressPFCSwitch>(3))
}

fn victim_flow_scenario<S: Switch>() -> Executor<S, ConstCwnd> {
    let e = IndependentVictimFlowScenario::make::<S>();
    let mut e = e.execute().unwrap();
    assert!(e.components().1.all_flows().iter().all(|f| f.completion_time().is_some()));
    e
}

fn sharedingress_victim_flow_scenario<S: Switch>() {
    let e = SharedIngressVictimFlowScenario::make::<S>();
    let mut e = e.execute().unwrap();
    assert!(e.components().1.all_flows().iter().all(|f| f.completion_time().is_some()));
}

#[test]
fn victim_flow_lossy() {
    victim_flow_scenario::<LossySwitch>();
}

#[test]
fn victim_flow_pfc() {
    victim_flow_scenario::<PFCSwitch>();
}

#[test]
fn victim_flow_pfc_ingress() {
    victim_flow_scenario::<IngressPFCSwitch>();
}

#[test]
fn sharedingress_victim_flow_pfc_ingress() {
    sharedingress_victim_flow_scenario::<IngressPFCSwitch>();
}

#[test]
fn victim_flow_nacks() {
    victim_flow_scenario::<NackSwitch>();
}

#[test]
fn completed_flows_have_seen_every_byte() {
    let mut e = victim_flow_scenario::<NackSwitch>();
    for f in e.components().1.all_flows() {
        match f {
            rdma_sim::flow::go_back_n::GoBackN::Sender(s) => {
                assert_eq!(s.side(), FlowSide::Sender);
                assert_eq!(s.cumulative_acked, s.flow_info.length_bytes);
                assert!(s.next_to_send <= s.flow_info.length_bytes);
            }
            rdma_sim::flow::go_back_n::GoBackN::Receiver(r) => {
                assert_eq!(r.side(), FlowSide::Receiver);
                assert_eq!(r.cumulative_received, r.flow_info.length_bytes);
            }
        }
    }
}

fn flow(flow_id: u32, sender_id: u32, dest_id: u32, packets: u32, at: Nanos) -> Event {
    Event::FlowArrival(FlowArrivalEvent(
        FlowInfo { flow_id, sender_id, dest_id, length_bytes: packets * 1460, max_packet_length: 1460 },
        at,
    ))
}

#[test]
fn time_never_goes_back() {
    let mut e: Executor<NackSwitch, ConstCwnd> = Executor::new(make::<NackSwitch>(3));
    e.push(flow(1, 1, 0, 30, 1_000_000_000));
    e.push(flow(2, 2, 0, 30, 1_000_000_000));
    let mut last = e.current_time();
    loop {
        let (next, done) = e.step().unwrap();
        assert!(next.current_time() >= last);
        last = next.current_time();
        e = next;
        if done {
            break;
        }
    }
    let mut seen = 0;
    for r in e.trace() {
        if let Some(t) = r.time() {
            assert!(t >= seen);
            seen = t;
        }
    }
    assert_eq!(e.trace().last(), Some(&TraceRecord::Exiting { time: last }));
}

#[test]
fn equal_runs_leave_equal_traces() {
    let first = victim_flow_scenario::<PFCSwitch>();
    let second = victim_flow_scenario::<PFCSwitch>();
    assert_eq!(first.trace(), second.trace());
    assert_eq!(first.current_time(), second.current_time());
}

#[test]
fn events_at_one_instant_fire_in_push_order() {
    let mut e: Executor<LossySwitch, ConstCwnd> = Executor::new(make::<LossySwitch>(3));
    e.push(flow(7, 1, 0, 1, 5));
    e.push(flow(8, 2, 0, 1, 5));
    e.push(flow(9, 1, 2, 1, 3));
    let (e, _) = e.step().unwrap();
    assert_eq!(e.current_time(), 3);
    let (e, _) = e.step().unwrap();
    assert_eq!(e.current_time(), 5);
    let (mut e, _) = e.step().unwrap();
    assert_eq!(e.current_time(), 5);
    let ids: Vec<u32> = e.components().1.all_flows().iter().map(|f| f.flow_info().flow_id).collect();
    // Host 0 got flow 7 before flow 8; hosts 1 and 2 got flow 9 first.
    assert_eq!(ids, vec![7, 8, 9, 7, 9, 8]);
}

#[test]
fn unknown_node_aborts_the_run() {
    let mut e = setup_test();
    e.push(flow(1, 0, 9, 1, 10));
    assert_eq!(e.execute().err(), Some(SimError::NodeNotFound(1, 9)));
}

#[test]
fn flow_to_a_switch_aborts_the_run() {
    let mut e = setup_test();
    e.push(flow(1, 0, 2, 1, 10));
    assert_eq!(e.execute().err(), Some(SimError::NotAHost(2)));
}

#[test]
fn flow_to_its_own_sender_aborts_the_run() {
    let mut e = setup_test();
    e.push(flow(1, 0, 0, 1, 10));
    assert_eq!(e.execute().err(), Some(SimError::NodeNotFound(1, 0)));
}

#[test]
fn packet_without_route_aborts_the_run() {
    let mut e = setup_test();
    let pkt = Packet::Data { hdr: PacketHeader { flow: 0, from: 0, to: 5 }, seq: 0, length: 1460 };
    e.components().1.lookup_host(0).unwrap().push_pkt(pkt);
    assert_eq!(e.execute().err(), Some(SimError::NoRoute(5)));
}

#[test]
fn foreign_link_is_refused() {
    let mut t = make::<LossySwitch>(2);
    let stray = Link { propagation_delay: 1, bandwidth_bps: 1, pfc_enabled: false, from: 7, to: 0 };
    assert_eq!(t.switches[0].reactivate(stray), Err(SimError::ForeignLink(7)));
    assert_eq!(t.hosts[0].reactivate(stray), Err(SimError::ForeignLink(7)));
    let own = t.hosts[0].link;
    assert_eq!(t.hosts[0].reactivate(own), Ok(()));
    let nowhere = Link { from: 2, to: 9, ..stray };
    assert_eq!(t.switches[0].reactivate(nowhere), Err(SimError::NoRoute(9)));
}

#[test]
fn isolated_packet_is_discarded_with_a_warning() {
    let mut e = setup_test();
    let pkt = Packet::Data { hdr: PacketHeader { flow: 0, from: 0, to: 1 }, seq: 0, length: 1460 };
    e.components().1.lookup_host(0).unwrap().push_pkt(pkt);
    let e = e.execute().unwrap();
    assert!(e.trace().contains(&TraceRecord::Isolated { packet: pkt }));
    assert!(e.trace().contains(&TraceRecord::Rx { time: 26_000_000, node: 1, packet: pkt }));
    assert!(e.trace().contains(&TraceRecord::Tx { time: 0, node: 0, packet: pkt }));
}

#[test]
fn scenario_flows() {
    let mut e = IndependentVictimFlowScenario::make::<LossySwitch>();
    assert_eq!(e.current_time(), 0);
    assert_eq!(e.components().1.hosts.len(), 4);
    let mut e = SharedIngressVictimFlowScenario::make::<LossySwitch>();
    let (next, done) = { e.components(); e.step().unwrap() };
    assert!(!done);
    assert_eq!(next.current_time(), 1_000_000_000);
}

fn victim_completion<S: Switch>() -> Nanos {
    let mut e = victim_flow_scenario::<S>();
    let flows = e.components().1.all_flows();
    let victim = flows
        .iter()
        .find(|f| f.flow_info().flow_id == 0 && f.side() == FlowSide::Sender)
        .unwrap();
    victim.completion_time().unwrap()
}

#[test]
fn victim_flow_outcomes_are_reproducible() {
    assert_eq!(victim_completion::<PFCSwitch>(), victim_completion::<PFCSwitch>());
    assert_eq!(victim_completion::<IngressPFCSwitch>(), victim_completion::<IngressPFCSwitch>());
}

fn make_pfc<S: Switch>(num_hosts: u32) -> Topology<S, ConstCwnd> {
    <rdma_sim::topology::one_big_switch::OneBigSwitchPFC<S> as TopologyStrategy<S, ConstCwnd>>::make_topology(
        num_hosts, 15_000, 1_000_000, 1_000_000,
    )
}

fn drops(trace: &[TraceRecord]) -> usize {
    trace.iter().filter(|r| matches!(r, TraceRecord::Dropping { .. })).count()
}

#[test]
fn balanced_flows_under_pfc_lose_nothing() {
    // One sender for each receiver: no queue takes in more than it sends.
    let mut e: Executor<PFCSwitch, ConstCwnd> = Executor::new(make_pfc::<PFCSwitch>(4));
    e.push(flow(1, 0, 1, 30, 1_000_000_000));
    e.push(flow(2, 2, 3, 30, 1_000_000_000));
    let e = e.execute().unwrap();
    assert_eq!(drops(e.trace()), 0);
    let mut e: Executor<IngressPFCSwitch, ConstCwnd> = Executor::new(make_pfc::<IngressPFCSwitch>(4));
    e.push(flow(1, 0, 1, 30, 1_000_000_000));
    e.push(flow(2, 2, 3, 30, 1_000_000_000));
    let mut e = e.execute().unwrap();
    assert_eq!(drops(e.trace()), 0);
    assert!(e.components().1.all_flows().iter().all(|f| f.completion_time().is_some()));
}

#[test]
fn victim_flow_under_both_kinds_of_pfc() {
    let pfc = victim_completion::<PFCSwitch>();
    let ingress = victim_completion::<IngressPFCSwitch>();
    // A PFC switch lifts a pause as soon as any of its queues has room
    // again, so the victim is not held back for long under either kind.
    assert_eq!(pfc, 387_520_000);
    assert_eq!(ingress, 389_440_000);
}

#[test]
fn nack_switch_drop_is_followed_by_the_same_packet() {
    let mut e = victim_flow_scenario::<NackSwitch>();
    let trace = e.trace().clone();
    let mut dropped = 0;
    for (i, r) in trace.iter().enumerate() {
        if let TraceRecord::Dropping { node: 4, packet: Packet::Data { hdr, seq, .. }, .. } = r {
            dropped += 1;
            // The same packet reaches its destination later on.
            let again = trace[i + 1..].iter().any(|later| match later {
                TraceRecord::Rx { node, packet: Packet::Data { hdr: h, seq: s, .. }, .. } => {
                    *node == hdr.to && h.flow == hdr.flow && s == seq
                }
                _ => false,
            });
            assert!(again);
        }
    }
    assert!(dropped > 0);
    assert!(e.components().1.all_flows().iter().all(|f| f.completion_time().is_some()));
}

#[test]
fn receiver_sends_one_nack_until_data_arrives_in_order() {
    let info = FlowInfo { flow_id: 1, sender_id: 0, dest_id: 1, length_bytes: 4380, max_packet_length: 1460 };
    let (_, mut receiver) = rdma_sim::flow::go_back_n::new::<ConstCwnd>(info);
    let hdr = PacketHeader { flow: 1, from: 0, to: 1 };
    let mut trace = Vec::new();
    let late = Packet::Data { hdr, seq: 1460, length: 1460 };
    assert!(receiver.can_receive(5, late));
    let (first, clear) = receiver.receive(5, late, &mut trace).unwrap();
    assert_eq!(first, vec![Packet::Nack { hdr: PacketHeader { flow: 1, from: 1, to: 0 }, nacked_seq: 0 }]);
    assert!(!clear);
    let (second, _) = receiver.receive(6, Packet::Data { hdr, seq: 2920, length: 1460 }, &mut trace).unwrap();
    assert!(second.is_empty());
    let (third, _) = receiver.receive(7, Packet::Data { hdr, seq: 0, length: 1460 }, &mut trace).unwrap();
    assert_eq!(third, vec![Packet::Ack { hdr: PacketHeader { flow: 1, from: 1, to: 0 }, cumulative_acked_seq: 1460 }]);
    let (fourth, _) = receiver.receive(8, Packet::Data { hdr, seq: 2920, length: 1460 }, &mut trace).unwrap();
    assert_eq!(fourth, vec![Packet::Nack { hdr: PacketHeader { flow: 1, from: 1, to: 0 }, nacked_seq: 1460 }]);
    assert!(trace.is_empty());
    // Packets of another flow, or of the wrong kind, are not taken.
    assert!(!receiver.can_receive(9, Packet::Data { hdr: PacketHeader { flow: 2, from: 0, to: 1 }, seq: 0, length: 1 }));
    assert!(!receiver.can_receive(9, Packet::Ack { hdr, cumulative_acked_seq: 0 }));
}

#[test]
fn sender_window_and_go_back() {
    let info = FlowInfo { flow_id: 1, sender_id: 0, dest_id: 1, length_bytes: 20_000, max_packet_length: 1460 };
    let (mut sender, _) = rdma_sim::flow::go_back_n::new::<ConstCwnd>(info);
    let mut trace = Vec::new();
    let back = PacketHeader { flow: 1, from: 1, to: 0 };
    // The window is ten packets.
    let (burst, clear) = sender.exec(100, &mut trace).unwrap();
    assert_eq!(burst.len(), 10);
    assert!(!clear);
    assert_eq!(burst[9], Packet::Data { hdr: PacketHeader { flow: 1, from: 0, to: 1 }, seq: 13_140, length: 1460 });
    assert_eq!(sender.next_to_send, 14_600);
    // Nothing more until something is acknowledged.
    assert!(sender.exec(101, &mut trace).unwrap().0.is_empty());
    // An ACK moves the window by what it acknowledges.
    let (more, _) = sender.receive(200, Packet::Ack { hdr: back, cumulative_acked_seq: 2920 }, &mut trace).unwrap();
    assert_eq!(more.len(), 2);
    assert_eq!(sender.cumulative_acked, 2920);
    // An old ACK is ignored.
    let (none, clear) = sender.receive(201, Packet::Ack { hdr: back, cumulative_acked_seq: 1460 }, &mut trace).unwrap();
    assert!(none.is_empty() && !clear);
    assert_eq!(sender.cumulative_acked, 2920);
    // A NACK sends the sender back, and asks the host to forget stale data.
    let (again, clear) = sender.receive(300, Packet::Nack { hdr: back, nacked_seq: 4380 }, &mut trace).unwrap();
    assert!(clear);
    assert_eq!(again[0], Packet::Data { hdr: PacketHeader { flow: 1, from: 0, to: 1 }, seq: 4380, length: 1460 });
    assert_eq!(again.len(), 9);
    // The last packet is short: 20000 = 13 * 1460 + 1020.
    let (tail, _) = sender.receive(400, Packet::Ack { hdr: back, cumulative_acked_seq: 17_520 }, &mut trace).unwrap();
    assert_eq!(tail.last(), Some(&Packet::Data { hdr: PacketHeader { flow: 1, from: 0, to: 1 }, seq: 18_980, length: 1020 }));
    assert_eq!(sender.next_to_send, 20_000);
    // A second after the last ACK the sender goes back to what is acknowledged.
    assert!(sender.exec(1_000_000_400, &mut trace).unwrap().0.is_empty());
    let (retx, clear) = sender.exec(1_000_000_401, &mut trace).unwrap();
    assert!(clear);
    assert_eq!(retx[0], Packet::Data { hdr: PacketHeader { flow: 1, from: 0, to: 1 }, seq: 17_520, length: 1460 });
    // The ACK of the last byte completes the flow.
    assert_eq!(sender.completion_time(), None);
    let (done, _) = sender.receive(1_500_000_000, Packet::Ack { hdr: back, cumulative_acked_seq: 20_000 }, &mut trace).unwrap();
    assert!(done.is_empty());
    assert_eq!(sender.completion_time(), Some(1_500_000_000 - 100));
    assert_eq!(
        trace,
        vec![TraceRecord::FlowCompleted {
            flow: 1,
            node: 0,
            side: FlowSide::Sender,
            completion_time: 1_499_999_900,
            start_time: 100,
            end_time: 1_500_000_000,
        }]
    );
    assert!(sender.exec(1_600_000_000, &mut trace).unwrap().0.is_empty());
}

#[test]
fn events_in_the_past_cannot_be_pushed() {
    let mut e = setup_test();
    e.push(flow(1, 0, 1, 1, 50));
    let (e, _) = e.step().unwrap();
    assert_eq!(e.current_time(), 50);
    assert!(!e.can_push(&flow(2, 0, 1, 1, 49)));
    assert!(e.can_push(&flow(2, 0, 1, 1, 50)));
    let far = Event::LinkTransmit(rdma_sim::node::LinkTransmitEvent(
        Link { propagation_delay: u64::MAX, bandwidth_bps: 1, pfc_enabled: false, from: 0, to: 2 },
        Packet::Pause(0),
    ));
    assert!(!e.can_push(&far));
}

fn down(to: u32) -> Link {
    Link { propagation_delay: 1_000_000, bandwidth_bps: 1_000_000, pfc_enabled: false, from: 2, to }
}

#[test]
fn idle_host_reports_nothing_pending() {
    let mut t = make::<LossySwitch>(2);
    let mut trace = Vec::new();
    assert!(t.hosts[0].is_active());
    assert_eq!(t.hosts[0].exec(5, &mut trace), Err(SimError::NoPendingPackets));
    assert!(!t.hosts[0].is_active());
    assert!(trace.is_empty());
}

#[test]
fn paused_host_sends_nothing_until_resumed() {
    let mut t = make::<LossySwitch>(2);
    let mut trace = Vec::new();
    let pkt = Packet::Data { hdr: PacketHeader { flow: 0, from: 0, to: 1 }, seq: 0, length: 100 };
    let link = t.hosts[0].link;
    t.hosts[0].push_pkt(pkt);
    assert_eq!(t.hosts[0].receive(Packet::Pause(2), link, 1, &mut trace), Ok(vec![]));
    assert_eq!(t.hosts[0].exec(2, &mut trace), Ok(vec![]));
    assert_eq!(t.hosts[0].receive(Packet::Resume(2), link, 3, &mut trace), Ok(vec![]));
    let sent = t.hosts[0].exec(4, &mut trace).unwrap();
    assert_eq!(sent, vec![Event::NodeTransmit(rdma_sim::node::NodeTransmitEvent(link, pkt))]);
    assert_eq!(
        trace,
        vec![
            TraceRecord::Rx { time: 1, node: 0, packet: Packet::Pause(2) },
            TraceRecord::Pausing { node: 0 },
            TraceRecord::Rx { time: 3, node: 0, packet: Packet::Resume(2) },
            TraceRecord::Resuming { node: 0 },
            TraceRecord::Tx { time: 4, node: 0, packet: pkt },
        ]
    );
}

#[test]
fn host_forgets_stale_data_on_a_nack() {
    let mut t = make::<LossySwitch>(2);
    let mut trace = Vec::new();
    let info = FlowInfo { flow_id: 1, sender_id: 0, dest_id: 1, length_bytes: 14_600, max_packet_length: 1460 };
    let (sender, _) = rdma_sim::flow::go_back_n::new::<ConstCwnd>(info);
    t.hosts[0].flow_arrival(rdma_sim::flow::go_back_n::GoBackN::Sender(*sender));
    let link = t.hosts[0].link;
    // The first poll lines up ten packets and sends the first.
    t.hosts[0].exec(10, &mut trace).unwrap();
    assert_eq!(t.hosts[0].to_send.len(), 9);
    let other = Packet::Ack { hdr: PacketHeader { flow: 9, from: 0, to: 1 }, cumulative_acked_seq: 1 };
    t.hosts[0].push_pkt(other);
    let nack = Packet::Nack { hdr: PacketHeader { flow: 1, from: 1, to: 0 }, nacked_seq: 2920 };
    t.hosts[0].receive(nack, link, 20, &mut trace).unwrap();
    // What waited of flow 1 is gone; the ACK of another flow stays in front
    // of the eight packets from 2920 on.
    let waiting: Vec<Packet> = t.hosts[0].to_send.iter().cloned().collect();
    assert_eq!(waiting.len(), 9);
    assert_eq!(waiting[0], other);
    assert_eq!(waiting[1], Packet::Data { hdr: PacketHeader { flow: 1, from: 0, to: 1 }, seq: 2920, length: 1460 });
    assert_eq!(waiting[8], Packet::Data { hdr: PacketHeader { flow: 1, from: 0, to: 1 }, seq: 13_140, length: 1460 });
}

#[test]
fn nack_that_finds_no_room_stops_the_run() {
    let queues = vec![DropTailQueue::new(39, down(0)), DropTailQueue::new(1_000, down(1))];
    let mut s = NackSwitch::new(2, queues);
    let mut trace = Vec::new();
    let pkt = Packet::Data { hdr: PacketHeader { flow: 0, from: 0, to: 1 }, seq: 0, length: 1460 };
    assert_eq!(s.receive(pkt, down(2), 7, &mut trace), Err(SimError::NackOverflow(0)));
    assert_eq!(s.blocked_flows.get(&0), Some(&0));
    assert_eq!(trace.last(), Some(&TraceRecord::Dropping { time: 7, node: 2, packet: pkt }));
}

#[test]
fn nack_switch_purges_later_data_and_blocks_the_flow() {
    let queues = vec![DropTailQueue::new(15_000, down(0)), DropTailQueue::new(3_100, down(1))];
    let mut s = NackSwitch::new(2, queues);
    let mut trace = Vec::new();
    let hdr = PacketHeader { flow: 5, from: 0, to: 1 };
    let data = |seq: u32| Packet::Data { hdr, seq, length: 1460 };
    assert_eq!(s.receive(data(1460), down(2), 1, &mut trace), Ok(vec![]));
    assert_eq!(s.receive(data(4380), down(2), 2, &mut trace), Ok(vec![]));
    // No room for the third: it is dropped, what the queue holds of the flow
    // beyond it goes too, and a NACK is queued towards the sender.
    assert_eq!(s.receive(data(2920), down(2), 3, &mut trace), Ok(vec![]));
    assert_eq!(s.blocked_flows.get(&5), Some(&2920));
    assert_eq!(s.rack[1].count_matching(|_| true), 1);
    assert_eq!(s.rack[1].peek(), Some(data(1460)));
    assert_eq!(s.rack[0].peek(), Some(Packet::Nack { hdr: PacketHeader { flow: 5, from: 1, to: 0 }, nacked_seq: 2920 }));
    // Anything but the packet waited for is dropped on arrival.
    assert_eq!(s.receive(data(5840), down(2), 4, &mut trace), Ok(vec![]));
    assert_eq!(s.rack[1].count_matching(|_| true), 1);
    // The packet waited for unblocks the flow.
    assert_eq!(s.receive(data(2920), down(2), 5, &mut trace), Ok(vec![]));
    assert_eq!(s.blocked_flows.get(&5), None);
    assert_eq!(s.rack[1].count_matching(|_| true), 2);
    assert_eq!(drops(&trace), 1);
}

#[test]
fn pfc_switch_pauses_every_neighbour_when_a_queue_fills() {
    let on = |to: u32| Link { pfc_enabled: true, ..down(to) };
    let queues = vec![DropTailQueue::new(15_000, on(0)), DropTailQueue::new(6_000, on(1))];
    let mut s = PFCSwitch::new(2, queues);
    let mut trace = Vec::new();
    let pkt = |seq: u32| Packet::Data { hdr: PacketHeader { flow: 0, from: 0, to: 1 }, seq, length: 1460 };
    // Headroom 4500 is above the pause threshold of 3125.
    s.receive(pkt(0), on(2), 1, &mut trace).unwrap();
    assert!(!s.rack[0].1 && !s.rack[1].1);
    // Headroom 3000 is not.
    s.receive(pkt(1), on(2), 2, &mut trace).unwrap();
    assert!(s.rack[0].1 && s.rack[1].1);
    let pause = TraceRecord::Tx { time: 2, node: 2, packet: Packet::Pause(2) };
    assert_eq!(trace.iter().filter(|r| **r == pause).count(), 2);
    // The PAUSE leaves ahead of the data.
    let sent = s.exec(3, &mut trace).unwrap();
    assert_eq!(
        sent,
        vec![
            Event::NodeTransmit(rdma_sim::node::NodeTransmitEvent(on(0), Packet::Pause(2))),
            Event::NodeTransmit(rdma_sim::node::NodeTransmitEvent(on(1), Packet::Pause(2))),
        ]
    );
    // The queue towards node 0 is empty, which is room enough to resume.
    assert!(!s.rack[0].1 && !s.rack[1].1);
    // A neighbour's PAUSE stops the queue whose link starts at the node named.
    s.receive(Packet::Pause(2), on(2), 4, &mut trace).unwrap();
    assert!(s.rack[0].0.is_paused());
    s.receive(Packet::Resume(2), on(2), 5, &mut trace).unwrap();
    assert!(!s.rack[0].0.is_paused());
    assert_eq!(s.receive(Packet::Pause(9), on(2), 6, &mut trace), Err(SimError::NoRoute(9)));
}

#[test]
fn ingress_pfc_switch_loses_track_of_a_packet_sent_twice() {
    let queues = vec![DropTailQueue::new(15_000, down(0)), DropTailQueue::new(15_000, down(1))];
    let mut s = IngressPFCSwitch::new(2, queues);
    let mut trace = Vec::new();
    let pkt = Packet::Data { hdr: PacketHeader { flow: 0, from: 0, to: 1 }, seq: 0, length: 1460 };
    let up = Link { propagation_delay: 1_000_000, bandwidth_bps: 1_000_000, pfc_enabled: false, from: 0, to: 2 };
    s.receive(pkt, up, 1, &mut trace).unwrap();
    s.receive(pkt, up, 2, &mut trace).unwrap();
    assert_eq!(s.exec(3, &mut trace).unwrap().len(), 1);
    assert_eq!(s.reactivate(down(1)), Ok(()));
    assert_eq!(s.exec(4, &mut trace), Err(SimError::UntrackedPacket(1)));
}

#[test]
fn fire_time_beyond_the_clock_stops_the_run() {
    let t = <OneBigSwitch<LossySwitch> as TopologyStrategy<LossySwitch, ConstCwnd>>::make_topology(
        2, 15_000, 1_000_000, u64::MAX,
    );
    let mut e = Executor::new(t);
    e.push(flow(1, 0, 1, 1, 10));
    assert_eq!(e.execute().err(), Some(SimError::TimeOverflow));
}

/// A switch that answers every poll with an event in the past.
pub struct LateSwitch(LossySwitch);

impl Switch for LateSwitch {
    type Model = ();

    fn new(switch_id: u32, links: Vec<DropTailQueue>) -> Self {
        LateSwitch(LossySwitch::new(switch_id, links))
    }

    fn id(&self) -> u32 {
        self.0.id()
    }

    fn receive(&mut self, p: Packet, l: Link, time: Nanos, trace: &mut Vec<TraceRecord>) -> Result<Vec<Event>, SimError> {
        self.0.receive(p, l, time, trace)
    }

    fn exec(&mut self, _time: Nanos, _trace: &mut Vec<TraceRecord>) -> Result<Vec<Event>, SimError> {
        Ok(vec![flow(3, 0, 1, 1, 0)])
    }

    fn reactivate(&mut self, l: Link) -> Result<(), SimError> {
        self.0.reactivate(l)
    }

    fn is_active(&self) -> bool {
        self.0.is_active()
    }
}

#[test]
fn event_in_the_past_stops_the_run() {
    let mut e: Executor<LateSwitch, ConstCwnd> = Executor::new(make::<LateSwitch>(2));
    let pkt = Packet::Data { hdr: PacketHeader { flow: 0, from: 0, to: 1 }, seq: 0, length: 1460 };
    e.components().1.lookup_host(0).unwrap().push_pkt(pkt);
    assert_eq!(e.execute().err(), Some(SimError::PastEvent));
}

#[test]
fn transmission_delays() {
    let link = down(0);
    let data = Packet::Data { hdr: PacketHeader { flow: 0, from: 1, to: 0 }, seq: 0, length: 1460 };
    assert_eq!(rdma_sim::node::NodeTransmitEvent(link, data).time(), EventTime::Delta(12_000_000));
    assert_eq!(rdma_sim::node::NodeTransmitEvent(link, Packet::Pause(2)).time(), EventTime::Delta(72_000));
    assert_eq!(
        rdma_sim::node::NodeTransmitEvent(link, Packet::Ack { hdr: PacketHeader { flow: 0, from: 1, to: 0 }, cumulative_acked_seq: 0 }).time(),
        EventTime::Delta(320_000)
    );
    assert_eq!(rdma_sim::node::LinkTransmitEvent(link, data).time(), EventTime::Delta(1_000_000));
    assert_eq!(rdma_sim::node::NodeTransmitEvent(link, data).affected_node_ids(), vec![2]);
    assert_eq!(rdma_sim::node::LinkTransmitEvent(link, data).affected_node_ids(), vec![0]);
    let arrival = FlowArrivalEvent(
        FlowInfo { flow_id: 1, sender_id: 3, dest_id: 4, length_bytes: 1, max_packet_length: 1 },
        77,
    );
    assert_eq!(arrival.time(), EventTime::Absolute(77));
    assert_eq!(arrival.affected_node_ids(), vec![3, 4]);
}
