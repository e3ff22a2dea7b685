use rdma_sim::congcontrol::ConstCwnd;
use rdma_sim::error::SimError;
use rdma_sim::node::switch::lossy_switch::LossySwitch;
use rdma_sim::node::switch::Switch;
use rdma_sim::topology::one_big_switch::{OneBigSwitch, OneBigSwitchPFC};
use rdma_sim::topology::{Topology, TopologyNode, TopologyStrategy};

fn make_lossy(num_hosts: u32) -> Topology<LossySwitch, ConstCwnd> {
    <OneBigSwitch<LossySwitch> as TopologyStrategy<LossySwitch, ConstCwnd>>::make_topology(
        num_hosts, 15_000, 1_000_000, 1_000,
    )
}

#[test]
fn topology_make() {
    let _t = make_lossy(2);
}

#[test]
fn mod_make() {
    let _t = make_lossy(2);
}

#[test]
fn lookup_node() {
    let t = make_lossy(5);
    let nodes = t.lookup_nodes(&[2, 4, 5]).unwrap();
    assert_eq!(nodes.len(), 3);
    assert_eq!(t.node_id(nodes[0]), 2);
    assert_eq!(t.node_id(nodes[1]), 4);
    assert_eq!(t.node_id(nodes[2]), 5);
}

#[test]
fn lookup_nonexistent_node() {
    let t = make_lossy(5);
    t.lookup_nodes(&[1, 3, 6]).unwrap_err();
}

#[test]
fn lookup_keeps_the_callers_order() {
    let t = make_lossy(5);
    let nodes = t.lookup_nodes(&[5, 0, 3]).unwrap();
    assert_eq!(nodes, vec![TopologyNode::Switch(0), TopologyNode::Host(0), TopologyNode::Host(3)]);
}

#[test]
fn lookup_refuses_a_node_named_twice() {
    let t = make_lossy(5);
    assert_eq!(t.lookup_nodes(&[1, 2, 1]), Err(SimError::NodeNotFound(2, 1)));
    assert_eq!(t.lookup_nodes(&[9, 2, 2]), Err(SimError::NodeNotFound(0, 9)));
}

#[test]
fn lookup_single_node_and_host() {
    let mut t = make_lossy(3);
    assert_eq!(t.lookup_node(0), Ok(TopologyNode::Host(0)));
    assert_eq!(t.lookup_node(3), Ok(TopologyNode::Switch(0)));
    assert_eq!(t.lookup_node(4), Err(SimError::InvalidNode(4)));
    assert_eq!(t.lookup_host(2).unwrap().id, 2);
    assert!(matches!(t.lookup_host(3), Err(SimError::InvalidHost(3))));
}

#[test]
fn built_topology_has_hosts_around_one_switch() {
    let t = make_lossy(4);
    assert_eq!(t.hosts.len(), 4);
    assert_eq!(t.switches.len(), 1);
    assert_eq!(t.switches[0].id(), 4);
    assert_eq!(t.switches[0].rack.len(), 4);
    for (i, h) in t.hosts.iter().enumerate() {
        assert_eq!(h.id as usize, i);
        assert_eq!(h.link.from as usize, i);
        assert_eq!(h.link.to, 4);
        assert!(!h.link.pfc_enabled);
        assert!(h.active);
    }
    // Hosts start out active, the switch does not.
    assert_eq!(
        t.active_nodes(),
        vec![TopologyNode::Host(0), TopologyNode::Host(1), TopologyNode::Host(2), TopologyNode::Host(3)]
    );
}

#[test]
fn pfc_strategy_turns_pfc_on() {
    let t = <OneBigSwitchPFC<LossySwitch> as TopologyStrategy<LossySwitch, ConstCwnd>>::make_topology(
        2, 15_000, 1_000_000, 1_000,
    );
    assert!(t.hosts[0].link.pfc_enabled);
    assert!(t.hosts[1].link.pfc_enabled);
}

#[test]
fn lookup_sorts_the_request_and_puts_it_back() {
    let t = make_lossy(5);
    let nodes = t.lookup_nodes(&[3, 0, 5, 1]).unwrap();
    assert_eq!(
        nodes,
        vec![TopologyNode::Host(3), TopologyNode::Host(0), TopologyNode::Switch(0), TopologyNode::Host(1)]
    );
    assert_eq!(t.lookup_nodes(&[4, 3, 2, 1, 0]).unwrap().len(), 5);
    assert_eq!(t.lookup_nodes(&[]), Ok(vec![]));
    assert_eq!(t.lookup_nodes(&[3, 0, 5, 3]), Err(SimError::NodeNotFound(3, 3)));
    assert_eq!(t.lookup_nodes(&[5, 5]), Err(SimError::NodeNotFound(1, 5)));
    assert_eq!(t.lookup_nodes(&[7, 0, 0]), Err(SimError::NodeNotFound(0, 7)));
}
