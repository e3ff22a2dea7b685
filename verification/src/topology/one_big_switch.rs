//! The simplest topology: every host hangs off one switch.

use vstd::prelude::*;
use std::marker::PhantomData;
use crate::Nanos;
use crate::congcontrol::CongAlg;
use crate::node::{Host, HostState, Link};
use crate::node::switch::{QueueState, Switch, ports_wf, views};
use crate::node::switch::drop_tail_queue::DropTailQueue;
use crate::topology::{Topology, TopologyState, TopologyStrategy};

verus! {

/// The link from the switch down to host `id`.
pub open spec fn down_link(num_hosts: u32, bandwidth: u64, delay: Nanos, pfc: bool, id: u32) -> Link {
    Link {
        propagation_delay: delay,
        bandwidth_bps: bandwidth,
        pfc_enabled: pfc,
        from: num_hosts,
        to: id,
    }
}

/// The link from host `id` up to the switch.
pub open spec fn up_link(num_hosts: u32, bandwidth: u64, delay: Nanos, pfc: bool, id: u32) -> Link {
    Link {
        propagation_delay: delay,
        bandwidth_bps: bandwidth,
        pfc_enabled: pfc,
        from: id,
        to: num_hosts,
    }
}

/// A topology can be built when its links are valid.
pub open spec fn buildable(num_hosts: u32, bandwidth: u64, delay: Nanos, pfc: bool) -> bool {
    down_link(num_hosts, bandwidth, delay, pfc, 0).valid()
}

/// The switch's queues: an empty queue of `limit` bytes towards each host,
/// in host order.
pub open spec fn built_queues(num_hosts: u32, limit: u32, bandwidth: u64, delay: Nanos, pfc: bool) -> Seq<
    QueueState,
> {
    Seq::new(
        num_hosts as nat,
        |id: int|
            QueueState {
                limit_bytes: limit,
                link: down_link(num_hosts, bandwidth, delay, pfc, id as u32),
                pkts: Seq::empty(),
                forced_next: None,
                active: false,
                paused: false,
            },
    )
}

/// The hosts: each active, with no flows and nothing to send.
pub open spec fn built_hosts<CC: CongAlg>(num_hosts: u32, bandwidth: u64, delay: Nanos, pfc: bool) -> Seq<
    HostState<CC>,
> {
    Seq::new(
        num_hosts as nat,
        |id: int|
            HostState {
                id: id as u32,
                active: true,
                paused: false,
                link: up_link(num_hosts, bandwidth, delay, pfc, id as u32),
                flows: Seq::empty(),
                to_send: Seq::empty(),
            },
    )
}

/// Hosts `0 .. num_hosts` around one switch with id `num_hosts`.
pub open spec fn built<S: Switch, CC: CongAlg>(
    num_hosts: u32,
    limit: u32,
    bandwidth: u64,
    delay: Nanos,
    pfc: bool,
) -> TopologyState<S, CC> {
    TopologyState {
        hosts: built_hosts(num_hosts, bandwidth, delay, pfc),
        switches: seq![S::model_new(num_hosts, built_queues(num_hosts, limit, bandwidth, delay, pfc))],
    }
}

/// One queue towards each host.
pub fn switch_links(
    num_hosts: u32,
    queue_length_bytes: u32,
    access_link_bandwidth: u64,
    per_link_propagation_delay: Nanos,
    pfc_enabled: bool,
) -> (queues: Vec<DropTailQueue>)
    requires
        buildable(num_hosts, access_link_bandwidth, per_link_propagation_delay, pfc_enabled),
    ensures
        views(queues@) == built_queues(
            num_hosts,
            queue_length_bytes,
            access_link_bandwidth,
            per_link_propagation_delay,
            pfc_enabled,
        ),
        ports_wf(views(queues@)),
{
    let mut queues: Vec<DropTailQueue> = Vec::new();
    let mut id: u32 = 0;
    while id < num_hosts
        invariant
            id <= num_hosts,
            queues@.len() == id,
            buildable(num_hosts, access_link_bandwidth, per_link_propagation_delay, pfc_enabled),
            forall|k: int|
                0 <= k < id ==> (#[trigger] queues@[k])@ == built_queues(
                    num_hosts,
                    queue_length_bytes,
                    access_link_bandwidth,
                    per_link_propagation_delay,
                    pfc_enabled,
                )[k] && queues@[k]@.wf() && queues@[k]@.link.valid(),
        decreases num_hosts - id,
    {
        queues.push(
            DropTailQueue::new(
                queue_length_bytes,
                Link {
                    propagation_delay: per_link_propagation_delay,
                    bandwidth_bps: access_link_bandwidth,
                    pfc_enabled,
                    from: num_hosts,
                    to: id,
                },
            ),
        );
        id = id + 1;
    }
    proof {
        assert(views(queues@) =~= built_queues(
            num_hosts,
            queue_length_bytes,
            access_link_bandwidth,
            per_link_propagation_delay,
            pfc_enabled,
        ));
    }
    queues
}

/// The hosts, each with its link up to the switch.
pub fn hosts<CC: CongAlg>(
    num_hosts: u32,
    access_link_bandwidth: u64,
    per_link_propagation_delay: Nanos,
    pfc_enabled: bool,
) -> (hosts: Vec<Host<CC>>)
    requires
        access_link_bandwidth > 0,
    ensures
        hosts@.map_values(|h: Host<CC>| h@) == built_hosts::<CC>(
            num_hosts,
            access_link_bandwidth,
            per_link_propagation_delay,
            pfc_enabled,
        ),
        forall|k: int| 0 <= k < hosts@.len() ==> (#[trigger] hosts@[k])@.wf() && hosts@[k].id == k,
        hosts@.len() == num_hosts,
{
    let mut hosts: Vec<Host<CC>> = Vec::new();
    let mut id: u32 = 0;
    while id < num_hosts
        invariant
            id <= num_hosts,
            hosts@.len() == id,
            access_link_bandwidth > 0,
            forall|k: int|
                0 <= k < id ==> (#[trigger] hosts@[k])@ == built_hosts::<CC>(
                    num_hosts,
                    access_link_bandwidth,
                    per_link_propagation_delay,
                    pfc_enabled,
                )[k] && hosts@[k]@.wf() && hosts@[k].id == k,
        decreases num_hosts - id,
    {
        hosts.push(
            Host::new(
                id,
                Link {
                    propagation_delay: per_link_propagation_delay,
                    bandwidth_bps: access_link_bandwidth,
                    pfc_enabled,
                    from: id,
                    to: num_hosts,
                },
            ),
        );
        id = id + 1;
    }
    proof {
        assert(hosts@.map_values(|h: Host<CC>| h@) =~= built_hosts::<CC>(
            num_hosts,
            access_link_bandwidth,
            per_link_propagation_delay,
            pfc_enabled,
        ));
    }
    hosts
}

/// Puts the hosts around the switch.
pub fn topology<S: Switch, CC: CongAlg>(
    num_hosts: u32,
    access_link_bandwidth: u64,
    per_link_propagation_delay: Nanos,
    pfc_enabled: bool,
    big_switch: S,
) -> (t: Topology<S, CC>)
    requires
        access_link_bandwidth > 0,
        big_switch.wf(),
        S::model_id(big_switch.model()) == num_hosts,
    ensures
        t.wf(),
        t@ == (TopologyState::<S, CC> {
            hosts: built_hosts(
                num_hosts,
                access_link_bandwidth,
                per_link_propagation_delay,
                pfc_enabled,
            ),
            switches: seq![big_switch.model()],
        }),
{
    let mut switches: Vec<S> = Vec::new();
    switches.push(big_switch);
    let t = Topology {
        hosts: hosts(
            num_hosts,
            access_link_bandwidth,
            per_link_propagation_delay,
            pfc_enabled,
        ),
        switches,
    };
    proof {
        assert(t@.switches =~= seq![big_switch.model()]);
    }
    t
}

/// One big switch with PFC off on every link.
pub struct OneBigSwitch<S: Switch>(pub PhantomData<S>);

impl<S: Switch, CC: CongAlg> TopologyStrategy<S, CC> for OneBigSwitch<S> {
    open spec fn pfc_enabled() -> bool {
        false
    }

    fn make_topology(
        num_hosts: u32,
        queue_length_bytes: u32,
        access_link_bandwidth: u64,
        per_link_propagation_delay: Nanos,
    ) -> (t: Topology<S, CC>) {
        let big_switch = S::new(
            num_hosts,
            switch_links(
                num_hosts,
                queue_length_bytes,
                access_link_bandwidth,
                per_link_propagation_delay,
                false,
            ),
        );
        topology(
            num_hosts,
            access_link_bandwidth,
            per_link_propagation_delay,
            false,
            big_switch,
        )
    }
}

/// One big switch with PFC on on every link.
pub struct OneBigSwitchPFC<S: Switch>(pub PhantomData<S>);

impl<S: Switch, CC: CongAlg> TopologyStrategy<S, CC> for OneBigSwitchPFC<S> {
    open spec fn pfc_enabled() -> bool {
        true
    }

    fn make_topology(
        num_hosts: u32,
        queue_length_bytes: u32,
        access_link_bandwidth: u64,
        per_link_propagation_delay: Nanos,
    ) -> (t: Topology<S, CC>) {
        let big_switch = S::new(
            num_hosts,
            switch_links(
                num_hosts,
                queue_length_bytes,
                access_link_bandwidth,
                per_link_propagation_delay,
                true,
            ),
        );
        topology(
            num_hosts,
            access_link_bandwidth,
            per_link_propagation_delay,
            true,
            big_switch,
        )
    }
}

} // verus!
