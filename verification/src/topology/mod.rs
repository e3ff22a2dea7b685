//! The registry of nodes: hosts first, then switches, each found by its id.

use vstd::prelude::*;
use crate::Nanos;
use crate::congcontrol::CongAlg;
use crate::error::SimError;
use crate::event::Event;
use crate::flow::Flow;
use crate::flow::go_back_n::GoBackN;
use crate::node::{Host, HostState, Link};
use crate::node::switch::{Switch, events_of, yields_valid};
use crate::packet::Packet;
use crate::topology::lookup::{
    Tagged, distinct_ids, indexed, knows, lemma_back_in_order, lemma_merge_answers,
    lemma_same_entries, lemma_strict_iff_distinct, merge_by_indices, partition_ids, sort_by_id,
    sort_by_position, strictly_by_id,
};
use crate::trace::TraceRecord;

pub mod lookup;
pub mod one_big_switch;

verus! {

/// Builds a topology for a kind of switch.
pub trait TopologyStrategy<S: Switch, CC: CongAlg> {
    /// Whether the links of the topologies built speak PFC.
    spec fn pfc_enabled() -> bool;

    fn make_topology(
        num_hosts: u32,
        queue_length_bytes: u32,
        access_link_bandwidth: u64,
        per_link_propagation_delay: Nanos,
    ) -> (t: Topology<S, CC>)
        requires
            one_big_switch::buildable(
                num_hosts,
                access_link_bandwidth,
                per_link_propagation_delay,
                Self::pfc_enabled(),
            ),
        ensures
            t.wf(),
            t@ == one_big_switch::built::<S, CC>(
                num_hosts,
                queue_length_bytes,
                access_link_bandwidth,
                per_link_propagation_delay,
                Self::pfc_enabled(),
            ),
    ;
}

/// Where a node stands in the topology: the slot among the hosts, or the
/// slot among the switches.
#[derive(Clone, Copy, Debug, PartialEq, Eq, Structural)]
pub enum TopologyNode {
    Host(usize),
    Switch(usize),
}

/// Hosts carry the ids `0 .. H`, switches the ids `H .. H + S`, each in the
/// slot that its id gives.
pub struct Topology<S: Switch, CC: CongAlg> {
    pub hosts: Vec<Host<CC>>,
    pub switches: Vec<S>,
}

/// A topology as a mathematical value.
pub struct TopologyState<S: Switch, CC: CongAlg> {
    pub hosts: Seq<HostState<CC>>,
    pub switches: Seq<S::Model>,
}

/// The node that carries `id` among `hosts` hosts and `switches` switches.
pub open spec fn slot_of(hosts: nat, switches: nat, id: u32) -> Option<TopologyNode> {
    if id < hosts {
        Some(TopologyNode::Host(id as usize))
    } else if id - hosts < switches {
        Some(TopologyNode::Switch((id - hosts) as usize))
    } else {
        None
    }
}

/// Every slot of a topology of `hosts` hosts and `switches` switches, hosts
/// first.
pub open spec fn slots(hosts: nat, switches: nat) -> Seq<TopologyNode> {
    Seq::new(
        hosts + switches,
        |k: int|
            if k < hosts {
                TopologyNode::Host(k as usize)
            } else {
                TopologyNode::Switch((k - hosts) as usize)
            },
    )
}

/// The flows of the first `n` hosts, host by host.
pub open spec fn flows_upto<CC: CongAlg>(hosts: Seq<HostState<CC>>, n: nat) -> Seq<GoBackN<CC>>
    decreases n,
{
    if n == 0 {
        Seq::empty()
    } else {
        flows_upto(hosts, (n - 1) as nat) + hosts[n - 1].flows
    }
}

/// Position `i` of `ids` cannot be borrowed: the id is unknown, or an
/// earlier position names the same node.
pub open spec fn offends(ids: Seq<u32>, hosts: nat, switches: nat, i: int) -> bool {
    &&& 0 <= i < ids.len()
    &&& slot_of(hosts, switches, ids[i]) is None || exists|j: int| 0 <= j < i && ids[j] == ids[i]
}

/// Position `i` is the first that cannot be borrowed.
pub open spec fn first_offence(ids: Seq<u32>, hosts: nat, switches: nat, i: int) -> bool {
    &&& offends(ids, hosts, switches, i)
    &&& forall|j: int| 0 <= j < i ==> !offends(ids, hosts, switches, j)
}

/// The nodes that `ids` name, in the order of `ids`; or the first position
/// that cannot be borrowed.
pub open spec fn resolved(ids: Seq<u32>, hosts: nat, switches: nat) -> Result<
    Seq<TopologyNode>,
    SimError,
> {
    if exists|i: int| first_offence(ids, hosts, switches, i) {
        let i = choose|i: int| first_offence(ids, hosts, switches, i);
        Err(SimError::NodeNotFound(i as usize, ids[i]))
    } else {
        Ok(Seq::new(ids.len(), |i: int| slot_of(hosts, switches, ids[i])->0))
    }
}

/// `count` nodes in a row, each as its slot and its id: the id of the node
/// in slot `j` is `first + j`.
pub open spec fn node_tags(first: nat, count: nat) -> Seq<Tagged> {
    Seq::new(count, |j: int| (j as usize, (first + j) as u32))
}

/// Nodes in a row are in strictly ascending order of id.
pub proof fn lemma_tags_strict(first: nat, count: nat)
    requires
        first + count <= u32::MAX + 1,
    ensures
        strictly_by_id(node_tags(first, count)),
{
}

/// Every id of a request is in one of the two parts that the request was
/// split into.
pub proof fn lemma_in_a_part(host_part: Seq<Tagged>, sw_part: Seq<Tagged>, ids: Seq<u32>, p: int)
    requires
        0 <= p < ids.len(),
        host_part.to_multiset().add(sw_part.to_multiset()) == indexed(ids).to_multiset(),
    ensures
        host_part.contains((p as usize, ids[p])) || sw_part.contains((p as usize, ids[p])),
{
    let x = (p as usize, ids[p]);
    assert(indexed(ids)[p] == x);
    assert(indexed(ids).contains(x));
    vstd::seq_lib::to_multiset_contains(indexed(ids), x);
    vstd::seq_lib::to_multiset_contains(host_part, x);
    vstd::seq_lib::to_multiset_contains(sw_part, x);
}

/// The nodes of a result, as a sequence.
pub open spec fn nodes_of(r: Result<Vec<TopologyNode>, SimError>) -> Result<
    Seq<TopologyNode>,
    SimError,
> {
    match r {
        Ok(nodes) => Ok(nodes@),
        Err(e) => Err(e),
    }
}

impl<S: Switch, CC: CongAlg> TopologyState<S, CC> {
    /// Whether `node` is a slot of this topology.
    pub open spec fn has(self, node: TopologyNode) -> bool {
        match node {
            TopologyNode::Host(i) => i < self.hosts.len(),
            TopologyNode::Switch(j) => j < self.switches.len(),
        }
    }

    /// The test that tells the active nodes from the others.
    pub open spec fn activity(self) -> spec_fn(TopologyNode) -> bool {
        |node: TopologyNode| self.is_active(node)
    }

    pub open spec fn is_active(self, node: TopologyNode) -> bool {
        match node {
            TopologyNode::Host(i) => self.hosts[i as int].active,
            TopologyNode::Switch(j) => S::model_active(self.switches[j as int]),
        }
    }

    pub open spec fn with_host(self, i: int, h: HostState<CC>) -> Self {
        TopologyState { hosts: self.hosts.update(i, h), ..self }
    }

    pub open spec fn with_switch(self, j: int, s: S::Model) -> Self {
        TopologyState { switches: self.switches.update(j, s), ..self }
    }

    /// `node` takes packet `p` off link `l` at `time`.
    pub open spec fn receive(self, node: TopologyNode, p: Packet, l: Link, time: Nanos) -> NodeStep<
        S,
        CC,
    > {
        match node {
            TopologyNode::Host(i) => {
                let step = self.hosts[i as int].receive(p, time);
                NodeStep {
                    next: self.with_host(i as int, step.next),
                    result: step.result,
                    trace: step.trace,
                }
            },
            TopologyNode::Switch(j) => {
                let step = S::model_receive(self.switches[j as int], p, l, time);
                NodeStep {
                    next: self.with_switch(j as int, step.next),
                    result: step.result,
                    trace: step.trace,
                }
            },
        }
    }

    /// `node` is polled at `time`.
    pub open spec fn exec(self, node: TopologyNode, time: Nanos) -> NodeStep<S, CC> {
        match node {
            TopologyNode::Host(i) => {
                let step = self.hosts[i as int].exec(time);
                NodeStep {
                    next: self.with_host(i as int, step.next),
                    result: step.result,
                    trace: step.trace,
                }
            },
            TopologyNode::Switch(j) => {
                let step = S::model_exec(self.switches[j as int], time);
                NodeStep {
                    next: self.with_switch(j as int, step.next),
                    result: step.result,
                    trace: step.trace,
                }
            },
        }
    }

    /// Link `l` of `node` has finished serialising.
    pub open spec fn reactivate(self, node: TopologyNode, l: Link) -> (Self, Result<(), SimError>) {
        match node {
            TopologyNode::Host(i) => (
                self.with_host(i as int, self.hosts[i as int].reactivate(l).0),
                self.hosts[i as int].reactivate(l).1,
            ),
            TopologyNode::Switch(j) => (
                self.with_switch(j as int, S::model_reactivate(self.switches[j as int], l).0),
                S::model_reactivate(self.switches[j as int], l).1,
            ),
        }
    }

    /// A flow starts or ends at `node`. Only a host can take one; `id` is
    /// the id under which the node was looked up.
    pub open spec fn flow_arrival(self, node: TopologyNode, id: u32, f: GoBackN<CC>) -> (
        Self,
        Result<(), SimError>,
    ) {
        match node {
            TopologyNode::Host(i) => (
                self.with_host(i as int, self.hosts[i as int].flow_arrival(f)),
                Ok(()),
            ),
            TopologyNode::Switch(_) => (self, Err(SimError::NotAHost(id))),
        }
    }
}

/// What one step of a node does to the topology.
pub struct NodeStep<S: Switch, CC: CongAlg> {
    pub next: TopologyState<S, CC>,
    pub result: Result<Seq<Event>, SimError>,
    pub trace: Seq<TraceRecord>,
}

impl<S: Switch, CC: CongAlg> View for Topology<S, CC> {
    type V = TopologyState<S, CC>;

    open spec fn view(&self) -> TopologyState<S, CC> {
        TopologyState {
            hosts: self.hosts@.map_values(|h: Host<CC>| h@),
            switches: self.switches@.map_values(|s: S| s.model()),
        }
    }
}

impl<S: Switch, CC: CongAlg> Topology<S, CC> {
    /// Every node stands in the slot that its id gives, and the ids fit in
    /// 32 bits.
    pub open spec fn slots_in_order(&self) -> bool {
        &&& self.hosts@.len() + self.switches@.len() <= u32::MAX + 1
        &&& forall|i: int| 0 <= i < self.hosts@.len() ==> (#[trigger] self.hosts@[i]).id == i
        &&& forall|j: int|
            0 <= j < self.switches@.len() ==> S::model_id((#[trigger] self.switches@[j]).model())
                == self.hosts@.len() + j
    }

    /// Every node is well-formed and stands in the slot that its id gives.
    pub open spec fn wf(&self) -> bool {
        &&& self.slots_in_order()
        &&& forall|i: int| 0 <= i < self.hosts@.len() ==> (#[trigger] self.hosts@[i])@.wf()
        &&& forall|j: int| 0 <= j < self.switches@.len() ==> (#[trigger] self.switches@[j]).wf()
    }

    /// The nodes that are active, hosts first, in slot order.
    pub fn active_nodes(&self) -> (nodes: Vec<TopologyNode>)
        ensures
            nodes@ == slots(self.hosts@.len(), self.switches@.len()).filter(self@.activity()),
    {
        let ghost all = slots(self.hosts@.len(), self.switches@.len());
        let ghost on = self@.activity();
        let mut nodes: Vec<TopologyNode> = Vec::new();
        let mut i: usize = 0;
        proof {
            assert(all.take(0) =~= Seq::<TopologyNode>::empty());
            assert(Seq::<TopologyNode>::empty().filter(on) =~= Seq::<TopologyNode>::empty());
        }
        while i < self.hosts.len()
            invariant
                i <= self.hosts@.len(),
                all == slots(self.hosts@.len(), self.switches@.len()),
                on == self@.activity(),
                nodes@ == all.take(i as int).filter(on),
            decreases self.hosts@.len() - i,
        {
            proof {
                assert(all.take(i + 1) =~= all.take(i as int).push(TopologyNode::Host(i)));
                all.take(i as int).lemma_filter_push(TopologyNode::Host(i), on);
            }
            if self.hosts[i].is_active() {
                nodes.push(TopologyNode::Host(i));
            }
            i = i + 1;
        }
        let mut j: usize = 0;
        while j < self.switches.len()
            invariant
                j <= self.switches@.len(),
                i == self.hosts@.len(),
                all == slots(self.hosts@.len(), self.switches@.len()),
                on == self@.activity(),
                nodes@ == all.take(i + j).filter(on),
            decreases self.switches@.len() - j,
        {
            proof {
                assert(all.take(i + j + 1) =~= all.take(i + j).push(TopologyNode::Switch(j)));
                all.take(i + j).lemma_filter_push(TopologyNode::Switch(j), on);
            }
            if self.switches[j].is_active() {
                nodes.push(TopologyNode::Switch(j));
            }
            j = j + 1;
        }
        proof {
            assert(all.take(i + j) =~= all);
        }
        nodes
    }

    /// Both ends of every flow, host by host.
    pub fn all_flows(&self) -> (flows: Vec<&GoBackN<CC>>)
        ensures
            flows@.map_values(|f: &GoBackN<CC>| *f) == flows_upto(self@.hosts, self@.hosts.len()),
    {
        let mut flows: Vec<&GoBackN<CC>> = Vec::new();
        let mut i: usize = 0;
        while i < self.hosts.len()
            invariant
                i <= self.hosts@.len(),
                flows@.map_values(|f: &GoBackN<CC>| *f) == flows_upto(self@.hosts, i as nat),
            decreases self.hosts@.len() - i,
        {
            let ghost had = flows@.map_values(|f: &GoBackN<CC>| *f);
            let mut k: usize = 0;
            while k < self.hosts[i].active_flows.len()
                invariant
                    i < self.hosts@.len(),
                    k <= self.hosts@[i as int].active_flows@.len(),
                    flows@.map_values(|f: &GoBackN<CC>| *f) == had + self.hosts@[i as int].active_flows@.take(
                        k as int,
                    ),
                decreases self.hosts@[i as int].active_flows@.len() - k,
            {
                let ghost sofar = flows@.map_values(|f: &GoBackN<CC>| *f);
                flows.push(&self.hosts[i].active_flows[k]);
                proof {
                    let mine = self.hosts@[i as int].active_flows@;
                    assert(mine.take(k + 1) =~= mine.take(k as int).push(mine[k as int]));
                    assert(flows@.map_values(|f: &GoBackN<CC>| *f) =~= sofar.push(mine[k as int]));
                }
                k = k + 1;
            }
            proof {
                let mine = self.hosts@[i as int].active_flows@;
                assert(mine.take(k as int) =~= mine);
                assert(self@.hosts[i as int].flows == mine);
            }
            i = i + 1;
        }
        flows
    }

    /// The host with the given id.
    pub fn lookup_host(&mut self, id: u32) -> (r: Result<&mut Host<CC>, SimError>)
        ensures
            match r {
                Ok(h) => {
                    &&& id < old(self).hosts@.len()
                    &&& *h == old(self).hosts@[id as int]
                    &&& final(self).hosts@ == old(self).hosts@.update(id as int, *final(h))
                    &&& final(self).switches == old(self).switches
                },
                Err(e) => {
                    &&& id >= old(self).hosts@.len()
                    &&& e == SimError::InvalidHost(id)
                    &&& *final(self) == *old(self)
                },
            },
    {
        if (id as usize) < self.hosts.len() {
            Ok(&mut self.hosts[id as usize])
        } else {
            Err(SimError::InvalidHost(id))
        }
    }

    /// The slot of the node with the given id.
    pub fn lookup_node(&self, id: u32) -> (r: Result<TopologyNode, SimError>)
        ensures
            match r {
                Ok(node) => slot_of(self.hosts@.len(), self.switches@.len(), id) == Some(node)
                    && self@.has(node),
                Err(e) => slot_of(self.hosts@.len(), self.switches@.len(), id) is None && e
                    == SimError::InvalidNode(id),
            },
    {
        if (id as usize) < self.hosts.len() {
            Ok(TopologyNode::Host(id as usize))
        } else if (id as usize) - self.hosts.len() < self.switches.len() {
            Ok(TopologyNode::Switch((id as usize) - self.hosts.len()))
        } else {
            Err(SimError::InvalidNode(id))
        }
    }

    /// The first place of a request that cannot be borrowed, if there is
    /// one.
    fn first_offending(&self, ids: &[u32]) -> (found: Option<usize>)
        ensures
            match found {
                Some(i) => first_offence(
                    ids@,
                    self.hosts@.len(),
                    self.switches@.len(),
                    i as int,
                ),
                None => forall|i: int|
                    !offends(ids@, self.hosts@.len(), self.switches@.len(), i),
            },
    {
        let ghost hosts = self.hosts@.len();
        let ghost switches = self.switches@.len();
        let mut i: usize = 0;
        while i < ids.len()
            invariant
                i <= ids@.len(),
                hosts == self.hosts@.len(),
                switches == self.switches@.len(),
                forall|k: int| 0 <= k < i ==> !offends(ids@, hosts, switches, k),
            decreases ids@.len() - i,
        {
            let id: u32 = ids[i];
            let mut repeated: bool = false;
            let mut j: usize = 0;
            while j < i
                invariant
                    j <= i,
                    i < ids@.len(),
                    id == ids@[i as int],
                    repeated == exists|m: int| 0 <= m < j && ids@[m] == id,
                decreases i - j,
            {
                if ids[j] == id {
                    repeated = true;
                }
                j = j + 1;
            }
            if repeated || self.lookup_node(id).is_err() {
                return Some(i);
            }
            i = i + 1;
        }
        None
    }

    /// The hosts, each as its slot and its id.
    fn host_tags(&self) -> (tags: Vec<Tagged>)
        requires
            self.slots_in_order(),
        ensures
            tags@ == node_tags(0, self.hosts@.len()),
    {
        let mut tags: Vec<Tagged> = Vec::new();
        let mut i: usize = 0;
        while i < self.hosts.len()
            invariant
                i <= self.hosts@.len(),
                self.slots_in_order(),
                tags@ == node_tags(0, i as nat),
            decreases self.hosts@.len() - i,
        {
            tags.push((i, self.hosts[i].id()));
            proof {
                assert(tags@ =~= node_tags(0, (i + 1) as nat));
            }
            i = i + 1;
        }
        tags
    }

    /// The switches, each as its slot and its id.
    fn switch_tags(&self) -> (tags: Vec<Tagged>)
        requires
            self.slots_in_order(),
        ensures
            tags@ == node_tags(self.hosts@.len(), self.switches@.len()),
    {
        let mut tags: Vec<Tagged> = Vec::new();
        let mut j: usize = 0;
        while j < self.switches.len()
            invariant
                j <= self.switches@.len(),
                self.slots_in_order(),
                tags@ == node_tags(self.hosts@.len(), j as nat),
            decreases self.switches@.len() - j,
        {
            tags.push((j, self.switches[j].id()));
            proof {
                assert(tags@ =~= node_tags(self.hosts@.len(), (j + 1) as nat));
            }
            j = j + 1;
        }
        tags
    }

    /// The slots of the nodes with the given ids, in the order of `ids`, so
    /// that each can be borrowed on its own: an id that is unknown, or that
    /// names a node already asked for, is an error.
    pub fn lookup_nodes(&self, ids: &[u32]) -> (r: Result<Vec<TopologyNode>, SimError>)
        requires
            self.slots_in_order(),
        ensures
            nodes_of(r) == resolved(ids@, self.hosts@.len(), self.switches@.len()),
            r matches Ok(nodes) ==> forall|k: int| 0 <= k < nodes@.len() ==> self@.has(#[trigger] nodes@[k]),
    {
        let ghost hosts = self.hosts@.len();
        let ghost switches = self.switches@.len();
        let asked: usize = ids.len();
        assert(ids@.len() <= usize::MAX);
        let (mut host_ids, mut sw_ids) = partition_ids(ids, self.hosts.len());
        let ghost host_part = host_ids@;
        let ghost sw_part = sw_ids@;
        sort_by_id(&mut host_ids);
        sort_by_id(&mut sw_ids);
        let host_nodes = self.host_tags();
        let sw_nodes = self.switch_tags();
        proof {
            lemma_strict_iff_distinct(host_part, host_ids@, ids@);
            lemma_strict_iff_distinct(sw_part, sw_ids@, ids@);
            lemma_tags_strict(0, hosts);
            lemma_tags_strict(hosts, switches);
            lemma_merge_answers(host_nodes@, host_ids@);
            lemma_merge_answers(sw_nodes@, sw_ids@);
            assert forall|k: int| 0 <= k < host_ids@.len() implies (#[trigger] host_ids@[k]).1
                < hosts by {
                assert(host_ids@.contains(host_ids@[k]));
                lemma_same_entries(host_part, host_ids@, host_ids@[k]);
                let m = choose|m: int| 0 <= m < host_part.len() && host_part[m] == host_ids@[k];
                assert(host_part[m].1 < hosts);
            }
            assert forall|k: int| 0 <= k < sw_ids@.len() implies (#[trigger] sw_ids@[k]).1
                >= hosts by {
                assert(sw_ids@.contains(sw_ids@[k]));
                lemma_same_entries(sw_part, sw_ids@, sw_ids@[k]);
                let m = choose|m: int| 0 <= m < sw_part.len() && sw_part[m] == sw_ids@[k];
                assert(sw_part[m].1 >= hosts);
            }
            assert forall|k: int| 0 <= k < host_ids@.len() implies knows(
                host_nodes@,
                (#[trigger] host_ids@[k]).1,
            ) by {
                let id = host_ids@[k].1;
                assert(host_nodes@[id as int].1 == id);
            }
        }
        let found_hosts = merge_by_indices(&host_nodes, &host_ids);
        let found_switches = merge_by_indices(&sw_nodes, &sw_ids);
        match (found_hosts, found_switches) {
            (Some(hs), Some(sw)) => {
                let mut all: Vec<Tagged> = hs;
                let mut rest: Vec<Tagged> = sw;
                all.append(&mut rest);
                proof {
                    assert(all@ == host_ids@ + sw_ids@);
                    vstd::seq_lib::lemma_multiset_commutative(host_ids@, sw_ids@);
                }
                let out = sort_by_position(all);
                proof {
                    lemma_back_in_order(out@, ids@);
                    // Every id asked for is known.
                    assert forall|i: int| 0 <= i < ids@.len() implies (#[trigger] slot_of(
                        hosts,
                        switches,
                        ids@[i],
                    )) is Some by {
                        let x = (i as usize, ids@[i]);
                        assert(indexed(ids@)[i] == x);
                        assert(out@.contains(x));
                        lemma_same_entries(out@, host_ids@ + sw_ids@, x);
                        let k = choose|k: int|
                            0 <= k < (host_ids@ + sw_ids@).len() && (host_ids@ + sw_ids@)[k] == x;
                        if k < host_ids@.len() {
                            assert(host_ids@[k] == x);
                        } else {
                            assert(sw_ids@[k - host_ids@.len()] == x);
                            assert(knows(sw_nodes@, x.1));
                            let m = choose|m: int|
                                0 <= m < sw_nodes@.len() && (#[trigger] sw_nodes@[m]).1 == x.1;
                            assert(sw_nodes@[m].1 == hosts + m);
                        }
                    }
                    // No id is asked for twice.
                    assert forall|p: int, q: int| 0 <= p < q < ids@.len() implies ids@[p]
                        != ids@[q] by {
                        if ids@[p] == ids@[q] {
                            let x = (p as usize, ids@[p]);
                            let y = (q as usize, ids@[q]);
                            assert(x != y);
                            assert(indexed(ids@)[p] == x);
                            assert(indexed(ids@)[q] == y);
                            lemma_in_a_part(host_part, sw_part, ids@, p);
                            lemma_in_a_part(host_part, sw_part, ids@, q);
                            if host_part.contains(x) {
                                let a = choose|a: int| 0 <= a < host_part.len() && host_part[a] == x;
                                if host_part.contains(y) {
                                    let b = choose|b: int|
                                        0 <= b < host_part.len() && host_part[b] == y;
                                    assert(host_part[a].1 != host_part[b].1);
                                } else {
                                    let b = choose|b: int| 0 <= b < sw_part.len() && sw_part[b] == y;
                                    assert(host_part[a].1 < hosts && sw_part[b].1 >= hosts);
                                }
                            } else {
                                let a = choose|a: int| 0 <= a < sw_part.len() && sw_part[a] == x;
                                if sw_part.contains(y) {
                                    let b = choose|b: int| 0 <= b < sw_part.len() && sw_part[b] == y;
                                    assert(sw_part[a].1 != sw_part[b].1);
                                } else {
                                    let b = choose|b: int|
                                        0 <= b < host_part.len() && host_part[b] == y;
                                    assert(sw_part[a].1 >= hosts && host_part[b].1 < hosts);
                                }
                            }
                        }
                    }
                    assert forall|c: int| !first_offence(ids@, hosts, switches, c) by {
                        if offends(ids@, hosts, switches, c) {
                            assert(slot_of(hosts, switches, ids@[c]) is Some);
                            let j = choose|j: int| 0 <= j < c && ids@[j] == ids@[c];
                            assert(ids@[j] != ids@[c]);
                        }
                    }
                }
                let mut nodes: Vec<TopologyNode> = Vec::new();
                let mut i: usize = 0;
                while i < out.len()
                    invariant
                        i <= out@.len(),
                        out@ == indexed(ids@),
                        hosts == self.hosts@.len(),
                        switches == self.switches@.len(),
                        forall|k: int|
                            0 <= k < ids@.len() ==> (#[trigger] slot_of(hosts, switches, ids@[k])) is Some,
                        nodes@.len() == i,
                        forall|k: int|
                            0 <= k < i ==> Some(#[trigger] nodes@[k]) == slot_of(
                                hosts,
                                switches,
                                ids@[k],
                            ) && self@.has(nodes@[k]),
                    decreases out@.len() - i,
                {
                    proof {
                        assert(out@[i as int] == indexed(ids@)[i as int]);
                        assert(slot_of(hosts, switches, ids@[i as int]) is Some);
                    }
                    match self.lookup_node(out[i].1) {
                        Ok(node) => {
                            nodes.push(node);
                        },
                        Err(_) => {},
                    }
                    i = i + 1;
                }
                proof {
                    assert(nodes@ =~= Seq::new(
                        ids@.len(),
                        |k: int| slot_of(hosts, switches, ids@[k])->0,
                    ));
                }
                Ok(nodes)
            },
            _ => {
                let found = self.first_offending(ids);
                proof {
                    if found is None {
                        // With nothing in the way both merges would have
                        // answered every request.
                        assert(distinct_ids(ids@)) by {
                            assert forall|p: int, q: int| 0 <= p < q < ids@.len() implies ids@[p]
                                != ids@[q] by {
                                assert(!offends(ids@, hosts, switches, q));
                            }
                        }
                        assert forall|k: int| 0 <= k < sw_ids@.len() implies knows(
                            sw_nodes@,
                            (#[trigger] sw_ids@[k]).1,
                        ) by {
                            let x = sw_ids@[k];
                            assert(!offends(ids@, hosts, switches, x.0 as int));
                            assert(slot_of(hosts, switches, x.1) is Some);
                            assert(sw_nodes@[x.1 - hosts].1 == x.1);
                        }
                    }
                    if found is Some {
                        let i = found->0 as int;
                        let c = choose|c: int| first_offence(ids@, hosts, switches, c);
                        if c < i {
                            assert(!offends(ids@, hosts, switches, c));
                        } else if i < c {
                            assert(!offends(ids@, hosts, switches, i));
                        }
                    }
                }
                match found {
                    Some(i) => Err(SimError::NodeNotFound(i, ids[i])),
                    // Not reached: a merge left a request unanswered, so
                    // some place of the request is in the way.
                    None => Err(SimError::NodeNotFound(0, 0)),
                }
            },
        }
    }

    /// The id of the node in a slot.
    pub fn node_id(&self, node: TopologyNode) -> (id: u32)
        requires
            self@.has(node),
        ensures
            id == match node {
                TopologyNode::Host(i) => self@.hosts[i as int].id,
                TopologyNode::Switch(j) => S::model_id(self@.switches[j as int]),
            },
    {
        match node {
            TopologyNode::Host(i) => self.hosts[i].id(),
            TopologyNode::Switch(j) => self.switches[j].id(),
        }
    }

    pub fn node_is_active(&self, node: TopologyNode) -> (a: bool)
        requires
            self@.has(node),
        ensures
            a == self@.is_active(node),
    {
        match node {
            TopologyNode::Host(i) => self.hosts[i].is_active(),
            TopologyNode::Switch(j) => self.switches[j].is_active(),
        }
    }

    /// Hands packet `p`, which came over link `l`, to the node in a slot.
    pub fn node_receive(
        &mut self,
        node: TopologyNode,
        p: Packet,
        l: Link,
        time: Nanos,
        trace: &mut Vec<TraceRecord>,
    ) -> (r: Result<Vec<Event>, SimError>)
        requires
            old(self).wf(),
            old(self)@.has(node),
            p.valid(),
        ensures
            final(self).wf(),
            final(self)@ == old(self)@.receive(node, p, l, time).next,
            events_of(r) == old(self)@.receive(node, p, l, time).result,
            final(trace)@ == old(trace)@ + old(self)@.receive(node, p, l, time).trace,
            yields_valid(events_of(r)),
            final(self).hosts@.len() == old(self).hosts@.len(),
            final(self).switches@.len() == old(self).switches@.len(),
    {
        let ghost before = self@;
        match node {
            TopologyNode::Host(i) => {
                let r = self.hosts[i].receive(p, l, time, trace);
                proof {
                    assert(self@.hosts =~= before.hosts.update(i as int, self.hosts@[i as int]@));
                    assert(self@.switches =~= before.switches);
                }
                r
            },
            TopologyNode::Switch(j) => {
                let r = self.switches[j].receive(p, l, time, trace);
                proof {
                    assert(self@.switches =~= before.switches.update(
                        j as int,
                        self.switches@[j as int].model(),
                    ));
                    assert(self@.hosts =~= before.hosts);
                }
                r
            },
        }
    }

    /// Polls the node in a slot.
    pub fn node_exec(&mut self, node: TopologyNode, time: Nanos, trace: &mut Vec<TraceRecord>) -> (r:
        Result<Vec<Event>, SimError>)
        requires
            old(self).wf(),
            old(self)@.has(node),
        ensures
            final(self).wf(),
            final(self)@ == old(self)@.exec(node, time).next,
            events_of(r) == old(self)@.exec(node, time).result,
            final(trace)@ == old(trace)@ + old(self)@.exec(node, time).trace,
            yields_valid(events_of(r)),
            final(self).hosts@.len() == old(self).hosts@.len(),
            final(self).switches@.len() == old(self).switches@.len(),
    {
        let ghost before = self@;
        match node {
            TopologyNode::Host(i) => {
                let r = self.hosts[i].exec(time, trace);
                proof {
                    assert(self@.hosts =~= before.hosts.update(i as int, self.hosts@[i as int]@));
                    assert(self@.switches =~= before.switches);
                }
                r
            },
            TopologyNode::Switch(j) => {
                let r = self.switches[j].exec(time, trace);
                proof {
                    assert(self@.switches =~= before.switches.update(
                        j as int,
                        self.switches@[j as int].model(),
                    ));
                    assert(self@.hosts =~= before.hosts);
                }
                r
            },
        }
    }

    /// Tells the node in a slot that its link `l` is free again.
    pub fn node_reactivate(&mut self, node: TopologyNode, l: Link) -> (r: Result<(), SimError>)
        requires
            old(self).wf(),
            old(self)@.has(node),
        ensures
            final(self).wf(),
            final(self)@ == old(self)@.reactivate(node, l).0,
            r == old(self)@.reactivate(node, l).1,
            final(self).hosts@.len() == old(self).hosts@.len(),
            final(self).switches@.len() == old(self).switches@.len(),
    {
        let ghost before = self@;
        match node {
            TopologyNode::Host(i) => {
                let r = self.hosts[i].reactivate(l);
                proof {
                    assert(self@.hosts =~= before.hosts.update(i as int, self.hosts@[i as int]@));
                    assert(self@.switches =~= before.switches);
                }
                r
            },
            TopologyNode::Switch(j) => {
                let r = self.switches[j].reactivate(l);
                proof {
                    assert(self@.switches =~= before.switches.update(
                        j as int,
                        self.switches@[j as int].model(),
                    ));
                    assert(self@.hosts =~= before.hosts);
                }
                r
            },
        }
    }

    /// Installs one end of a flow on the node in a slot, which must be a
    /// host; `id` is the id under which the node was looked up.
    pub fn node_flow_arrival(&mut self, node: TopologyNode, id: u32, f: GoBackN<CC>) -> (r: Result<
        (),
        SimError,
    >)
        requires
            old(self).wf(),
            old(self)@.has(node),
            f.wf(),
        ensures
            final(self).wf(),
            final(self)@ == old(self)@.flow_arrival(node, id, f).0,
            r == old(self)@.flow_arrival(node, id, f).1,
            final(self).hosts@.len() == old(self).hosts@.len(),
            final(self).switches@.len() == old(self).switches@.len(),
    {
        let ghost before = self@;
        match node {
            TopologyNode::Host(i) => {
                self.hosts[i].flow_arrival(f);
                proof {
                    assert(self@.hosts =~= before.hosts.update(i as int, self.hosts@[i as int]@));
                    assert(self@.switches =~= before.switches);
                }
                Ok(())
            },
            TopologyNode::Switch(_) => Err(SimError::NotAHost(id)),
        }
    }
}

} // verus!
