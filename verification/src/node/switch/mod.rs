//! Switches and the queues they forward through.

use vstd::prelude::*;
use crate::Nanos;
use crate::error::SimError;
use crate::event::{Event, all_valid};
use crate::node::{Link, NodeTransmitEvent};
use crate::node::switch::drop_tail_queue::DropTailQueue;
use crate::packet::Packet;
use crate::trace::TraceRecord;

pub mod drop_tail_queue;
pub mod lossy_switch;
pub mod nack_switch;
pub mod pfc_switch;

verus! {

/// Sum of the wire sizes of a sequence of packets.
pub open spec fn total_bytes(pkts: Seq<Packet>) -> int
    decreases pkts.len(),
{
    if pkts.len() == 0 {
        0
    } else {
        total_bytes(pkts.drop_last()) + pkts.last().wire_size()
    }
}

/// What a queue is, as a mathematical value: a byte limit, the link it feeds,
/// the packets waiting in arrival order, an optional packet that jumps the
/// line, and two flags.
pub struct QueueState {
    pub limit_bytes: u32,
    pub link: Link,
    pub pkts: Seq<Packet>,
    pub forced_next: Option<Packet>,
    pub active: bool,
    pub paused: bool,
}

impl QueueState {
    /// Bytes held by the waiting packets. The forced head does not count.
    pub open spec fn occupancy(self) -> int {
        total_bytes(self.pkts)
    }

    /// The waiting packets fit under the limit, and every packet held can be
    /// serialised.
    pub open spec fn wf(self) -> bool {
        &&& self.occupancy() <= self.limit_bytes
        &&& forall|i: int| 0 <= i < self.pkts.len() ==> (#[trigger] self.pkts[i]).valid()
        &&& self.forced_next matches Some(p) ==> p.valid()
    }

    /// Bytes still free under the limit.
    pub open spec fn headroom(self) -> int {
        self.limit_bytes - self.occupancy()
    }

    /// A queue takes part in scheduling when it is flagged active and its link
    /// has not been paused by the far end.
    pub open spec fn is_active(self) -> bool {
        self.active && !self.paused
    }

    /// Whether there is room for `p`.
    pub open spec fn admits(self, p: Packet) -> bool {
        self.occupancy() + p.wire_size() <= self.limit_bytes
    }

    /// Drop-tail: `p` joins the back if it fits, and the queue becomes active;
    /// otherwise nothing changes.
    pub open spec fn enqueue(self, p: Packet) -> QueueState {
        if self.admits(p) {
            QueueState { pkts: self.pkts.push(p), active: true, ..self }
        } else {
            self
        }
    }

    /// `p` takes the forced-head slot, replacing what was there.
    pub open spec fn force_tx_next(self, p: Packet) -> QueueState {
        QueueState { forced_next: Some(p), active: true, ..self }
    }

    /// What leaves next: the forced head if there is one, else the front.
    pub open spec fn next_out(self) -> Option<Packet> {
        if self.forced_next is Some {
            self.forced_next
        } else if self.pkts.len() > 0 {
            Some(self.pkts[0])
        } else {
            None
        }
    }

    /// The queue after its next packet has left. When that leaves nothing
    /// behind, neither a waiting packet nor a forced head, the active flag is
    /// cleared.
    pub open spec fn dequeue(self) -> QueueState {
        if self.forced_next is Some {
            QueueState {
                forced_next: None,
                active: self.active && self.pkts.len() != 0,
                ..self
            }
        } else if self.pkts.len() > 0 {
            QueueState {
                pkts: self.pkts.subrange(1, self.pkts.len() as int),
                active: self.active && self.pkts.len() != 1,
                ..self
            }
        } else {
            self
        }
    }

    pub open spec fn with_active(self, a: bool) -> QueueState {
        QueueState { active: a, ..self }
    }

    pub open spec fn with_paused(self, a: bool) -> QueueState {
        QueueState { paused: a, ..self }
    }

    pub open spec fn with_pkts(self, pkts: Seq<Packet>) -> QueueState {
        QueueState { pkts, ..self }
    }
}

/// `kept` is what remains of `pkts` once a predicate has removed the packets
/// it accepts: in order, a packet goes where the predicate can answer `true`
/// for it and stays where it can answer `false`.
pub open spec fn sifted<F: Fn(Packet) -> bool>(pkts: Seq<Packet>, kept: Seq<Packet>, pred: F) -> bool
    decreases pkts.len(),
{
    if pkts.len() == 0 {
        kept.len() == 0
    } else {
        ||| call_ensures(pred, (pkts.last(),), true) && sifted(pkts.drop_last(), kept, pred)
        ||| {
            &&& call_ensures(pred, (pkts.last(),), false)
            &&& kept.len() > 0
            &&& kept.last() == pkts.last()
            &&& sifted(pkts.drop_last(), kept.drop_last(), pred)
        }
    }
}

/// Whether a predicate accepts exactly the packets that `keep` turns down.
pub open spec fn rejects<F: Fn(Packet) -> bool>(pred: F, keep: spec_fn(Packet) -> bool) -> bool {
    forall|p: Packet, b: bool| call_ensures(pred, (p,), b) ==> b == !keep(p)
}

/// A predicate with one answer per packet sifts like a filter.
pub proof fn lemma_sifted_is_filter<F: Fn(Packet) -> bool>(
    pkts: Seq<Packet>,
    kept: Seq<Packet>,
    pred: F,
    keep: spec_fn(Packet) -> bool,
)
    requires
        sifted(pkts, kept, pred),
        rejects(pred, keep),
    ensures
        kept == pkts.filter(keep),
    decreases pkts.len(),
{
    if pkts.len() == 0 {
        assert(pkts.filter(keep) =~= Seq::<Packet>::empty());
        assert(kept =~= Seq::<Packet>::empty());
    } else {
        let head = pkts.drop_last();
        let p = pkts.last();
        assert(pkts =~= head.push(p));
        head.lemma_filter_push(p, keep);
        if call_ensures(pred, (p,), true) && sifted(head, kept, pred) {
            lemma_sifted_is_filter(head, kept, pred, keep);
        } else {
            lemma_sifted_is_filter(head, kept.drop_last(), pred, keep);
            assert(kept =~= kept.drop_last().push(p));
        }
    }
}

/// The byte limit holds at all times: whatever is done to a queue whose
/// waiting packets fit under its limit, they still fit afterwards.
pub proof fn lemma_queue_limit_holds(q: QueueState, p: Packet, keep: spec_fn(Packet) -> bool, flag: bool)
    requires
        q.occupancy() <= q.limit_bytes,
    ensures
        q.enqueue(p).occupancy() <= q.limit_bytes,
        q.force_tx_next(p).occupancy() <= q.limit_bytes,
        q.dequeue().occupancy() <= q.limit_bytes,
        q.with_pkts(q.pkts.filter(keep)).occupancy() <= q.limit_bytes,
        q.with_active(flag).occupancy() <= q.limit_bytes,
        q.with_paused(flag).occupancy() <= q.limit_bytes,
        q.enqueue(p).limit_bytes == q.limit_bytes,
        q.dequeue().limit_bytes == q.limit_bytes,
{
    lemma_total_bytes_front(q.pkts);
    lemma_total_bytes_filter(q.pkts, keep);
    if q.admits(p) {
        assert(q.pkts.push(p).drop_last() =~= q.pkts);
    }
}

/// The total of a sequence is its first packet plus the total of the rest.
pub proof fn lemma_total_bytes_front(pkts: Seq<Packet>)
    ensures
        pkts.len() > 0 ==> total_bytes(pkts) == pkts[0].wire_size() + total_bytes(
            pkts.subrange(1, pkts.len() as int),
        ),
        total_bytes(pkts) >= 0,
    decreases pkts.len(),
{
    if pkts.len() == 1 {
        assert(pkts.drop_last() =~= pkts.subrange(1, 1));
    } else if pkts.len() > 1 {
        lemma_total_bytes_front(pkts.drop_last());
        lemma_total_bytes_front(pkts.subrange(1, pkts.len() as int));
        assert(pkts.subrange(1, pkts.len() as int).drop_last() =~= pkts.drop_last().subrange(
            1,
            pkts.len() - 1,
        ));
    }
}

/// What a filter keeps weighs no more than what was there.
pub proof fn lemma_total_bytes_filter(pkts: Seq<Packet>, keep: spec_fn(Packet) -> bool)
    ensures
        total_bytes(pkts.filter(keep)) <= total_bytes(pkts),
    decreases pkts.len(),
{
    if pkts.len() == 0 {
        assert(pkts.filter(keep) =~= pkts);
    } else {
        let head = pkts.drop_last();
        assert(pkts =~= head.push(pkts.last()));
        head.lemma_filter_push(pkts.last(), keep);
        lemma_total_bytes_filter(head, keep);
        if keep(pkts.last()) {
            assert(head.filter(keep).push(pkts.last()).drop_last() =~= head.filter(keep));
        }
    }
}

/// A queue feeds one outgoing link.
pub trait Queue: View<V = QueueState> + Sized {
    fn link(&self) -> (l: Link)
        ensures
            l == self@.link,
    ;

    /// Appends `p` if it fits; `None` means it was dropped.
    fn enqueue(&mut self, p: Packet) -> (taken: Option<()>)
        requires
            old(self)@.wf(),
            p.valid(),
        ensures
            final(self)@ == old(self)@.enqueue(p),
            taken.is_some() == old(self)@.admits(p),
            final(self)@.wf(),
    ;

    /// Puts `p` ahead of everything waiting, outside the byte limit.
    fn force_tx_next(&mut self, p: Packet) -> (taken: Option<()>)
        requires
            old(self)@.wf(),
            p.valid(),
        ensures
            final(self)@ == old(self)@.force_tx_next(p),
            taken.is_some(),
            final(self)@.wf(),
    ;

    fn dequeue(&mut self) -> (out: Option<Packet>)
        requires
            old(self)@.wf(),
        ensures
            final(self)@ == old(self)@.dequeue(),
            out == old(self)@.next_out(),
            out matches Some(p) ==> p.valid(),
            final(self)@.wf(),
    ;

    /// Removes every waiting packet that `should_discard` accepts and says how
    /// many went. The forced head and the flags stay as they are.
    fn discard_matching<F: Fn(Packet) -> bool>(&mut self, should_discard: F) -> (dropped: usize)
        requires
            old(self)@.wf(),
            forall|p: Packet| call_requires(should_discard, (p,)),
        ensures
            final(self)@ == old(self)@.with_pkts(final(self)@.pkts),
            sifted(old(self)@.pkts, final(self)@.pkts, should_discard),
            dropped == old(self)@.pkts.len() - final(self)@.pkts.len(),
            final(self)@.wf(),
    ;

    /// How many waiting packets `counter` accepts.
    fn count_matching<F: Fn(Packet) -> bool>(&self, counter: F) -> (n: usize)
        requires
            forall|p: Packet| call_requires(counter, (p,)),
        ensures
            exists|rest: Seq<Packet>|
                sifted(self@.pkts, rest, counter) && n == self@.pkts.len() - rest.len(),
    ;

    fn headroom(&self) -> (bytes: u32)
        requires
            self@.wf(),
        ensures
            bytes == self@.headroom(),
    ;

    fn is_active(&self) -> (a: bool)
        ensures
            a == self@.is_active(),
    ;

    fn set_active(&mut self, a: bool)
        ensures
            final(self)@ == old(self)@.with_active(a),
    ;

    fn is_paused(&self) -> (a: bool)
        ensures
            a == self@.paused,
    ;

    fn set_paused(&mut self, a: bool)
        ensures
            final(self)@ == old(self)@.with_paused(a),
    ;
}

/// The queues of a bank of ports, as mathematical values.
pub open spec fn views(queues: Seq<DropTailQueue>) -> Seq<QueueState> {
    queues.map_values(|q: DropTailQueue| q@)
}

/// Every queue of a bank is well-formed and feeds a valid link.
pub open spec fn ports_wf(queues: Seq<QueueState>) -> bool {
    forall|i: int|
        0 <= i < queues.len() ==> (#[trigger] queues[i]).wf() && queues[i].link.valid()
}

/// Port `i` is the first of the bank whose link leads to node `to`.
pub open spec fn leads(queues: Seq<QueueState>, to: u32, i: int) -> bool {
    &&& 0 <= i < queues.len()
    &&& queues[i].link.to == to
    &&& forall|j: int| 0 <= j < i ==> (#[trigger] queues[j]).link.to != to
}

/// The first port of the bank whose link leads to node `to`, if there is one.
pub open spec fn egress_towards(queues: Seq<QueueState>, to: u32) -> Option<int> {
    if exists|i: int| leads(queues, to, i) {
        Some(choose|i: int| leads(queues, to, i))
    } else {
        None
    }
}

/// At most one port is the first to lead somewhere.
pub proof fn lemma_leads_unique(queues: Seq<QueueState>, to: u32, i: int)
    requires
        leads(queues, to, i),
    ensures
        egress_towards(queues, to) == Some(i),
{
    let k = choose|k: int| leads(queues, to, k);
    if k < i {
        assert(queues[k].link.to != to);
    } else if i < k {
        assert(queues[i].link.to != to);
    }
}

/// Finds the first port whose link leads to node `to`.
pub fn find_egress(queues: &Vec<DropTailQueue>, to: u32) -> (found: Option<usize>)
    ensures
        match found {
            Some(i) => egress_towards(views(queues@), to) == Some(i as int) && i < queues@.len(),
            None => egress_towards(views(queues@), to) is None,
        },
{
    let mut i: usize = 0;
    while i < queues.len()
        invariant
            i <= queues@.len(),
            forall|j: int| 0 <= j < i ==> (#[trigger] views(queues@)[j]).link.to != to,
        decreases queues@.len() - i,
    {
        if queues[i].link().to == to {
            proof {
                assert(leads(views(queues@), to, i as int));
                lemma_leads_unique(views(queues@), to, i as int);
            }
            return Some(i);
        }
        i = i + 1;
    }
    proof {
        assert forall|k: int| !leads(views(queues@), to, k) by {
            if 0 <= k < queues@.len() {
                assert(views(queues@)[k].link.to != to);
            }
        }
    }
    None
}

/// Port `i` takes `p` if it has room.
pub open spec fn forwarded(queues: Seq<QueueState>, i: int, p: Packet) -> Seq<QueueState> {
    queues.update(i, queues[i].enqueue(p))
}

/// The record that a switch leaves when port `i` has no room for `p`.
pub open spec fn drop_note(queues: Seq<QueueState>, i: int, p: Packet, time: Nanos, node: u32) -> Seq<
    TraceRecord,
> {
    if queues[i].admits(p) {
        Seq::empty()
    } else {
        seq![TraceRecord::Dropping { time, node, packet: p }]
    }
}

/// The packet that a port sends when it is polled: its next packet if the
/// port takes part in scheduling, none otherwise.
pub open spec fn departing(q: QueueState) -> Option<Packet> {
    if q.is_active() {
        q.next_out()
    } else {
        None
    }
}

/// A port after it has been polled. A port that takes part gives up its
/// active flag until its link is free again, and loses the packet it sends.
pub open spec fn polled(q: QueueState) -> QueueState {
    if q.is_active() {
        q.with_active(false).dequeue()
    } else {
        q
    }
}

/// The transmissions that polling a bank starts, in port order.
pub open spec fn departures(queues: Seq<QueueState>) -> Seq<Event>
    decreases queues.len(),
{
    if queues.len() == 0 {
        Seq::empty()
    } else {
        let q = queues.last();
        let before = departures(queues.drop_last());
        match departing(q) {
            Some(p) => before.push(Event::NodeTransmit(NodeTransmitEvent(q.link, p))),
            None => before,
        }
    }
}

/// The bank after every port has been polled.
pub open spec fn all_polled(queues: Seq<QueueState>) -> Seq<QueueState> {
    queues.map_values(|q: QueueState| polled(q))
}

/// One `tx` record for each transmission that starts at `time` on node
/// `node`, in order.
pub open spec fn tx_notes(events: Seq<Event>, time: Nanos, node: u32) -> Seq<TraceRecord>
    decreases events.len(),
{
    if events.len() == 0 {
        Seq::empty()
    } else {
        let before = tx_notes(events.drop_last(), time, node);
        match events.last() {
            Event::NodeTransmit(tx) => before.push(TraceRecord::Tx { time, node, packet: tx.1 }),
            _ => before,
        }
    }
}

/// The records of transmissions that follow one another follow one another.
pub proof fn lemma_tx_notes_concat(first: Seq<Event>, then: Seq<Event>, time: Nanos, node: u32)
    ensures
        tx_notes(first + then, time, node) == tx_notes(first, time, node) + tx_notes(
            then,
            time,
            node,
        ),
    decreases then.len(),
{
    if then.len() == 0 {
        assert(first + then =~= first);
        assert(tx_notes(first, time, node) + tx_notes(then, time, node) =~= tx_notes(
            first,
            time,
            node,
        ));
    } else {
        lemma_tx_notes_concat(first, then.drop_last(), time, node);
        assert((first + then).drop_last() =~= first + then.drop_last());
        assert((first + then).last() == then.last());
        match then.last() {
            Event::NodeTransmit(tx) => {
                let note = TraceRecord::Tx { time, node, packet: tx.1 };
                assert((tx_notes(first, time, node) + tx_notes(then.drop_last(), time, node)).push(
                    note,
                ) =~= tx_notes(first, time, node) + tx_notes(then.drop_last(), time, node).push(
                    note,
                ));
            },
            _ => {},
        }
    }
}

/// Polls every port of a bank in order: each port that takes part sends one
/// packet. The transmissions are appended to `events`, and, where
/// `record_tx` is set, a `tx` record for each to `trace`.
pub fn poll_ports(
    queues: &mut Vec<DropTailQueue>,
    time: Nanos,
    node: u32,
    record_tx: bool,
    events: &mut Vec<Event>,
    trace: &mut Vec<TraceRecord>,
)
    requires
        ports_wf(views(old(queues)@)),
        all_valid(old(events)@),
    ensures
        views(final(queues)@) == all_polled(views(old(queues)@)),
        ports_wf(views(final(queues)@)),
        final(events)@ == old(events)@ + departures(views(old(queues)@)),
        all_valid(final(events)@),
        final(trace)@ == old(trace)@ + if record_tx {
            tx_notes(departures(views(old(queues)@)), time, node)
        } else {
            Seq::empty()
        },
{
    let ghost before = views(queues@);
    let ghost events0 = events@;
    let ghost trace0 = trace@;
    let mut i: usize = 0;
    proof {
        assert(before.take(0) =~= Seq::<QueueState>::empty());
        assert(forall|j: int| 0 <= j < before.len() ==> (#[trigger] queues@[j])@ == before[j]);
    }
    while i < queues.len()
        invariant
            i <= queues@.len(),
            queues@.len() == before.len(),
            ports_wf(before),
            forall|j: int| 0 <= j < i ==> (#[trigger] queues@[j])@ == polled(before[j]),
            forall|j: int| i <= j < before.len() ==> (#[trigger] queues@[j])@ == before[j],
            forall|j: int|
                0 <= j < before.len() ==> (#[trigger] queues@[j])@.wf() && queues@[j]@.link.valid(),
            events@ == events0 + departures(before.take(i as int)),
            all_valid(events@),
            trace@ == trace0 + if record_tx {
                tx_notes(departures(before.take(i as int)), time, node)
            } else {
                Seq::empty()
            },
        decreases queues@.len() - i,
    {
        let ghost here = before[i as int];
        let ghost sent = departures(before.take(i as int));
        let ghost prev = queues@;
        proof {
            assert(queues@[i as int]@ == here);
            assert(before.take(i + 1).drop_last() =~= before.take(i as int));
            assert(before.take(i + 1).last() == here);
        }
        if queues[i].is_active() {
            queues[i].set_active(false);
            let out: Option<Packet> = queues[i].dequeue();
            if let Some(pkt) = out {
                let link: Link = queues[i].link();
                let ev: Event = Event::NodeTransmit(NodeTransmitEvent(link, pkt));
                if record_tx {
                    trace.push(TraceRecord::Tx { time, node, packet: pkt });
                }
                events.push(ev);
                proof {
                    assert(departures(before.take(i + 1)) == sent.push(ev));
                    assert(events@ =~= events0 + sent.push(ev));
                    assert(sent.push(ev).drop_last() =~= sent);
                }
            }
        }
        proof {
            assert(queues@[i as int]@ == polled(here));
            assert(forall|j: int| 0 <= j < prev.len() && j != i ==> queues@[j] == prev[j]);
            assert(trace@ =~= trace0 + if record_tx {
                tx_notes(departures(before.take(i + 1)), time, node)
            } else {
                Seq::empty()
            });
        }
        i = i + 1;
    }
    proof {
        assert(before.take(i as int) =~= before);
        assert(views(queues@) =~= all_polled(before));
    }
}

/// What one step of a switch does, over the switch's model: the switch
/// afterwards, the events it yields or the error it stops with, and the
/// records it adds to the trace.
pub struct SwitchStep<M> {
    pub next: M,
    pub result: Result<Seq<Event>, SimError>,
    pub trace: Seq<TraceRecord>,
}

/// The events of a result, as a sequence.
pub open spec fn events_of(r: Result<Vec<Event>, SimError>) -> Result<Seq<Event>, SimError> {
    match r {
        Ok(evs) => Ok(evs@),
        Err(e) => Err(e),
    }
}

/// Whether the events of a result, if any, are all valid.
pub open spec fn yields_valid(r: Result<Seq<Event>, SimError>) -> bool {
    r matches Ok(evs) ==> all_valid(evs)
}

/// A switch forwards packets between the links of its ports. What a
/// discipline does is given by its model functions; the methods carry them
/// out.
///
/// The model functions come with bodies that say nothing, so that a switch
/// can be written with the methods alone; of such a switch only what the
/// methods' contracts say of every switch is known.
pub trait Switch: Sized {
    /// The switch as a mathematical value.
    type Model;

    open spec fn model(&self) -> Self::Model {
        arbitrary()
    }

    /// What the methods need to hold of a switch, and keep.
    open spec fn wf(&self) -> bool {
        true
    }

    open spec fn model_new(switch_id: u32, queues: Seq<QueueState>) -> Self::Model {
        arbitrary()
    }

    open spec fn model_id(m: Self::Model) -> u32 {
        arbitrary()
    }

    open spec fn model_active(m: Self::Model) -> bool {
        arbitrary()
    }

    /// A packet arrives over link `l` at `time`.
    open spec fn model_receive(m: Self::Model, p: Packet, l: Link, time: Nanos) -> SwitchStep<
        Self::Model,
    > {
        arbitrary()
    }

    /// The switch is polled at `time`.
    open spec fn model_exec(m: Self::Model, time: Nanos) -> SwitchStep<Self::Model> {
        arbitrary()
    }

    /// Link `l` has finished serialising: the switch afterwards, or the error
    /// if the link is not one of its own.
    open spec fn model_reactivate(m: Self::Model, l: Link) -> (Self::Model, Result<(), SimError>) {
        arbitrary()
    }

    /// A switch with one rack port for each queue, in order.
    fn new(switch_id: u32, links: Vec<DropTailQueue>) -> (s: Self)
        requires
            ports_wf(views(links@)),
        ensures
            s.wf(),
            s.model() == Self::model_new(switch_id, views(links@)),
            Self::model_id(s.model()) == switch_id,
    ;

    fn id(&self) -> (id: u32)
        ensures
            id == Self::model_id(self.model()),
    ;

    fn receive(&mut self, p: Packet, l: Link, time: Nanos, trace: &mut Vec<TraceRecord>) -> (r:
        Result<Vec<Event>, SimError>)
        requires
            old(self).wf(),
            p.valid(),
        ensures
            final(self).wf(),
            final(self).model() == Self::model_receive(old(self).model(), p, l, time).next,
            events_of(r) == Self::model_receive(old(self).model(), p, l, time).result,
            final(trace)@ == old(trace)@ + Self::model_receive(old(self).model(), p, l, time).trace,
            yields_valid(events_of(r)),
            Self::model_id(final(self).model()) == Self::model_id(old(self).model()),
    ;

    fn exec(&mut self, time: Nanos, trace: &mut Vec<TraceRecord>) -> (r: Result<
        Vec<Event>,
        SimError,
    >)
        requires
            old(self).wf(),
        ensures
            final(self).wf(),
            final(self).model() == Self::model_exec(old(self).model(), time).next,
            events_of(r) == Self::model_exec(old(self).model(), time).result,
            final(trace)@ == old(trace)@ + Self::model_exec(old(self).model(), time).trace,
            yields_valid(events_of(r)),
            Self::model_id(final(self).model()) == Self::model_id(old(self).model()),
    ;

    fn reactivate(&mut self, l: Link) -> (r: Result<(), SimError>)
        requires
            old(self).wf(),
        ensures
            final(self).wf(),
            final(self).model() == Self::model_reactivate(old(self).model(), l).0,
            r == Self::model_reactivate(old(self).model(), l).1,
            Self::model_id(final(self).model()) == Self::model_id(old(self).model()),
    ;

    fn is_active(&self) -> (a: bool)
        ensures
            a == Self::model_active(self.model()),
    ;
}

/// Switches of this family speak PFC: a topology built for one sets
/// `pfc_enabled` on its links.
pub trait PFCSwitchFamily: Switch {

}

} // verus!
