//! The drop-tail queue: a byte-limited FIFO with a slot for one packet that
//! jumps the line.

use vstd::prelude::*;
use std::collections::VecDeque;
use crate::node::Link;
use crate::node::switch::{Queue, QueueState, sifted, total_bytes};
use crate::packet::Packet;

verus! {

pub struct DropTailQueue {
    limit_bytes: u32,
    link: Link,
    pkts: VecDeque<Packet>,
    forced_next: Option<Packet>,
    active: bool,
    paused: bool,
}

impl View for DropTailQueue {
    type V = QueueState;

    closed spec fn view(&self) -> QueueState {
        QueueState {
            limit_bytes: self.limit_bytes,
            link: self.link,
            pkts: self.pkts@,
            forced_next: self.forced_next,
            active: self.active,
            paused: self.paused,
        }
    }
}

/// Appending a packet adds its wire size to the total.
pub proof fn lemma_total_bytes_push(pkts: Seq<Packet>, p: Packet)
    ensures
        total_bytes(pkts.push(p)) == total_bytes(pkts) + p.wire_size(),
{
    assert(pkts.push(p).drop_last() =~= pkts);
}

/// A total is never negative.
pub proof fn lemma_total_bytes_nonnegative(pkts: Seq<Packet>)
    ensures
        total_bytes(pkts) >= 0,
    decreases pkts.len(),
{
    if pkts.len() > 0 {
        lemma_total_bytes_nonnegative(pkts.drop_last());
    }
}

/// The total of a concatenation is the sum of the totals.
pub proof fn lemma_total_bytes_concat(a: Seq<Packet>, b: Seq<Packet>)
    ensures
        total_bytes(a + b) == total_bytes(a) + total_bytes(b),
    decreases b.len(),
{
    if b.len() == 0 {
        assert(a + b =~= a);
    } else {
        assert((a + b).drop_last() =~= a + b.drop_last());
        lemma_total_bytes_concat(a, b.drop_last());
    }
}

/// Sifting packets out of a sequence cannot make it heavier.
pub proof fn lemma_sifted_is_lighter<F: Fn(Packet) -> bool>(
    pkts: Seq<Packet>,
    kept: Seq<Packet>,
    pred: F,
)
    requires
        sifted(pkts, kept, pred),
    ensures
        total_bytes(kept) <= total_bytes(pkts),
        kept.len() <= pkts.len(),
        forall|i: int|
            0 <= i < kept.len() ==> exists|j: int|
                0 <= j < pkts.len() && pkts[j] == #[trigger] kept[i],
    decreases pkts.len(),
{
    if pkts.len() > 0 {
        let head = pkts.drop_last();
        if call_ensures(pred, (pkts.last(),), true) && sifted(head, kept, pred) {
            lemma_sifted_is_lighter(head, kept, pred);
            assert forall|i: int| 0 <= i < kept.len() implies exists|j: int|
                0 <= j < pkts.len() && pkts[j] == #[trigger] kept[i] by {
                let j = choose|j: int| 0 <= j < head.len() && head[j] == kept[i];
                assert(pkts[j] == kept[i]);
            }
        } else {
            lemma_sifted_is_lighter(head, kept.drop_last(), pred);
            assert forall|i: int| 0 <= i < kept.len() implies exists|j: int|
                0 <= j < pkts.len() && pkts[j] == #[trigger] kept[i] by {
                if i < kept.len() - 1 {
                    let j = choose|j: int| 0 <= j < head.len() && head[j] == kept.drop_last()[i];
                    assert(pkts[j] == kept[i]);
                } else {
                    assert(pkts[pkts.len() - 1] == kept[i]);
                }
            }
        }
    }
}

impl DropTailQueue {
    pub fn new(limit_bytes: u32, link: Link) -> (q: Self)
        ensures
            q@ == (QueueState {
                limit_bytes,
                link,
                pkts: Seq::empty(),
                forced_next: None,
                active: false,
                paused: false,
            }),
            q@.wf(),
    {
        DropTailQueue {
            limit_bytes,
            link,
            pkts: VecDeque::new(),
            forced_next: None,
            active: false,
            paused: false,
        }
    }

    /// Bytes held by the waiting packets.
    pub fn occupancy_bytes(&self) -> (bytes: u32)
        requires
            self@.wf(),
        ensures
            bytes == self@.occupancy(),
    {
        let mut sum: u32 = 0;
        let mut i: usize = 0;
        proof {
            lemma_total_bytes_nonnegative(self.pkts@);
            assert(self.pkts@.take(0) =~= Seq::<Packet>::empty());
        }
        while i < self.pkts.len()
            invariant
                i <= self.pkts@.len(),
                self@.wf(),
                sum == total_bytes(self.pkts@.take(i as int)),
                sum <= total_bytes(self.pkts@),
            decreases self.pkts@.len() - i,
        {
            let p: Packet = self.pkts[i];
            proof {
                let done = self.pkts@.take(i as int);
                let more = self.pkts@.take(i + 1);
                let rest = self.pkts@.skip(i + 1);
                assert(more =~= done.push(p));
                lemma_total_bytes_push(done, p);
                assert(self.pkts@ =~= more + rest);
                lemma_total_bytes_concat(more, rest);
                lemma_total_bytes_nonnegative(rest);
            }
            sum = sum + p.get_size_bytes();
            i = i + 1;
        }
        assert(self.pkts@.take(i as int) =~= self.pkts@);
        sum
    }

    /// The packet that waits at the front, if any. The forced head is not
    /// looked at.
    pub fn peek(&self) -> (front: Option<Packet>)
        ensures
            front == if self@.pkts.len() > 0 {
                Some(self@.pkts[0])
            } else {
                None
            },
    {
        if self.pkts.len() > 0 {
            Some(self.pkts[0])
        } else {
            None
        }
    }
}

impl Queue for DropTailQueue {
    fn link(&self) -> (l: Link) {
        self.link
    }

    fn headroom(&self) -> (bytes: u32) {
        proof {
            lemma_total_bytes_nonnegative(self.pkts@);
        }
        self.limit_bytes - self.occupancy_bytes()
    }

    fn enqueue(&mut self, p: Packet) -> (taken: Option<()>) {
        let occupancy_bytes: u32 = self.occupancy_bytes();
        let size: u32 = p.get_size_bytes();
        if size > self.limit_bytes - occupancy_bytes {
            return None;
        }
        proof {
            lemma_total_bytes_push(self.pkts@, p);
        }
        self.pkts.push_back(p);
        self.set_active(true);
        Some(())
    }

    fn force_tx_next(&mut self, p: Packet) -> (taken: Option<()>) {
        self.forced_next = Some(p);
        self.set_active(true);
        Some(())
    }

    fn dequeue(&mut self) -> (out: Option<Packet>) {
        match self.forced_next {
            None => {
                if self.pkts.len() == 1 {
                    self.set_active(false);
                }
                proof {
                    if self.pkts@.len() > 0 {
                        let first = self.pkts@.take(1);
                        let rest = self.pkts@.subrange(1, self.pkts@.len() as int);
                        assert(self.pkts@ =~= first + rest);
                        lemma_total_bytes_concat(first, rest);
                        lemma_total_bytes_nonnegative(first);
                    }
                }
                self.pkts.pop_front()
            },
            Some(p) => {
                if self.pkts.len() == 0 {
                    self.set_active(false);
                }
                self.forced_next = None;
                Some(p)
            },
        }
    }

    fn discard_matching<F: Fn(Packet) -> bool>(&mut self, should_discard: F) -> (dropped: usize) {
        let mut after_pkts: VecDeque<Packet> = VecDeque::new();
        let mut i: usize = 0;
        while i < self.pkts.len()
            invariant
                i <= self.pkts@.len(),
                forall|p: Packet| call_requires(should_discard, (p,)),
                sifted(self.pkts@.take(i as int), after_pkts@, should_discard),
            decreases self.pkts@.len() - i,
        {
            let p: Packet = self.pkts[i];
            let gone: bool = should_discard(p);
            proof {
                assert(self.pkts@.take(i + 1).drop_last() =~= self.pkts@.take(i as int));
                assert(after_pkts@.push(p).drop_last() =~= after_pkts@);
            }
            if !gone {
                after_pkts.push_back(p);
            }
            i = i + 1;
        }
        proof {
            assert(self.pkts@.take(i as int) =~= self.pkts@);
            lemma_sifted_is_lighter(self.pkts@, after_pkts@, should_discard);
        }
        let dropped: usize = self.pkts.len() - after_pkts.len();
        self.pkts = after_pkts;
        dropped
    }

    fn count_matching<F: Fn(Packet) -> bool>(&self, counter: F) -> (n: usize) {
        let mut n: usize = 0;
        let ghost mut rest: Seq<Packet> = Seq::empty();
        let mut i: usize = 0;
        while i < self.pkts.len()
            invariant
                i <= self.pkts@.len(),
                forall|p: Packet| call_requires(counter, (p,)),
                sifted(self.pkts@.take(i as int), rest, counter),
                n == i - rest.len(),
                rest.len() <= i,
            decreases self.pkts@.len() - i,
        {
            let p: Packet = self.pkts[i];
            let hit: bool = counter(p);
            proof {
                assert(self.pkts@.take(i + 1).drop_last() =~= self.pkts@.take(i as int));
                if !hit {
                    assert(rest.push(p).drop_last() =~= rest);
                    rest = rest.push(p);
                }
            }
            if hit {
                n = n + 1;
            }
            i = i + 1;
        }
        proof {
            assert(self.pkts@.take(i as int) =~= self.pkts@);
            assert(sifted(self@.pkts, rest, counter) && n == self@.pkts.len() - rest.len());
        }
        n
    }

    fn is_active(&self) -> (a: bool) {
        self.active && !self.paused
    }

    fn set_active(&mut self, a: bool) {
        self.active = a;
    }

    fn is_paused(&self) -> (a: bool) {
        self.paused
    }

    fn set_paused(&mut self, a: bool) {
        self.paused = a;
    }
}

} // verus!
