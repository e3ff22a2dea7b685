use rdma_sim::node::switch::drop_tail_queue::DropTailQueue;
use rdma_sim::node::switch::Queue;
use rdma_sim::node::Link;
use rdma_sim::packet::{Packet, PacketHeader};

fn data(seq: u32) -> Packet {
    Packet::Data { hdr: PacketHeader { flow: 0, from: 0, to: 1 }, seq, length: 1460 }
}

fn link() -> Link {
    Link { propagation_delay: 0, bandwidth_bps: 0, pfc_enabled: false, from: 0, to: 1 }
}

#[test]
fn check_discard_matching() {
    let mut q = DropTailQueue::new(15_000, link());
    let mut seq = 0;
    let mut next = || {
        let p = data(seq);
        seq += 1;
        p
    };

    q.enqueue(next()).unwrap();
    q.enqueue(next()).unwrap();
    q.enqueue(next()).unwrap();
    q.enqueue(next()).unwrap();
    q.enqueue(next()).unwrap();
    q.enqueue(next()).unwrap();
    q.enqueue(next()).unwrap();
    q.enqueue(next()).unwrap();
    assert_eq!(q.headroom(), 1500 * 2);

    let dropped = q.discard_matching(|p| match p {
        Packet::Data { seq, .. } => seq > 5,
        _ => unreachable!(),
    });
    assert_eq!(dropped, 2);
    assert_eq!(q.headroom(), 1500 * 4);
}

#[test]
fn enqueue_drops_what_does_not_fit() {
    let mut q = DropTailQueue::new(3_000, link());
    assert_eq!(q.enqueue(data(0)), Some(()));
    assert_eq!(q.enqueue(data(1)), Some(()));
    assert_eq!(q.headroom(), 0);
    assert_eq!(q.enqueue(data(2)), None);
    assert_eq!(q.occupancy_bytes(), 3_000);
    assert_eq!(q.count_matching(|_| true), 2);
    assert_eq!(q.peek(), Some(data(0)));
}

#[test]
fn enqueue_takes_a_packet_that_fills_the_queue_exactly() {
    let mut q = DropTailQueue::new(1_500, link());
    assert_eq!(q.enqueue(data(0)), Some(()));
    assert_eq!(q.headroom(), 0);
    assert_eq!(q.enqueue(Packet::Pause(3)), None);
}

#[test]
fn forced_head_jumps_the_line_and_is_not_counted() {
    let mut q = DropTailQueue::new(1_500, link());
    q.enqueue(data(0)).unwrap();
    assert!(q.is_active());
    q.force_tx_next(Packet::Pause(7)).unwrap();
    assert_eq!(q.headroom(), 0);
    assert_eq!(q.dequeue(), Some(Packet::Pause(7)));
    assert!(q.is_active());
    assert_eq!(q.dequeue(), Some(data(0)));
    assert!(!q.is_active());
    assert_eq!(q.dequeue(), None);
}

#[test]
fn forced_head_is_replaced_by_a_later_one() {
    let mut q = DropTailQueue::new(1_500, link());
    q.force_tx_next(Packet::Pause(7)).unwrap();
    q.force_tx_next(Packet::Resume(7)).unwrap();
    assert_eq!(q.dequeue(), Some(Packet::Resume(7)));
    assert_eq!(q.dequeue(), None);
}

#[test]
fn paused_queue_is_not_active() {
    let mut q = DropTailQueue::new(1_500, link());
    q.enqueue(data(0)).unwrap();
    q.set_paused(true);
    assert!(q.is_paused());
    assert!(!q.is_active());
    q.set_paused(false);
    assert!(q.is_active());
    q.set_active(false);
    assert!(!q.is_active());
}

#[test]
fn discard_leaves_forced_head_and_flags() {
    let mut q = DropTailQueue::new(15_000, link());
    q.enqueue(data(0)).unwrap();
    q.enqueue(data(1)).unwrap();
    q.force_tx_next(Packet::Pause(7)).unwrap();
    q.set_paused(true);
    let dropped = q.discard_matching(|_| true);
    assert_eq!(dropped, 2);
    assert!(q.is_paused());
    assert_eq!(q.headroom(), 15_000);
    assert_eq!(q.dequeue(), Some(Packet::Pause(7)));
}

#[test]
fn occupancy_never_exceeds_the_limit() {
    let mut q = DropTailQueue::new(10_000, link());
    for seq in 0..20 {
        let _ = q.enqueue(data(seq));
        assert!(q.occupancy_bytes() <= 10_000);
        if seq % 3 == 0 {
            let _ = q.dequeue();
        }
        assert!(q.occupancy_bytes() <= 10_000);
    }
}

#[test]
fn wire_sizes() {
    let hdr = PacketHeader { flow: 1, from: 2, to: 3 };
    assert_eq!(hdr.get_size_bytes(), 40);
    assert_eq!(Packet::Data { hdr, seq: 0, length: 1460 }.get_size_bytes(), 1500);
    assert_eq!(Packet::Ack { hdr, cumulative_acked_seq: 9 }.get_size_bytes(), 40);
    assert_eq!(Packet::Nack { hdr, nacked_seq: 9 }.get_size_bytes(), 40);
    assert_eq!(Packet::Pause(4).get_size_bytes(), 9);
    assert_eq!(Packet::Resume(4).get_size_bytes(), 9);
    assert!(Packet::Data { hdr, seq: 0, length: 2_305_842_969 }.is_valid());
    assert!(!Packet::Data { hdr, seq: 0, length: 2_305_842_970 }.is_valid());
}

#[test]
fn pfc_thresholds() {
    let off = Link { propagation_delay: 1_000_000, bandwidth_bps: 1_000_000, pfc_enabled: false, from: 4, to: 0 };
    assert_eq!(off.pfc_pause_threshold(), 0);
    assert_eq!(off.pfc_resume_threshold(), 3000);
    let on = Link { pfc_enabled: true, ..off };
    // 1 ms at 1 Mb/s is 125 bytes in flight.
    assert_eq!(on.pfc_pause_threshold(), 125 + 3000);
    assert_eq!(on.pfc_resume_threshold(), 125 + 6000);
    assert!(on.is_valid());
    let dead = Link { bandwidth_bps: 0, ..off };
    assert!(!dead.is_valid());
    let huge = Link { propagation_delay: u64::MAX, bandwidth_bps: 2, pfc_enabled: true, from: 0, to: 1 };
    assert!(!huge.is_valid());
}

#[test]
fn last_forced_head_clears_the_active_flag() {
    let mut q = DropTailQueue::new(1_500, link());
    q.force_tx_next(Packet::Pause(7)).unwrap();
    assert!(q.is_active());
    assert_eq!(q.dequeue(), Some(Packet::Pause(7)));
    // Nothing waits and no forced head remains.
    assert!(!q.is_active());
    // With a packet still waiting the queue stays active.
    q.enqueue(data(0)).unwrap();
    q.force_tx_next(Packet::Resume(7)).unwrap();
    assert_eq!(q.dequeue(), Some(Packet::Resume(7)));
    assert!(q.is_active());
    assert_eq!(q.dequeue(), Some(data(0)));
    assert!(!q.is_active());
}

#[test]
fn thresholds_of_a_link_without_pfc_need_no_bandwidth() {
    let dead = link();
    assert_eq!(dead.bandwidth_bps, 0);
    assert_eq!(dead.pfc_pause_threshold(), 0);
    assert_eq!(dead.pfc_resume_threshold(), 3000);
}

#[test]
fn wire_size_of_a_packet_too_large_to_serialise() {
    let hdr = PacketHeader { flow: 1, from: 2, to: 3 };
    let big = Packet::Data { hdr, seq: 0, length: u32::MAX - 40 };
    assert!(!big.is_valid());
    assert_eq!(big.get_size_bytes(), u32::MAX);
}
