use rdma_sim::congcontrol::ConstCwnd;
use rdma_sim::event::{Event, Executor};
use rdma_sim::flow::{FlowArrivalEvent, FlowInfo};
use rdma_sim::node::switch::nack_switch::NackSwitch;
use rdma_sim::node::switch::pfc_switch::PFCSwitch;
use rdma_sim::node::switch::Switch;
use rdma_sim::packet::{Packet, PacketHeader};
use rdma_sim::topology::one_big_switch::OneBigSwitch;
use rdma_sim::topology::TopologyStrategy;
use rdma_sim::trace::TraceRecord;
use rdma_sim::viz::{
    EventColor, EventMatchSide, JsonLogEvent, LogEvent, PacketCaptures, SlogJSONReader, TikzWriter,
    TraceLine, VizError,
};

fn lines(sample: &str) -> Vec<String> {
    sample.lines().map(|l| l.to_string()).collect()
}

#[test]
fn slog_json_parse() {
    let log_sample = r#"
        {"msg":"rx","v":0,"name":"slog-rs","level":20,"time":"2018-07-27T09:37:56.848190-07:00","hostname":"Y4089549","pid":6323,"packet":"Data { hdr: PacketHeader { flow: 0, from: 0, to: 1 }, seq: 37960, length: 1460 }","node":1,"time":1202560000}
        {"msg":"flow completed","v":0,"name":"slog-rs","level":30,"time":"2018-07-27T09:37:56.849518700-07:00","hostname":"Y4089549","pid":6323,"end_time":1207280000,"start_time":1126000000,"completion_time":81280000,"side":"Receiver","node":1,"flow":0}
        "#;
    let reader = SlogJSONReader::new(lines(log_sample));
    let evs: Vec<JsonLogEvent> = reader.get_events();
    assert_eq!(evs.len(), 1);
    let ev = &evs[0];
    assert_eq!(ev.time(), 0);
    assert_eq!(ev.from(), 0);
    assert_eq!(ev.to(), 1);
    assert_eq!(ev.node(), 1);
    assert_eq!(ev.event(), Some(EventMatchSide::Rx));
    assert_eq!(ev.annotation(), "0-Data-37960");
}

#[test]
fn nack_parse() {
    let log_sample = r#"
        {"msg":"rx","v":0,"name":"slog-rs","level":20,"time":"2018-07-27T09:37:56.848190-07:00","hostname":"Y4089549","pid":6323,"packet":"Nack { hdr: PacketHeader { flow: 0, from: 0, to: 1 }, seq: 37960, length: 1460 }","node":1,"time":1202560000}
        "#;
    let reader = SlogJSONReader::new(lines(log_sample));
    let evs: Vec<JsonLogEvent> = reader.get_events();
    let ev = &evs[0];
    assert_eq!(ev.annotation(), "0-Nack-37960");
}

#[test]
fn slog_json_tikz() {
    let log_sample = r#"
        {"msg":"tx","v":0,"name":"slog-rs","level":20,"time":"2018-07-27T09:37:56.844790100-07:00","hostname":"Y4089549","pid":6323,"packet":"Ack { hdr: PacketHeader { flow: 0, from: 1, to: 0 }, cumulative_acked_seq: 32120 }","node":1,"time":1191200000}
        {"msg":"rx","v":0,"name":"slog-rs","level":20,"time":"2018-07-27T09:37:56.845250600-07:00","hostname":"Y4089549","pid":6323,"packet":"Ack { hdr: PacketHeader { flow: 0, from: 1, to: 0 }, cumulative_acked_seq: 32120 }","node":4,"time":1192520000}
        {"msg":"tx","v":0,"name":"slog-rs","level":20,"time":"2018-07-27T09:37:56.845318700-07:00","hostname":"Y4089549","pid":6323,"packet":"Ack { hdr: PacketHeader { flow: 0, from: 1, to: 0 }, cumulative_acked_seq: 32120 }","node":4,"time":1192520000}
        {"msg":"rx","v":0,"name":"slog-rs","level":20,"time":"2018-07-27T09:37:56.845845800-07:00","hostname":"Y4089549","pid":6323,"packet":"Ack { hdr: PacketHeader { flow: 0, from: 1, to: 0 }, cumulative_acked_seq: 32120 }","node":0,"time":1193840000}
        "#;

    // parse
    let reader = SlogJSONReader::new(lines(log_sample));

    // dump
    let writer = TikzWriter::new(&[(0, 0), (4, 5), (1, 10)]);
    let events = reader.get_events();
    let drawing = writer.dump_events(&events).unwrap();

    assert_eq!(drawing.edges.len(), 2);
    assert_eq!(drawing.end_time, 1193840000 - 1191200000);
    let first = drawing.edges[0];
    assert_eq!((first.tx_column, first.tx_time), (10, 0));
    assert_eq!((first.rx_column, first.rx_time), (5, 1320000));
    assert_eq!(first.color, EventColor::Green);
    assert_eq!(events[first.tx_event].annotation(), "0-Ack-32120");
    let second = drawing.edges[1];
    assert_eq!((second.tx_column, second.tx_time), (5, 1320000));
    assert_eq!((second.rx_column, second.rx_time), (0, 2640000));
}

fn line(msg: &str, time: usize, node: usize, packet: &str) -> TraceLine {
    TraceLine {
        msg: Some(msg.to_string()),
        time: Some(time),
        node: Some(node),
        packet: Some(packet.to_string()),
    }
}

const DATA: &str = "Data { hdr: PacketHeader { flow: 3, from: 1, to: 2 }, seq: 1460, length: 1460 }";

#[test]
fn decoding_errors() {
    let no_packet = TraceLine { msg: Some("rx".to_string()), time: Some(1), node: Some(1), packet: None };
    assert_eq!(JsonLogEvent::new(no_packet).err(), Some(VizError::NoPacket));
    assert_eq!(JsonLogEvent::new(line("rx", 1, 1, "Pause(4)")).err(), Some(VizError::NoType));
    assert_eq!(JsonLogEvent::new(line("rx", 1, 1, "Data { to: 2, flow: 1, seq: 4 }")).err(), Some(VizError::NoFrom));
    assert_eq!(JsonLogEvent::new(line("rx", 1, 1, "Data { from: 2, flow: 1, seq: 4 }")).err(), Some(VizError::NoTo));
    assert_eq!(JsonLogEvent::new(line("rx", 1, 1, "Data { from: 2, to: 1, seq: 4 }")).err(), Some(VizError::NoFlow));
    assert_eq!(JsonLogEvent::new(line("rx", 1, 1, "Data { flow: 1, from: 2, to: 1 }")).err(), Some(VizError::NoSeq));
    assert_eq!(
        JsonLogEvent::new(line("rx", 1, 1, "Data { flow: 99999999999999999999999, from: 2, to: 1, seq: 4 }")).err(),
        Some(VizError::BadNumber)
    );
    let no_time = TraceLine { time: None, ..line("rx", 1, 1, DATA) };
    assert_eq!(JsonLogEvent::new(no_time).err(), Some(VizError::MissingField));
}

#[test]
fn decoding_reads_every_field() {
    let ev = JsonLogEvent::new(line("tx", 77, 9, DATA)).unwrap();
    assert_eq!(ev.time(), 77);
    assert_eq!(ev.node(), 9);
    assert_eq!(ev.from(), 1);
    assert_eq!(ev.to(), 2);
    assert_eq!(ev.flow, 3);
    assert_eq!(ev.seq, 1460);
    assert_eq!(ev.packet_type, "Data");
    assert_eq!(ev.event(), Some(EventMatchSide::Tx));
    assert_eq!(ev.color(), EventColor::Black);
    assert_eq!(ev.annotation(), "3-Data-1460");
    let other = JsonLogEvent::new(line("dropping", 77, 9, DATA)).unwrap();
    assert_eq!(other.event(), None);
}

#[test]
fn colors_by_kind() {
    let nack = JsonLogEvent::new(line("tx", 0, 0, "Nack { hdr: PacketHeader { flow: 3, from: 1, to: 2 }, nacked_seq: 5 }")).unwrap();
    assert_eq!(nack.color(), EventColor::Red);
    assert_eq!(nack.color().name(), "red");
    let other = JsonLogEvent::new(line("tx", 0, 0, "Probe { flow: 3, from: 1, to: 2 , seq: 5 }")).unwrap();
    assert_eq!(other.color(), EventColor::Blue);
    assert_eq!(EventColor::Black.name(), "black");
    assert_eq!(EventColor::Green.name(), "green");
    assert_eq!(EventColor::Blue.name(), "blue");
}

#[test]
fn reader_passes_over_what_is_no_event() {
    let sample = "not json at all\n\n{\"msg\":\"exiting\",\"time\":5}\n{\"msg\":\"tx\",\"time\":100,\"node\":2,\"packet\":\"Pause(4)\"}\n{\"msg\":\"tx\",\"time\":100,\"node\":2,\"packet\":\"Ack { hdr: PacketHeader { flow: 0, from: 1, to: 0 }, cumulative_acked_seq: 7 }\"}\n{\"msg\":\"rx\",\"time\":130,\"node\":0,\"packet\":\"Ack { hdr: PacketHeader { flow: 0, from: 1, to: 0 }, cumulative_acked_seq: 7 }\"}\n";
    let evs = SlogJSONReader::new(lines(sample)).get_events();
    assert_eq!(evs.len(), 2);
    assert_eq!(evs[0].time(), 0);
    assert_eq!(evs[1].time(), 30);
}

#[test]
fn unmatched_receipts_are_errors() {
    let writer = TikzWriter::new(&[(1, 0), (2, 5)]);
    let never_sent = vec![JsonLogEvent::new(line("rx", 1, 2, DATA)).unwrap()];
    assert_eq!(writer.dump_events(&never_sent).err(), Some(VizError::UnmatchedRx(0)));
    let received_twice = vec![
        JsonLogEvent::new(line("tx", 1, 1, DATA)).unwrap(),
        JsonLogEvent::new(line("rx", 2, 2, DATA)).unwrap(),
        JsonLogEvent::new(line("rx", 3, 2, DATA)).unwrap(),
    ];
    assert_eq!(writer.dump_events(&received_twice).err(), Some(VizError::UnmatchedTx(2)));
}

#[test]
fn edges_pair_sendings_in_order_and_skip_unknown_nodes() {
    let writer = TikzWriter::new(&[(1, 0), (2, 5)]);
    assert_eq!(writer.lookup(2), Some(5));
    assert_eq!(writer.lookup(3), None);
    let events = vec![
        JsonLogEvent::new(line("tx", 10, 1, DATA)).unwrap(),
        JsonLogEvent::new(line("tx", 20, 1, DATA)).unwrap(),
        JsonLogEvent::new(line("rx", 30, 2, DATA)).unwrap(),
        JsonLogEvent::new(line("rx", 40, 3, DATA)).unwrap(),
    ];
    let drawing = writer.dump_events(&events).unwrap();
    // The second receipt happened at a node that is not drawn.
    assert_eq!(drawing.edges.len(), 1);
    assert_eq!(drawing.edges[0].tx_event, 0);
    assert_eq!(drawing.edges[0].tx_time, 10);
    assert_eq!(drawing.edges[0].rx_time, 30);
    assert_eq!(drawing.end_time, 40);
    assert_eq!(writer.single_edge(&events, 1, 2).map(|e| e.tx_time), Some(20));
    assert_eq!(writer.single_edge(&events, 1, 3), None);
    assert_eq!(writer.dump_events(&Vec::new()).unwrap().end_time, 0);
}

fn as_line(r: &TraceRecord) -> TraceLine {
    TraceLine {
        msg: Some(r.msg().to_string()),
        time: r.time().map(|t| t as usize),
        node: r.node().map(|n| n as usize),
        packet: r.packet().map(|p| format!("{:?}", p)),
    }
}

#[test]
fn packet_text_reads_back() {
    let hdr = PacketHeader { flow: 7, from: 3, to: 11 };
    let cases = [
        (Packet::Data { hdr, seq: 2920, length: 1460 }, "Data", 2920),
        (Packet::Ack { hdr, cumulative_acked_seq: 4380 }, "Ack", 4380),
        (Packet::Nack { hdr, nacked_seq: 0 }, "Nack", 0),
    ];
    for (packet, kind, seq) in cases {
        let record = TraceRecord::Tx { time: 5, node: 3, packet };
        let ev = JsonLogEvent::new(as_line(&record)).unwrap();
        assert_eq!(ev.packet_type, kind);
        assert_eq!(ev.flow, 7);
        assert_eq!(ev.from(), 3);
        assert_eq!(ev.to(), 11);
        assert_eq!(ev.seq, seq);
        assert_eq!(ev.node(), 3);
        assert_eq!(ev.time(), 5);
        assert_eq!(ev.event(), Some(EventMatchSide::Tx));
    }
}

fn two_flow_trace<S: Switch>() -> Vec<TraceRecord> {
    let t = <OneBigSwitch<S> as TopologyStrategy<S, ConstCwnd>>::make_topology(3, 15_000, 1_000_000, 1_000_000);
    let mut e = Executor::new(t);
    for (flow_id, sender_id) in [(1, 1), (2, 2)] {
        let info = FlowInfo { flow_id, sender_id, dest_id: 0, length_bytes: 43800, max_packet_length: 1460 };
        e.push(Event::FlowArrival(FlowArrivalEvent(info, 1_000_000_000)));
    }
    let e = e.execute().unwrap();
    e.trace().clone()
}

fn round_trip<S: Switch>() {
    let trace = two_flow_trace::<S>();
    let events: Vec<JsonLogEvent> = trace
        .iter()
        .filter_map(|r| JsonLogEvent::new(as_line(r)).ok())
        .collect();
    assert!(!events.is_empty());
    let writer = TikzWriter::new(&[(0, 0), (1, 5), (2, 10), (3, 15)]);
    let drawing = writer.dump_events(&events).unwrap();
    assert!(!drawing.edges.is_empty());
    let mut receipts = 0;
    for ev in &events {
        if ev.event() == Some(EventMatchSide::Rx) {
            receipts += 1;
        }
    }
    assert_eq!(drawing.edges.len(), receipts);
    for edge in &drawing.edges {
        let tx = &events[edge.tx_event];
        assert_eq!(tx.event(), Some(EventMatchSide::Tx));
        assert_eq!(tx.time(), edge.tx_time);
        assert!(edge.tx_time <= edge.rx_time);
        // The receipt that closes the edge carries the same label.
        let closes = events.iter().any(|rx| {
            rx.event() == Some(EventMatchSide::Rx)
                && rx.time() == edge.rx_time
                && rx.annotation() == tx.annotation()
                && rx.flow == tx.flow
                && rx.seq == tx.seq
        });
        assert!(closes);
    }
}

#[test]
fn trace_round_trip_nack_switch() {
    round_trip::<NackSwitch>();
}

#[test]
fn trace_round_trip_pfc_switch() {
    round_trip::<PFCSwitch>();
}

fn captures(kind: &str, from: &str, to: &str, flow: &str, seq: &str) -> PacketCaptures {
    PacketCaptures {
        kind: Some(kind.to_string()),
        from: Some(from.to_string()),
        to: Some(to.to_string()),
        flow: Some(flow.to_string()),
        seq: Some(seq.to_string()),
    }
}

#[test]
fn assemble_makes_the_event_of_what_was_found() {
    let ev = JsonLogEvent::assemble(
        captures("Data", "1", "2", "+3", "001460"),
        Some("rx".to_string()),
        Some(77),
        Some(9),
    )
    .unwrap();
    assert_eq!((ev.from(), ev.to(), ev.flow, ev.seq), (1, 2, 3, 1460));
    assert_eq!((ev.time(), ev.node()), (77, 9));
    assert_eq!(ev.packet_type, "Data");
    assert_eq!(ev.event(), Some(EventMatchSide::Rx));
    assert_eq!(ev.annotation(), "3-Data-1460");
}

#[test]
fn assemble_names_the_first_thing_that_is_missing() {
    let full = || captures("Data", "1", "2", "3", "4");
    let msg = || Some("tx".to_string());
    let err = |found: PacketCaptures| JsonLogEvent::assemble(found, msg(), Some(1), Some(1)).err();
    assert_eq!(err(PacketCaptures { kind: None, from: None, ..full() }), Some(VizError::NoType));
    assert_eq!(err(PacketCaptures { from: None, to: None, ..full() }), Some(VizError::NoFrom));
    assert_eq!(err(PacketCaptures { to: None, flow: None, ..full() }), Some(VizError::NoTo));
    assert_eq!(err(PacketCaptures { flow: None, seq: None, ..full() }), Some(VizError::NoFlow));
    assert_eq!(err(PacketCaptures { seq: None, ..full() }), Some(VizError::NoSeq));
    assert_eq!(JsonLogEvent::assemble(full(), None, Some(1), Some(1)).err(), Some(VizError::MissingField));
    assert_eq!(JsonLogEvent::assemble(full(), msg(), None, Some(1)).err(), Some(VizError::MissingField));
    assert_eq!(JsonLogEvent::assemble(full(), msg(), Some(1), None).err(), Some(VizError::MissingField));
    // A missing field is found before a number that does not read.
    assert_eq!(
        JsonLogEvent::assemble(captures("Data", "x", "2", "3", "4"), msg(), None, Some(1)).err(),
        Some(VizError::MissingField)
    );
    for bad in ["", "+", "-1", "1 ", "12a", "99999999999999999999999"] {
        assert_eq!(err(captures("Data", bad, "2", "3", "4")), Some(VizError::BadNumber));
        assert_eq!(err(captures("Data", "1", "2", "3", bad)), Some(VizError::BadNumber));
    }
}

#[test]
fn rebase_counts_from_the_first_event() {
    let at = |time: usize| JsonLogEvent::new(line("tx", time, 1, DATA)).unwrap();
    let out = JsonLogEvent::rebase(vec![at(100), at(130), at(90), at(100), at(250)]);
    let times: Vec<usize> = out.iter().map(|e| e.time()).collect();
    // The event at 90 lies before the first and is left out.
    assert_eq!(times, vec![0, 30, 0, 150]);
    assert!(JsonLogEvent::rebase(Vec::new()).is_empty());
    assert_eq!(JsonLogEvent::rebase(vec![at(7)])[0].time(), 0);
}

#[test]
fn reader_passes_over_a_line_too_long_to_parse() {
    let short = "{\"msg\":\"tx\",\"time\":100,\"node\":2,\"packet\":\"Ack { hdr: PacketHeader { flow: 0, from: 1, to: 0 }, cumulative_acked_seq: 7 }\"}";
    let mut long = String::from("{\"msg\":\"tx\",\"time\":100,\"node\":2,\"x\":0.");
    for _ in 0..40_000 {
        long.push('0');
    }
    long.push_str(",\"packet\":\"Ack { hdr: PacketHeader { flow: 0, from: 1, to: 0 }, cumulative_acked_seq: 7 }\"}");
    let mut padded = String::from(short);
    while padded.len() < 32_767 {
        padded.push(' ');
    }
    assert_eq!(padded.len(), 32_767);
    let mut over = padded.clone();
    over.push(' ');
    let evs = SlogJSONReader::new(vec![long, short.to_string(), over, padded]).get_events();
    assert_eq!(evs.len(), 2);
}
