//! Reading a packet-event trace back and laying it out as a time-sequence
//! diagram: one edge for each packet, from where it was sent to where it was
//! received.

use vstd::prelude::*;
use vstd::string::StringSliceAdditionalSpecFns;

verus! {

/// The colour in which an event is drawn.
#[derive(Clone, Copy, Debug, PartialEq, Eq, Structural)]
pub enum EventColor {
    Black,
    Blue,
    Red,
    Green,
}

impl EventColor {
    /// The colour's name, as a drawing names it.
    pub fn name(&self) -> (n: &'static str)
        ensures
            n@ == match *self {
                EventColor::Black => "black"@,
                EventColor::Blue => "blue"@,
                EventColor::Red => "red"@,
                EventColor::Green => "green"@,
            },
    {
        match self {
            EventColor::Black => "black",
            EventColor::Blue => "blue",
            EventColor::Red => "red",
            EventColor::Green => "green",
        }
    }
}

/// Which end of an edge a record stands for.
#[derive(Clone, Copy, Debug, PartialEq, Eq, Structural)]
pub enum EventMatchSide {
    Tx,
    Rx,
}

/// The two ends of an edge, as positions in a list of events: where the
/// packet was sent and where it was received.
#[derive(Clone, Copy, Debug, PartialEq, Eq, Structural)]
pub struct EventMatch(pub Option<usize>, pub Option<usize>);

/// Why a trace could not be read or laid out.
#[derive(Clone, Copy, Debug, PartialEq, Eq, Structural)]
pub enum VizError {
    /// The record has no packet.
    NoPacket,
    /// The record has no time, no node or no message.
    MissingField,
    /// The packet's description does not begin with its kind.
    NoType,
    NoFrom,
    NoTo,
    NoFlow,
    NoSeq,
    /// A number in the packet's description does not fit.
    BadNumber,
    /// The event at this position is a receipt of a packet that was sent,
    /// but every sending of it has been matched already.
    UnmatchedTx(usize),
    /// The event at this position is a receipt of a packet that was never
    /// sent.
    UnmatchedRx(usize),
}

/// What the layout reads of one line of a trace.
pub struct TraceLine {
    pub msg: Option<String>,
    pub time: Option<usize>,
    pub node: Option<usize>,
    /// The packet, as its debug text.
    pub packet: Option<String>,
}

/// A line of a trace as a mathematical value.
pub struct TraceLineView {
    pub msg: Option<Seq<char>>,
    pub time: Option<usize>,
    pub node: Option<usize>,
    pub packet: Option<Seq<char>>,
}

impl View for TraceLine {
    type V = TraceLineView;

    open spec fn view(&self) -> TraceLineView {
        TraceLineView {
            msg: match self.msg {
                Some(s) => Some(s@),
                None => None,
            },
            time: self.time,
            node: self.node,
            packet: match self.packet {
                Some(s) => Some(s@),
                None => None,
            },
        }
    }
}

/// The pattern that finds the kind of a packet in its description.
pub const TYPE_PATTERN: &'static str = "^(\\w+) ";

/// The pattern that finds the node a packet comes from.
pub const FROM_PATTERN: &'static str = " from: (\\d+)(?:,| )";

/// The pattern that finds the node a packet goes to.
pub const TO_PATTERN: &'static str = " to: (\\d+)(?:,| )";

/// The pattern that finds the flow of a packet.
pub const FLOW_PATTERN: &'static str = " flow: (\\d+)(?:,| )";

/// The pattern that finds the sequence number of a packet.
pub const SEQ_PATTERN: &'static str = "seq: (\\d+)(?:,| )";

/// What the first capture group of the leftmost match of the regular
/// expression `pattern` in `text` holds; none if the pattern is no regular
/// expression or does not match.
pub uninterp spec fn regex_capture(pattern: Seq<char>, text: Seq<char>) -> Option<Seq<char>>;

/// The value of a decimal digit.
pub open spec fn digit_value(c: char) -> Option<int> {
    if c == '0' {
        Some(0)
    } else if c == '1' {
        Some(1)
    } else if c == '2' {
        Some(2)
    } else if c == '3' {
        Some(3)
    } else if c == '4' {
        Some(4)
    } else if c == '5' {
        Some(5)
    } else if c == '6' {
        Some(6)
    } else if c == '7' {
        Some(7)
    } else if c == '8' {
        Some(8)
    } else if c == '9' {
        Some(9)
    } else {
        None
    }
}

/// The number that a run of decimal digits spells out; none if the run is
/// empty or holds anything but digits.
pub open spec fn digits_value(digits: Seq<char>) -> Option<int>
    decreases digits.len(),
{
    if digits.len() == 0 {
        None
    } else {
        match digit_value(digits.last()) {
            None => None,
            Some(d) => if digits.len() == 1 {
                Some(d)
            } else {
                match digits_value(digits.drop_last()) {
                    None => None,
                    Some(v) => Some(10 * v + d),
                }
            },
        }
    }
}

/// The number that `text` spells out: decimal digits and nothing else, but
/// for a plus sign that may stand in front; none if the number does not fit.
pub open spec fn parsed_usize(text: Seq<char>) -> Option<usize> {
    let digits = if text.len() > 0 && text[0] == '+' {
        text.skip(1)
    } else {
        text
    };
    match digits_value(digits) {
        Some(v) if v <= usize::MAX => Some(v as usize),
        _ => None,
    }
}

/// The decimal digit that stands for `d`.
pub open spec fn digit_char(d: int) -> char {
    if d == 0 {
        '0'
    } else if d == 1 {
        '1'
    } else if d == 2 {
        '2'
    } else if d == 3 {
        '3'
    } else if d == 4 {
        '4'
    } else if d == 5 {
        '5'
    } else if d == 6 {
        '6'
    } else if d == 7 {
        '7'
    } else if d == 8 {
        '8'
    } else {
        '9'
    }
}

/// A number written out in decimal, without leading zeros.
pub open spec fn decimal(n: nat) -> Seq<char>
    decreases n,
{
    if n < 10 {
        seq![digit_char(n as int)]
    } else {
        decimal(n / 10).push(digit_char((n % 10) as int))
    }
}

/// The fields `msg`, `time`, `node` and `packet` of the JSON object that
/// `line` spells out; none if `line` is no JSON text.
pub uninterp spec fn json_record(line: Seq<char>) -> Option<
    (Option<Seq<char>>, Option<usize>, Option<usize>, Option<Seq<char>>),
>;

/// A number written out in decimal reads back as itself.
pub proof fn lemma_decimal_reads_back(n: nat)
    requires
        n <= usize::MAX,
    ensures
        decimal(n).len() > 0,
        digit_value(decimal(n)[0]) is Some,
        digits_value(decimal(n)) == Some(n as int),
        parsed_usize(decimal(n)) == Some(n as usize),
    decreases n,
{
    if n >= 10 {
        lemma_decimal_reads_back(n / 10);
        let head = decimal(n / 10);
        let all = decimal(n);
        assert(all.drop_last() =~= head);
        assert(all.last() == digit_char((n % 10) as int));
        assert(all[0] == head[0]);
        assert(digit_value(digit_char((n % 10) as int)) == Some((n % 10) as int));
        assert(digits_value(all) == Some(10 * ((n / 10) as int) + ((n % 10) as int)));
    } else {
        assert(digit_value(digit_char(n as int)) == Some(n as int));
    }
}

/// The label of a packet: its flow, its kind and its sequence number, joined
/// by hyphens.
pub open spec fn annotation_text(flow: usize, kind: Seq<char>, seq: usize) -> Seq<char> {
    decimal(flow as nat).push('-') + kind + seq!['-'] + decimal(seq as nat)
}

/// Calls `regex::Regex::new` and `Regex::captures`: the text of the first
/// capture group of the leftmost match, where there is one.
#[verifier::external_body]
fn capture(pattern: &str, text: &str) -> (found: Option<String>)
    ensures
        (match found {
            Some(s) => Some(s@),
            None => None,
        }) == regex_capture(pattern@, text@),
{
    match regex::Regex::new(pattern) {
        Ok(re) => re.captures(text).and_then(|c| c.get(1)).map(|m| m.as_str().to_string()),
        Err(_) => None,
    }
}

/// Calls `str::parse::<usize>`: the number that the text spells out in
/// decimal digits, with or without a plus sign in front, where it fits.
#[verifier::external_body]
fn number(text: &str) -> (n: Option<usize>)
    ensures
        n == parsed_usize(text@),
{
    text.parse::<usize>().ok()
}

/// The longest line, in bytes, that is handed to the JSON parser: the parser
/// counts the digits of a number in sixteen bits.
pub const MAX_LINE_BYTES: usize = 32_767;

/// Calls `json::parse` and reads four fields of the object it returns, each
/// as the type that the layout wants of it. The line must be short enough
/// for the parser's count of digits.
#[verifier::external_body]
fn read_record(line: &str) -> (record: Option<TraceLine>)
    requires
        vstd::utf8::encode_utf8(line@).len() <= MAX_LINE_BYTES,
    ensures
        match record {
            Some(r) => json_record(line@) == Some((r@.msg, r@.time, r@.node, r@.packet)),
            None => json_record(line@) is None,
        },
{
    match json::parse(line) {
        Ok(v) => Some(
            TraceLine {
                msg: v["msg"].as_str().map(|s| s.to_string()),
                time: v["time"].as_usize(),
                node: v["node"].as_usize(),
                packet: v["packet"].as_str().map(|s| s.to_string()),
            },
        ),
        Err(_) => None,
    }
}

/// Formats the label of a packet with `format!`: flow and sequence number
/// in decimal, with the kind between them, joined by hyphens.
#[verifier::external_body]
fn label(flow: usize, kind: &str, seq: usize) -> (text: String)
    ensures
        text@ == annotation_text(flow, kind@, seq),
{
    format!("{}-{}-{}", flow, kind, seq)
}

/// An event of a trace, as a mathematical value.
pub struct LogRecord {
    pub msg: Seq<char>,
    pub node: usize,
    pub time: usize,
    pub packet_type: Seq<char>,
    pub flow: usize,
    pub from: usize,
    pub to: usize,
    pub seq: usize,
}

impl LogRecord {
    /// A record of a sending or of a receipt is one end of an edge.
    pub open spec fn side(self) -> Option<EventMatchSide> {
        if self.msg == "tx"@ {
            Some(EventMatchSide::Tx)
        } else if self.msg == "rx"@ {
            Some(EventMatchSide::Rx)
        } else {
            None
        }
    }

    /// The label under which the two ends of an edge find each other.
    pub open spec fn key(self) -> Seq<char> {
        annotation_text(self.flow, self.packet_type, self.seq)
    }

    /// Data is drawn black, ACKs green, NACKs red, anything else blue.
    pub open spec fn color(self) -> EventColor {
        if self.packet_type == "Data"@ {
            EventColor::Black
        } else if self.packet_type == "Ack"@ {
            EventColor::Green
        } else if self.packet_type == "Nack"@ {
            EventColor::Red
        } else {
            EventColor::Blue
        }
    }
}

/// What the five patterns find in the description of a packet: its kind, and
/// the digits of where it comes from, where it goes to, its flow and its
/// sequence number.
pub struct PacketCaptures {
    pub kind: Option<String>,
    pub from: Option<String>,
    pub to: Option<String>,
    pub flow: Option<String>,
    pub seq: Option<String>,
}

/// The captures as mathematical values.
pub struct PacketCapturesView {
    pub kind: Option<Seq<char>>,
    pub from: Option<Seq<char>>,
    pub to: Option<Seq<char>>,
    pub flow: Option<Seq<char>>,
    pub seq: Option<Seq<char>>,
}

/// The text of an optional string.
pub open spec fn text_of(s: Option<String>) -> Option<Seq<char>> {
    match s {
        Some(t) => Some(t@),
        None => None,
    }
}

impl View for PacketCaptures {
    type V = PacketCapturesView;

    open spec fn view(&self) -> PacketCapturesView {
        PacketCapturesView {
            kind: text_of(self.kind),
            from: text_of(self.from),
            to: text_of(self.to),
            flow: text_of(self.flow),
            seq: text_of(self.seq),
        }
    }
}

/// What the five patterns find in `text`.
pub open spec fn captured(text: Seq<char>) -> PacketCapturesView {
    PacketCapturesView {
        kind: regex_capture(TYPE_PATTERN@, text),
        from: regex_capture(FROM_PATTERN@, text),
        to: regex_capture(TO_PATTERN@, text),
        flow: regex_capture(FLOW_PATTERN@, text),
        seq: regex_capture(SEQ_PATTERN@, text),
    }
}

/// The event made of what was found in a packet's description and of the
/// other fields of its line.
///
/// Every pattern must have found something: the first that did not is the
/// error, in the order kind, from, to, flow, sequence number. Then the line
/// must carry a time, a node and a message. Then the four runs of digits
/// must spell numbers that fit.
pub open spec fn assembled(
    found: PacketCapturesView,
    msg: Option<Seq<char>>,
    time: Option<usize>,
    node: Option<usize>,
) -> Result<LogRecord, VizError> {
    if found.kind is None {
        Err(VizError::NoType)
    } else if found.from is None {
        Err(VizError::NoFrom)
    } else if found.to is None {
        Err(VizError::NoTo)
    } else if found.flow is None {
        Err(VizError::NoFlow)
    } else if found.seq is None {
        Err(VizError::NoSeq)
    } else if time is None || node is None || msg is None {
        Err(VizError::MissingField)
    } else {
        let flow = parsed_usize(found.flow->0);
        let from = parsed_usize(found.from->0);
        let to = parsed_usize(found.to->0);
        let seq = parsed_usize(found.seq->0);
        if flow is None || from is None || to is None || seq is None {
            Err(VizError::BadNumber)
        } else {
            Ok(
                LogRecord {
                    msg: msg->0,
                    node: node->0,
                    time: time->0,
                    packet_type: found.kind->0,
                    flow: flow->0,
                    from: from->0,
                    to: to->0,
                    seq: seq->0,
                },
            )
        }
    }
}

/// The event that a line of a trace records, if it records one of a packet:
/// the line must carry a packet, and what the patterns find in the packet's
/// description must make an event.
pub open spec fn decoded(line: TraceLineView) -> Result<LogRecord, VizError> {
    match line.packet {
        None => Err(VizError::NoPacket),
        Some(text) => assembled(captured(text), line.msg, line.time, line.node),
    }
}

/// What was found reads back: captures that hold a kind and four numbers
/// written out in decimal make the event with that kind and those numbers.
pub proof fn lemma_written_fields_read_back(
    kind: Seq<char>,
    flow: usize,
    from: usize,
    to: usize,
    seq: usize,
    msg: Seq<char>,
    time: usize,
    node: usize,
)
    ensures
        assembled(
            PacketCapturesView {
                kind: Some(kind),
                from: Some(decimal(from as nat)),
                to: Some(decimal(to as nat)),
                flow: Some(decimal(flow as nat)),
                seq: Some(decimal(seq as nat)),
            },
            Some(msg),
            Some(time),
            Some(node),
        ) == Ok::<LogRecord, VizError>(
            LogRecord { msg, node, time, packet_type: kind, flow, from, to, seq },
        ),
{
    lemma_decimal_reads_back(flow as nat);
    lemma_decimal_reads_back(from as nat);
    lemma_decimal_reads_back(to as nat);
    lemma_decimal_reads_back(seq as nat);
}

/// An event that can be laid out.
pub trait LogEvent {
    spec fn record(&self) -> LogRecord;

    /// Counts the event's time from `start_time` on.
    fn adj_time(&mut self, start_time: usize)
        requires
            start_time <= old(self).record().time,
        ensures
            final(self).record() == (LogRecord {
                time: (old(self).record().time - start_time) as usize,
                ..old(self).record()
            }),
    ;

    fn time(&self) -> (t: usize)
        ensures
            t == self.record().time,
    ;

    fn from(&self) -> (n: usize)
        ensures
            n == self.record().from,
    ;

    fn to(&self) -> (n: usize)
        ensures
            n == self.record().to,
    ;

    fn node(&self) -> (n: usize)
        ensures
            n == self.record().node,
    ;

    fn event(&self) -> (side: Option<EventMatchSide>)
        ensures
            side == self.record().side(),
    ;

    fn annotation(&self) -> (text: String)
        ensures
            text@ == self.record().key(),
    ;

    fn color(&self) -> (c: EventColor)
        ensures
            c == self.record().color(),
    ;
}

/// An event read from a line of JSON.
pub struct JsonLogEvent {
    pub msg: String,
    pub node: usize,
    pub adj_time: usize,
    pub packet_type: String,
    pub flow: usize,
    pub from: usize,
    pub to: usize,
    pub seq: usize,
}

/// Whether `text` reads as `word`.
fn reads(text: &String, word: &str) -> (same: bool)
    ensures
        same == (text@ == word@),
{
    let other: String = word.to_owned();
    *text == other
}

impl JsonLogEvent {
    /// Makes an event of what the patterns found in a packet's description
    /// and of the other fields of its line.
    pub fn assemble(
        found: PacketCaptures,
        msg: Option<String>,
        time: Option<usize>,
        node: Option<usize>,
    ) -> (r: Result<JsonLogEvent, VizError>)
        ensures
            match r {
                Ok(ev) => assembled(found@, text_of(msg), time, node) == Ok::<LogRecord, VizError>(
                    ev.record(),
                ),
                Err(e) => assembled(found@, text_of(msg), time, node) == Err::<LogRecord, VizError>(
                    e,
                ),
            },
    {
        let type_match: String = match found.kind {
            Some(m) => m,
            None => {
                return Err(VizError::NoType);
            },
        };
        let from_match: String = match found.from {
            Some(m) => m,
            None => {
                return Err(VizError::NoFrom);
            },
        };
        let to_match: String = match found.to {
            Some(m) => m,
            None => {
                return Err(VizError::NoTo);
            },
        };
        let flow_match: String = match found.flow {
            Some(m) => m,
            None => {
                return Err(VizError::NoFlow);
            },
        };
        let seq_match: String = match found.seq {
            Some(m) => m,
            None => {
                return Err(VizError::NoSeq);
            },
        };
        let (adj_time, node, msg): (usize, usize, String) = match (time, node, msg) {
            (Some(t), Some(n), Some(m)) => (t, n, m),
            _ => {
                return Err(VizError::MissingField);
            },
        };
        let flow: Option<usize> = number(flow_match.as_str());
        let from: Option<usize> = number(from_match.as_str());
        let to: Option<usize> = number(to_match.as_str());
        let seq: Option<usize> = number(seq_match.as_str());
        match (flow, from, to, seq) {
            (Some(flow), Some(from), Some(to), Some(seq)) => Ok(
                JsonLogEvent { msg, node, adj_time, packet_type: type_match, flow, from, to, seq },
            ),
            _ => Err(VizError::BadNumber),
        }
    }

    /// Reads the event that a line of a trace records.
    pub fn new(line: TraceLine) -> (r: Result<JsonLogEvent, VizError>)
        ensures
            match r {
                Ok(ev) => decoded(line@) == Ok::<LogRecord, VizError>(ev.record()),
                Err(e) => decoded(line@) == Err::<LogRecord, VizError>(e),
            },
    {
        let pkt_line: String = match line.packet {
            Some(text) => text,
            None => {
                return Err(VizError::NoPacket);
            },
        };
        let found = PacketCaptures {
            kind: capture(TYPE_PATTERN, pkt_line.as_str()),
            from: capture(FROM_PATTERN, pkt_line.as_str()),
            to: capture(TO_PATTERN, pkt_line.as_str()),
            flow: capture(FLOW_PATTERN, pkt_line.as_str()),
            seq: capture(SEQ_PATTERN, pkt_line.as_str()),
        };
        JsonLogEvent::assemble(found, line.msg, line.time, line.node)
    }

    /// Counts the times of a list of events from the first event on. An
    /// event that lies before the first is left out.
    pub fn rebase(events: Vec<JsonLogEvent>) -> (out: Vec<JsonLogEvent>)
        ensures
            records(out@) == rebased(records(events@)),
    {
        let ghost recs = records(events@);
        let mut out: Vec<JsonLogEvent> = Vec::new();
        let mut start_time: Option<usize> = None;
        proof {
            assert(recs.take(0) =~= Seq::<LogRecord>::empty());
            assert(records(out@) =~= Seq::<LogRecord>::empty());
        }
        for ev in it: events
            invariant
                recs == records(it.seq()),
                records(out@) == rebased(recs.take(it.index() as int)),
                start_time == if it.index() == 0 {
                    None
                } else {
                    Some(recs[0].time)
                },
        {
            let ghost i = it.index() as int;
            let ghost had = records(out@);
            let mut parsed = ev;
            proof {
                assert(parsed.record() == recs[i]);
                assert(recs.take(i + 1).drop_last() =~= recs.take(i));
                assert(recs.take(i + 1).last() == recs[i]);
                assert(recs.take(i + 1)[0] == recs[0]);
            }
            let start: usize = match start_time {
                Some(s) => s,
                None => {
                    start_time = Some(parsed.time());
                    parsed.time()
                },
            };
            if start <= parsed.time() {
                parsed.adj_time(start);
                let ghost rec = parsed.record();
                out.push(parsed);
                proof {
                    assert(records(out@) =~= had.push(rec));
                }
            }
        }
        proof {
            assert(recs.take(recs.len() as int) =~= recs);
        }
        out
    }
}

impl LogEvent for JsonLogEvent {
    open spec fn record(&self) -> LogRecord {
        LogRecord {
            msg: self.msg@,
            node: self.node,
            time: self.adj_time,
            packet_type: self.packet_type@,
            flow: self.flow,
            from: self.from,
            to: self.to,
            seq: self.seq,
        }
    }

    fn adj_time(&mut self, start_time: usize) {
        self.adj_time -= start_time;
    }

    fn time(&self) -> (t: usize) {
        self.adj_time
    }

    fn from(&self) -> (n: usize) {
        self.from
    }

    fn to(&self) -> (n: usize) {
        self.to
    }

    fn node(&self) -> (n: usize) {
        self.node
    }

    fn event(&self) -> (side: Option<EventMatchSide>) {
        if reads(&self.msg, "tx") {
            Some(EventMatchSide::Tx)
        } else if reads(&self.msg, "rx") {
            Some(EventMatchSide::Rx)
        } else {
            None
        }
    }

    fn annotation(&self) -> (text: String) {
        label(self.flow, self.packet_type.as_str(), self.seq)
    }

    fn color(&self) -> (c: EventColor) {
        if reads(&self.packet_type, "Data") {
            EventColor::Black
        } else if reads(&self.packet_type, "Ack") {
            EventColor::Green
        } else if reads(&self.packet_type, "Nack") {
            EventColor::Red
        } else {
            EventColor::Blue
        }
    }
}

/// The event that a line of text records, if the line is short enough to be
/// read, is JSON, and records an event of a packet.
pub open spec fn event_of(line: Seq<char>) -> Option<LogRecord> {
    if vstd::utf8::encode_utf8(line).len() > MAX_LINE_BYTES {
        None
    } else {
        match json_record(line) {
            Some(fields) => match decoded(
                TraceLineView { msg: fields.0, time: fields.1, node: fields.2, packet: fields.3 },
            ) {
                Ok(rec) => Some(rec),
                Err(_) => None,
            },
            None => None,
        }
    }
}

/// The events that the first `n` of `lines` record, in order. Lines that
/// record no event of a packet are passed over.
pub open spec fn read_upto(lines: Seq<Seq<char>>, n: nat) -> Seq<LogRecord>
    decreases n,
{
    if n == 0 {
        Seq::empty()
    } else {
        let before = read_upto(lines, (n - 1) as nat);
        match event_of(lines[n - 1]) {
            None => before,
            Some(rec) => before.push(rec),
        }
    }
}

/// The events with their times counted from the time of the first on; an
/// event that lies before the first is left out.
pub open spec fn rebased(recs: Seq<LogRecord>) -> Seq<LogRecord>
    decreases recs.len(),
{
    if recs.len() == 0 {
        Seq::empty()
    } else {
        let before = rebased(recs.drop_last());
        let start = recs[0].time;
        let last = recs.last();
        if start <= last.time {
            before.push(LogRecord { time: (last.time - start) as usize, ..last })
        } else {
            before
        }
    }
}

/// The records of a list of events.
pub open spec fn records(events: Seq<JsonLogEvent>) -> Seq<LogRecord> {
    events.map_values(|ev: JsonLogEvent| ev.record())
}

/// The lines of a list of strings.
pub open spec fn texts(lines: Seq<String>) -> Seq<Seq<char>> {
    lines.map_values(|l: String| l@)
}

/// Reads a trace that was written as one JSON object per line.
pub struct SlogJSONReader {
    pub lines: Vec<String>,
}

impl SlogJSONReader {
    pub fn new(lines: Vec<String>) -> (r: Self)
        ensures
            r.lines == lines,
    {
        SlogJSONReader { lines }
    }

    /// The events of the trace, in order, with their times counted from the
    /// first event on.
    pub fn get_events(self) -> (events: Vec<JsonLogEvent>)
        ensures
            records(events@) == rebased(read_upto(texts(self.lines@), self.lines@.len())),
    {
        let ghost lines = texts(self.lines@);
        let mut events: Vec<JsonLogEvent> = Vec::new();
        let mut i: usize = 0;
        proof {
            assert(records(events@) =~= Seq::<LogRecord>::empty());
        }
        while i < self.lines.len()
            invariant
                i <= self.lines@.len(),
                lines == texts(self.lines@),
                records(events@) == read_upto(lines, i as nat),
            decreases self.lines@.len() - i,
        {
            let ghost had = records(events@);
            proof {
                assert(lines[i as int] == self.lines@[i as int]@);
            }
            let line: &str = self.lines[i].as_str();
            if line.as_bytes().len() <= MAX_LINE_BYTES {
                if let Some(record) = read_record(line) {
                    if let Ok(parsed) = JsonLogEvent::new(record) {
                        let ghost rec = parsed.record();
                        events.push(parsed);
                        proof {
                            assert(records(events@) =~= had.push(rec));
                        }
                    }
                }
            }
            i = i + 1;
        }
        JsonLogEvent::rebase(events)
    }
}

/// Entry `k` of `pending` is the first sending still unmatched of the packet
/// with label `key`.
pub open spec fn waits_first(events: Seq<LogRecord>, pending: Seq<int>, key: Seq<char>, k: int) -> bool {
    &&& 0 <= k < pending.len()
    &&& events[pending[k]].key() == key
    &&& forall|j: int| 0 <= j < k ==> events[#[trigger] pending[j]].key() != key
}

/// The first sending still unmatched of the packet with label `key`, as a
/// position in `pending`.
pub open spec fn partner(events: Seq<LogRecord>, pending: Seq<int>, key: Seq<char>) -> Option<int> {
    if exists|k: int| waits_first(events, pending, key, k) {
        Some(choose|k: int| waits_first(events, pending, key, k))
    } else {
        None
    }
}

/// Whether any of the first `n` events is a sending of the packet with label
/// `key`.
pub open spec fn was_sent(events: Seq<LogRecord>, n: int, key: Seq<char>) -> bool {
    exists|i: int|
        0 <= i < n && (#[trigger] events[i]).side() == Some(EventMatchSide::Tx) && events[i].key()
            == key
}

/// Where the matching of sendings and receipts stands: the sendings that
/// still wait for a receipt, the edges found, and the failure if there is
/// one.
pub struct Matching {
    pub pending: Seq<int>,
    pub edges: Seq<(int, int)>,
    pub failed: Option<VizError>,
}

/// The matching after the first `n` events. A sending waits. A receipt takes
/// the earliest sending of the same packet that still waits, and the two make
/// an edge; a receipt that finds none is a failure, and the matching stops
/// there. Any other event is passed over.
pub open spec fn matched_upto(events: Seq<LogRecord>, n: nat) -> Matching
    decreases n,
{
    if n == 0 {
        Matching { pending: Seq::empty(), edges: Seq::empty(), failed: None }
    } else {
        let m = matched_upto(events, (n - 1) as nat);
        let ev = events[n - 1];
        if m.failed is Some {
            m
        } else {
            match ev.side() {
                Some(EventMatchSide::Tx) => Matching { pending: m.pending.push(n - 1), ..m },
                Some(EventMatchSide::Rx) => match partner(events, m.pending, ev.key()) {
                    Some(k) => Matching {
                        pending: m.pending.remove(k),
                        edges: m.edges.push((m.pending[k], n - 1)),
                        ..m
                    },
                    None => Matching {
                        failed: Some(
                            if was_sent(events, n - 1, ev.key()) {
                                VizError::UnmatchedTx((n - 1) as usize)
                            } else {
                                VizError::UnmatchedRx((n - 1) as usize)
                            },
                        ),
                        ..m
                    },
                },
                None => m,
            }
        }
    }
}

/// Entry `i` is the first of `nodes` that places node `node`.
pub open spec fn places(nodes: Seq<(usize, usize)>, node: usize, i: int) -> bool {
    &&& 0 <= i < nodes.len()
    &&& nodes[i].0 == node
    &&& forall|j: int| 0 <= j < i ==> (#[trigger] nodes[j]).0 != node
}

/// The column in which node `node` is drawn, if it is drawn.
pub open spec fn column_of(nodes: Seq<(usize, usize)>, node: usize) -> Option<usize> {
    if exists|i: int| places(nodes, node, i) {
        Some(nodes[choose|i: int| places(nodes, node, i)].1)
    } else {
        None
    }
}

/// An edge of the drawing: from a column at a time to a column at a time.
#[derive(Clone, Copy, Debug, PartialEq, Eq, Structural)]
pub struct TikzEdge {
    pub tx_column: usize,
    pub tx_time: usize,
    pub rx_column: usize,
    pub rx_time: usize,
    pub color: EventColor,
    /// The position of the sending among the events, whose label the edge
    /// carries.
    pub tx_event: usize,
}

/// A laid-out trace: the edges to draw, and the time at which the drawing
/// ends.
pub struct Drawing {
    pub edges: Vec<TikzEdge>,
    pub end_time: usize,
}

/// The edge between two events, unless one of them happened at a node that
/// is not drawn.
pub open spec fn edge_between(nodes: Seq<(usize, usize)>, events: Seq<LogRecord>, tx: int, rx: int) -> Option<
    TikzEdge,
> {
    match (column_of(nodes, events[tx].node), column_of(nodes, events[rx].node)) {
        (Some(a), Some(b)) => Some(
            TikzEdge {
                tx_column: a,
                tx_time: events[tx].time,
                rx_column: b,
                rx_time: events[rx].time,
                color: events[tx].color(),
                tx_event: tx as usize,
            },
        ),
        _ => None,
    }
}

/// The edges to draw of the first `n` matched pairs.
pub open spec fn drawn(nodes: Seq<(usize, usize)>, events: Seq<LogRecord>, pairs: Seq<(int, int)>, n: nat) -> Seq<
    TikzEdge,
>
    decreases n,
{
    if n == 0 {
        Seq::empty()
    } else {
        let before = drawn(nodes, events, pairs, (n - 1) as nat);
        match edge_between(nodes, events, pairs[n - 1].0, pairs[n - 1].1) {
            Some(e) => before.push(e),
            None => before,
        }
    }
}

/// Lays a trace out for TikZ: each node that is drawn has a column.
pub struct TikzWriter {
    pub nodes: Vec<(usize, usize)>,
}

impl TikzWriter {
    /// A writer that draws the nodes listed, each as a pair of the node's id
    /// and its column.
    pub fn new(nodes: &[(usize, usize)]) -> (w: Self)
        ensures
            w.nodes@ == nodes@,
    {
        let mut own: Vec<(usize, usize)> = Vec::new();
        let mut i: usize = 0;
        while i < nodes.len()
            invariant
                i <= nodes@.len(),
                own@ == nodes@.take(i as int),
            decreases nodes@.len() - i,
        {
            own.push(nodes[i]);
            proof {
                assert(nodes@.take(i + 1) =~= nodes@.take(i as int).push(nodes@[i as int]));
            }
            i = i + 1;
        }
        proof {
            assert(nodes@.take(i as int) =~= nodes@);
        }
        TikzWriter { nodes: own }
    }

    /// The column of a node.
    pub fn lookup(&self, node: usize) -> (column: Option<usize>)
        ensures
            column == column_of(self.nodes@, node),
    {
        let mut i: usize = 0;
        while i < self.nodes.len()
            invariant
                i <= self.nodes@.len(),
                forall|j: int| 0 <= j < i ==> (#[trigger] self.nodes@[j]).0 != node,
            decreases self.nodes@.len() - i,
        {
            if self.nodes[i].0 == node {
                proof {
                    assert(places(self.nodes@, node, i as int));
                    let c = choose|c: int| places(self.nodes@, node, c);
                    if c < i {
                        assert(self.nodes@[c].0 != node);
                    } else if i < c {
                        assert(self.nodes@[i as int].0 != node);
                    }
                }
                return Some(self.nodes[i].1);
            }
            i = i + 1;
        }
        proof {
            assert forall|c: int| !places(self.nodes@, node, c) by {
                if 0 <= c < self.nodes@.len() {
                    assert(self.nodes@[c].0 != node);
                }
            }
        }
        None
    }

    /// The edge from a sending to a receipt, unless one of the two nodes is
    /// not drawn. `tx` and `rx` are positions in `events`.
    pub fn single_edge(&self, events: &Vec<JsonLogEvent>, tx: usize, rx: usize) -> (edge: Option<
        TikzEdge,
    >)
        requires
            tx < events@.len(),
            rx < events@.len(),
        ensures
            edge == edge_between(self.nodes@, records(events@), tx as int, rx as int),
    {
        let tx_node: usize = events[tx].node();
        let rx_node: usize = events[rx].node();
        match self.lookup(tx_node) {
            None => None,
            Some(a) => match self.lookup(rx_node) {
                None => None,
                Some(b) => Some(
                    TikzEdge {
                        tx_column: a,
                        tx_time: events[tx].time(),
                        rx_column: b,
                        rx_time: events[rx].time(),
                        color: events[tx].color(),
                        tx_event: tx,
                    },
                ),
            },
        }
    }

    /// Matches each receipt with the earliest sending of the same packet that
    /// is still unmatched, and lays out the edges between nodes that are
    /// drawn, in the order of the receipts. A receipt without a sending is an
    /// error. The drawing ends at the time of the last event.
    pub fn dump_events(&self, events: &Vec<JsonLogEvent>) -> (r: Result<Drawing, VizError>)
        ensures
            ({
                let recs = records(events@);
                let m = matched_upto(recs, recs.len());
                match r {
                    Ok(d) => {
                        &&& m.failed is None
                        &&& d.edges@ == drawn(self.nodes@, recs, m.edges, m.edges.len())
                        &&& d.end_time == if recs.len() == 0 {
                            0
                        } else {
                            recs.last().time
                        }
                    },
                    Err(e) => m.failed == Some(e),
                }
            }),
    {
        let ghost recs = records(events@);
        let mut labels: Vec<String> = Vec::new();
        let mut k: usize = 0;
        while k < events.len()
            invariant
                k <= events@.len(),
                recs == records(events@),
                labels@.len() == k,
                forall|j: int| 0 <= j < k ==> (#[trigger] labels@[j])@ == recs[j].key(),
            decreases events@.len() - k,
        {
            labels.push(events[k].annotation());
            k = k + 1;
        }
        let mut pending: Vec<usize> = Vec::new();
        let mut edges: Vec<TikzEdge> = Vec::new();
        let ghost mut pairs: Seq<(int, int)> = Seq::empty();
        let mut end_time: usize = 0;
        let mut i: usize = 0;
        proof {
            assert(pending@.map_values(|p: usize| p as int) =~= Seq::<int>::empty());
        }
        while i < events.len()
            invariant
                i <= events@.len(),
                recs == records(events@),
                recs.len() == events@.len(),
                labels@.len() == events@.len(),
                forall|j: int| 0 <= j < labels@.len() ==> (#[trigger] labels@[j])@ == recs[j].key(),
                matched_upto(recs, i as nat) == (Matching {
                    pending: pending@.map_values(|p: usize| p as int),
                    edges: pairs,
                    failed: None,
                }),
                forall|j: int| 0 <= j < pending@.len() ==> (#[trigger] pending@[j]) < i,
                forall|j: int|
                    0 <= j < pairs.len() ==> 0 <= (#[trigger] pairs[j]).0 < i && 0 <= pairs[j].1 < i,
                edges@ == drawn(self.nodes@, recs, pairs, pairs.len()),
                end_time == if i == 0 {
                    0
                } else {
                    recs[i - 1].time
                },
            decreases events@.len() - i,
        {
            let ghost waiting = pending@.map_values(|p: usize| p as int);
            let ghost key = recs[i as int].key();
            end_time = events[i].time();
            match events[i].event() {
                Some(EventMatchSide::Tx) => {
                    pending.push(i);
                    proof {
                        assert(pending@.map_values(|p: usize| p as int) =~= waiting.push(i as int));
                    }
                },
                Some(EventMatchSide::Rx) => {
                    let mut found: Option<usize> = None;
                    let mut j: usize = 0;
                    while j < pending.len() && found.is_none()
                        invariant
                            j <= pending@.len(),
                            i < events@.len(),
                            labels@.len() == events@.len(),
                            recs.len() == events@.len(),
                            waiting == pending@.map_values(|p: usize| p as int),
                            key == recs[i as int].key(),
                            forall|t: int| 0 <= t < labels@.len() ==> (#[trigger] labels@[t])@ == recs[t].key(),
                            forall|t: int| 0 <= t < pending@.len() ==> (#[trigger] pending@[t]) < i,
                            match found {
                                Some(f) => f < pending@.len() && waits_first(recs, waiting, key, f as int),
                                None => forall|t: int|
                                    0 <= t < j ==> recs[#[trigger] waiting[t]].key() != key,
                            },
                        decreases pending@.len() - j + if found is None { 1int } else { 0int },
                    {
                        proof {
                            assert(waiting[j as int] == pending@[j as int]);
                            assert(labels@[pending@[j as int] as int]@ == recs[pending@[j as int] as int].key());
                            assert(labels@[i as int]@ == key);
                        }
                        if labels[pending[j]] == labels[i] {
                            found = Some(j);
                        } else {
                            j = j + 1;
                        }
                    }
                    match found {
                        Some(f) => {
                            proof {
                                let c = choose|c: int| waits_first(recs, waiting, key, c);
                                if c < f {
                                    assert(recs[waiting[c]].key() != key);
                                } else if f < c {
                                    assert(recs[waiting[f as int]].key() != key);
                                }
                                assert(partner(recs, waiting, key) == Some(f as int));
                            }
                            let tx: usize = pending.remove(f);
                            proof {
                                assert(pending@.map_values(|p: usize| p as int) =~= waiting.remove(
                                    f as int,
                                ));
                                assert(waiting[f as int] == tx);
                            }
                            let ghost had = pairs;
                            proof {
                                pairs = pairs.push((tx as int, i as int));
                                assert(pairs.take(had.len() as int) =~= had);
                                lemma_drawn_prefix(self.nodes@, recs, had, pairs, had.len());
                            }
                            if let Some(edge) = self.single_edge(events, tx, i) {
                                edges.push(edge);
                            }
                        },
                        None => {
                            proof {
                                assert forall|c: int| !waits_first(recs, waiting, key, c) by {
                                    if 0 <= c < waiting.len() {
                                        assert(recs[waiting[c]].key() != key);
                                    }
                                }
                            }
                            let mut sent: bool = false;
                            let mut t: usize = 0;
                            while t < i
                                invariant
                                    t <= i,
                                    i < events@.len(),
                                    recs == records(events@),
                                    recs.len() == events@.len(),
                                    labels@.len() == events@.len(),
                                    key == recs[i as int].key(),
                                    forall|u: int| 0 <= u < labels@.len() ==> (#[trigger] labels@[u])@ == recs[u].key(),
                                    sent == was_sent(recs, t as int, key),
                                decreases i - t,
                            {
                                proof {
                                    assert(labels@[t as int]@ == recs[t as int].key());
                                    assert(labels@[i as int]@ == key);
                                }
                                let is_tx: bool = match events[t].event() {
                                    Some(EventMatchSide::Tx) => true,
                                    _ => false,
                                };
                                if is_tx && labels[t] == labels[i] {
                                    sent = true;
                                    proof {
                                        assert(recs[t as int].side() == Some(EventMatchSide::Tx));
                                    }
                                } else {
                                    proof {
                                        if was_sent(recs, t + 1, key) && !sent {
                                            let w = choose|w: int|
                                                0 <= w < t + 1 && (#[trigger] recs[w]).side() == Some(
                                                    EventMatchSide::Tx,
                                                ) && recs[w].key() == key;
                                            if w < t {
                                                assert(was_sent(recs, t as int, key));
                                            }
                                        }
                                    }
                                }
                                t = t + 1;
                            }
                            proof {
                                lemma_failed_matching_stays(recs, (i + 1) as nat, recs.len());
                            }
                            if sent {
                                return Err(VizError::UnmatchedTx(i));
                            } else {
                                return Err(VizError::UnmatchedRx(i));
                            }
                        },
                    }
                },
                None => {},
            }
            i = i + 1;
        }
        Ok(Drawing { edges, end_time })
    }
}

/// The edges drawn of the first pairs do not depend on the pairs that follow.
pub proof fn lemma_drawn_prefix(
    nodes: Seq<(usize, usize)>,
    events: Seq<LogRecord>,
    pairs: Seq<(int, int)>,
    more: Seq<(int, int)>,
    n: nat,
)
    requires
        n <= pairs.len() <= more.len(),
        more.take(pairs.len() as int) == pairs,
    ensures
        drawn(nodes, events, more, n) == drawn(nodes, events, pairs, n),
    decreases n,
{
    if n > 0 {
        lemma_drawn_prefix(nodes, events, pairs, more, (n - 1) as nat);
        assert(more.take(pairs.len() as int)[n - 1] == more[n - 1]);
    }
}

/// A matching that has failed goes no further.
pub proof fn lemma_failed_matching_stays(events: Seq<LogRecord>, n: nat, m: nat)
    requires
        n <= m,
        matched_upto(events, n).failed is Some,
    ensures
        matched_upto(events, m) == matched_upto(events, n),
    decreases m,
{
    if n < m {
        lemma_failed_matching_stays(events, n, (m - 1) as nat);
    }
}

/// How many of the first `n` events are sendings of the packet with label
/// `key`.
pub open spec fn sent_upto(events: Seq<LogRecord>, n: nat, key: Seq<char>) -> nat
    decreases n,
{
    if n == 0 {
        0
    } else {
        sent_upto(events, (n - 1) as nat, key) + if events[n - 1].side() == Some(
            EventMatchSide::Tx,
        ) && events[n - 1].key() == key {
            1nat
        } else {
            0nat
        }
    }
}

/// How many of the first `n` events are receipts of the packet with label
/// `key`.
pub open spec fn received_upto(events: Seq<LogRecord>, n: nat, key: Seq<char>) -> nat
    decreases n,
{
    if n == 0 {
        0
    } else {
        received_upto(events, (n - 1) as nat, key) + if events[n - 1].side() == Some(
            EventMatchSide::Rx,
        ) && events[n - 1].key() == key {
            1nat
        } else {
            0nat
        }
    }
}

/// How many of the sendings in `pending` are of the packet with label `key`.
pub open spec fn waiting_for(events: Seq<LogRecord>, pending: Seq<int>, key: Seq<char>) -> nat
    decreases pending.len(),
{
    if pending.len() == 0 {
        0
    } else {
        waiting_for(events, pending.drop_last(), key) + if events[pending.last()].key() == key {
            1nat
        } else {
            0nat
        }
    }
}

/// Every receipt among the first `n` events comes after more sendings of its
/// packet than receipts of it.
pub open spec fn sent_before_received(events: Seq<LogRecord>, n: nat) -> bool {
    forall|i: int|
        0 <= i < n && (#[trigger] events[i]).side() == Some(EventMatchSide::Rx) ==> sent_upto(
            events,
            i as nat,
            events[i].key(),
        ) > received_upto(events, i as nat, events[i].key())
}

/// Where no sending of a packet waits, no entry is one.
pub proof fn lemma_none_waiting(events: Seq<LogRecord>, pending: Seq<int>, key: Seq<char>)
    requires
        waiting_for(events, pending, key) == 0,
    ensures
        forall|j: int| 0 <= j < pending.len() ==> events[#[trigger] pending[j]].key() != key,
    decreases pending.len(),
{
    if pending.len() > 0 {
        lemma_none_waiting(events, pending.drop_last(), key);
        assert forall|j: int| 0 <= j < pending.len() implies events[#[trigger] pending[j]].key()
            != key by {
            if j < pending.len() - 1 {
                assert(pending.drop_last()[j] == pending[j]);
            }
        }
    }
}

/// Where a sending of a packet waits, one waits first.
pub proof fn lemma_some_waiting(events: Seq<LogRecord>, pending: Seq<int>, key: Seq<char>)
    requires
        waiting_for(events, pending, key) > 0,
    ensures
        partner(events, pending, key) is Some,
        waits_first(events, pending, key, partner(events, pending, key)->0),
    decreases pending.len(),
{
    let head = pending.drop_last();
    if waiting_for(events, head, key) > 0 {
        lemma_some_waiting(events, head, key);
        let k = partner(events, head, key)->0;
        assert(pending[k] == head[k]);
        assert forall|j: int| 0 <= j < k implies events[#[trigger] pending[j]].key() != key by {
            assert(head[j] == pending[j]);
        }
        assert(waits_first(events, pending, key, k));
    } else {
        lemma_none_waiting(events, head, key);
        assert forall|j: int| 0 <= j < pending.len() - 1 implies events[
            #[trigger] pending[j]
        ].key() != key by {
            assert(head[j] == pending[j]);
        }
        assert(waits_first(events, pending, key, pending.len() - 1));
    }
}

/// Taking a sending out of those that wait takes one from the count of its
/// packet and leaves the other counts alone.
pub proof fn lemma_waiting_less_one(events: Seq<LogRecord>, pending: Seq<int>, k: int, key: Seq<char>)
    requires
        0 <= k < pending.len(),
    ensures
        waiting_for(events, pending.remove(k), key) + if events[pending[k]].key() == key {
            1nat
        } else {
            0nat
        } == waiting_for(events, pending, key),
    decreases pending.len(),
{
    if k == pending.len() - 1 {
        assert(pending.remove(k) =~= pending.drop_last());
    } else {
        lemma_waiting_less_one(events, pending.drop_last(), k, key);
        assert(pending.remove(k).drop_last() =~= pending.drop_last().remove(k));
        assert(pending.remove(k).last() == pending.last());
        assert(pending.drop_last()[k] == pending[k]);
    }
}

/// The matching of a trace in which every receipt comes after more sendings
/// of its packet than receipts of it never fails; and of each packet as many
/// sendings wait as were sent and not yet received.
pub proof fn lemma_matching_succeeds(events: Seq<LogRecord>, n: nat, key: Seq<char>)
    requires
        n <= events.len(),
        sent_before_received(events, n),
    ensures
        matched_upto(events, n).failed is None,
        waiting_for(events, matched_upto(events, n).pending, key) + received_upto(events, n, key)
            == sent_upto(events, n, key),
    decreases n,
{
    if n > 0 {
        let before = (n - 1) as nat;
        let m = matched_upto(events, before);
        let ev = events[n - 1];
        assert(sent_before_received(events, before));
        lemma_matching_succeeds(events, before, key);
        match ev.side() {
            Some(EventMatchSide::Tx) => {
                assert(m.pending.push(n - 1).drop_last() =~= m.pending);
            },
            Some(EventMatchSide::Rx) => {
                lemma_matching_succeeds(events, before, ev.key());
                assert(sent_upto(events, before, ev.key()) > received_upto(
                    events,
                    before,
                    ev.key(),
                ));
                lemma_some_waiting(events, m.pending, ev.key());
                let k = partner(events, m.pending, ev.key())->0;
                lemma_waiting_less_one(events, m.pending, k, key);
            },
            None => {},
        }
    }
}

/// The sendings that wait after the first `n` events are sendings among
/// them, and every edge found joins a sending with a later receipt of the
/// same packet: both ends carry the same label.
pub proof fn lemma_edges_join_equal_labels(events: Seq<LogRecord>, n: nat)
    requires
        n <= events.len(),
    ensures
        forall|j: int|
            0 <= j < matched_upto(events, n).pending.len() ==> {
                let p = #[trigger] matched_upto(events, n).pending[j];
                0 <= p < n && events[p].side() == Some(EventMatchSide::Tx)
            },
        forall|j: int|
            0 <= j < matched_upto(events, n).edges.len() ==> {
                let e = #[trigger] matched_upto(events, n).edges[j];
                &&& 0 <= e.0 < e.1 < n
                &&& events[e.0].side() == Some(EventMatchSide::Tx)
                &&& events[e.1].side() == Some(EventMatchSide::Rx)
                &&& events[e.0].key() == events[e.1].key()
            },
    decreases n,
{
    if n > 0 {
        let before = (n - 1) as nat;
        let m = matched_upto(events, before);
        let now = matched_upto(events, n);
        let ev = events[n - 1];
        lemma_edges_join_equal_labels(events, before);
        if m.failed is None {
            match ev.side() {
                Some(EventMatchSide::Tx) => {
                    assert forall|j: int| 0 <= j < now.pending.len() implies {
                        let p = #[trigger] now.pending[j];
                        0 <= p < n && events[p].side() == Some(EventMatchSide::Tx)
                    } by {
                        if j < m.pending.len() {
                            assert(now.pending[j] == m.pending[j]);
                        }
                    }
                },
                Some(EventMatchSide::Rx) => {
                    match partner(events, m.pending, ev.key()) {
                        Some(k) => {
                            assert(waits_first(events, m.pending, ev.key(), k));
                            assert forall|j: int| 0 <= j < now.pending.len() implies {
                                let p = #[trigger] now.pending[j];
                                0 <= p < n && events[p].side() == Some(EventMatchSide::Tx)
                            } by {
                                if j < k {
                                    assert(now.pending[j] == m.pending[j]);
                                } else {
                                    assert(now.pending[j] == m.pending[j + 1]);
                                }
                            }
                            assert forall|j: int| 0 <= j < now.edges.len() implies {
                                let e = #[trigger] now.edges[j];
                                &&& 0 <= e.0 < e.1 < n
                                &&& events[e.0].side() == Some(EventMatchSide::Tx)
                                &&& events[e.1].side() == Some(EventMatchSide::Rx)
                                &&& events[e.0].key() == events[e.1].key()
                            } by {
                                if j < m.edges.len() {
                                    assert(now.edges[j] == m.edges[j]);
                                } else {
                                    assert(now.edges[j] == (m.pending[k], n - 1));
                                }
                            }
                        },
                        None => {},
                    }
                },
                None => {},
            }
        }
    }
}

} // verus!
