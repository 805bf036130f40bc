//! The native sink: buffers events and, on flush, hands out the payload of
//! records that goes to the downstream collector.

use crate::metric::{Event, EventView, LogLine, LogLineView, Metric, MetricKind, MetricView};
use crate::sink::{Sink, Valve};
use crate::tagmap::{pair_views, pairs_of, Pairs};
use crate::time::{delay_millis, delay_of};
use vstd::prelude::*;

verus! {

/// The number of buffered events above which the sink takes no more in.
pub const WATERMARK: usize = 10_000;

/// The port of the collector where none is configured.
pub const DEFAULT_PORT: u16 = 1972;

/// How the collector is to put the samples of a record together.
#[derive(Debug, Clone, Copy, PartialEq, Eq, Structural)]
pub enum AggregationMethod {
    WindowCount,
    SetOrReset,
    MonotonicAdd,
    Summarize,
}

/// The aggregation method that a kind of metric asks for.
pub open spec fn method_of(kind: MetricKind) -> AggregationMethod {
    match kind {
        MetricKind::Counter => AggregationMethod::WindowCount,
        MetricKind::Gauge | MetricKind::Raw => AggregationMethod::SetOrReset,
        MetricKind::DeltaGauge => AggregationMethod::MonotonicAdd,
        MetricKind::Timer | MetricKind::Histogram => AggregationMethod::Summarize,
    }
}

/// The aggregation method that a kind of metric asks for.
pub fn method_for(kind: MetricKind) -> (m: AggregationMethod)
    ensures
        m == method_of(kind),
{
    match kind {
        MetricKind::Counter => AggregationMethod::WindowCount,
        MetricKind::Gauge | MetricKind::Raw => AggregationMethod::SetOrReset,
        MetricKind::DeltaGauge => AggregationMethod::MonotonicAdd,
        MetricKind::Timer | MetricKind::Histogram => AggregationMethod::Summarize,
    }
}

/// A telemetry record as plain values.
pub struct TelemetryView {
    pub name: Seq<char>,
    pub timestamp_ms: i64,
    pub method: AggregationMethod,
    pub metadata: Pairs,
    pub samples: Seq<i64>,
}

/// One metric as it goes to the collector.
#[derive(Debug, PartialEq, Eq)]
pub struct Telemetry {
    pub name: String,
    pub timestamp_ms: i64,
    pub method: AggregationMethod,
    pub metadata: Vec<(String, String)>,
    pub samples: Vec<i64>,
}

impl View for Telemetry {
    type V = TelemetryView;

    open spec fn view(&self) -> TelemetryView {
        TelemetryView {
            name: self.name@,
            timestamp_ms: self.timestamp_ms,
            method: self.method,
            metadata: pair_views(self.metadata@),
            samples: self.samples@,
        }
    }
}

/// A log record as plain values.
pub struct LogRecordView {
    pub path: Seq<char>,
    pub value: Seq<char>,
    pub timestamp_ms: i64,
    pub metadata: Pairs,
}

/// One log line as it goes to the collector.
#[derive(Debug, PartialEq, Eq)]
pub struct LogRecord {
    pub path: String,
    pub value: String,
    pub timestamp_ms: i64,
    pub metadata: Vec<(String, String)>,
}

impl View for LogRecord {
    type V = LogRecordView;

    open spec fn view(&self) -> LogRecordView {
        LogRecordView {
            path: self.path@,
            value: self.value@,
            timestamp_ms: self.timestamp_ms,
            metadata: pair_views(self.metadata@),
        }
    }
}

/// A payload as plain values.
pub struct PayloadView {
    pub points: Seq<TelemetryView>,
    pub lines: Seq<LogRecordView>,
}

/// What one flush sends: the telemetry records and the log records, each
/// in the order in which the events came.
#[derive(Debug, PartialEq, Eq)]
pub struct Payload {
    pub points: Vec<Telemetry>,
    pub lines: Vec<LogRecord>,
}

impl View for Payload {
    type V = PayloadView;

    open spec fn view(&self) -> PayloadView {
        PayloadView {
            points: self.points@.map_values(|t: Telemetry| t@),
            lines: self.lines@.map_values(|l: LogRecord| l@),
        }
    }
}

/// The record that a metric becomes: its name, its time as the timestamp,
/// the method of its kind, its tags in the order of their keys and its
/// samples in rising order.
pub open spec fn telemetry_of(m: MetricView) -> TelemetryView {
    TelemetryView {
        name: m.name,
        timestamp_ms: m.time,
        method: method_of(m.kind),
        metadata: pairs_of(m.tags),
        samples: m.samples,
    }
}

/// The record that a log line becomes.
pub open spec fn record_of(l: LogLineView) -> LogRecordView {
    LogRecordView {
        path: l.path,
        value: l.value,
        timestamp_ms: l.time,
        metadata: pairs_of(l.tags),
    }
}

/// The payload that a run of events makes: a record for every metric and
/// every log line, in order; a flush tick makes none.
pub open spec fn payload_of(events: Seq<EventView>) -> PayloadView
    decreases events.len(),
{
    if events.len() == 0 {
        PayloadView { points: Seq::empty(), lines: Seq::empty() }
    } else {
        let p = payload_of(events.drop_last());
        match events.last() {
            EventView::Telemetry(m) => PayloadView { points: p.points.push(telemetry_of(m)), ..p },
            EventView::Log(l) => PayloadView { lines: p.lines.push(record_of(l)), ..p },
            EventView::TimerFlush => p,
        }
    }
}

/// The events of a vector as plain values.
pub open spec fn event_views(v: Seq<Event>) -> Seq<EventView> {
    v.map_values(|e: Event| e@)
}

/// Where the collector is, and where this sink stands in the
/// configuration.
#[derive(Debug)]
pub struct NativeConfig {
    pub port: u16,
    pub host: String,
    pub config_path: String,
}

/// A sink that forwards what it is given to a collector.
pub struct Native {
    port: u16,
    host: String,
    buffer: Vec<Event>,
    attempts: u32,
}

/// The count of fruitless tries after one more.
pub open spec fn one_more(attempts: u32) -> u32 {
    if attempts < u32::MAX {
        (attempts + 1) as u32
    } else {
        attempts
    }
}

impl Native {
    /// The events that wait to be sent.
    pub closed spec fn buffered(&self) -> Seq<EventView> {
        event_views(self.buffer@)
    }

    /// The tries in a row that came to nothing.
    pub closed spec fn fruitless(&self) -> u32 {
        self.attempts
    }

    /// The collector's host and port.
    pub closed spec fn address(&self) -> (Seq<char>, u16) {
        (self.host@, self.port)
    }

    /// A sink for the collector that `config` names, with nothing buffered.
    pub fn new(config: NativeConfig) -> (n: Native)
        ensures
            n.buffered() == Seq::<EventView>::empty(),
            n.fruitless() == 0,
            n.address() == (config.host@, config.port),
    {
        let n = Native { port: config.port, host: config.host, buffer: Vec::new(), attempts: 0 };
        assert(event_views(n.buffer@) =~= Seq::<EventView>::empty());
        n
    }

    /// The collector's host.
    pub fn host(&self) -> (h: &String)
        ensures
            h@ == self.address().0,
    {
        &self.host
    }

    /// The collector's port.
    pub fn port(&self) -> (p: u16)
        ensures
            p == self.address().1,
    {
        self.port
    }

    /// The number of events that wait to be sent.
    pub fn pending(&self) -> (n: usize)
        ensures
            n == self.buffered().len(),
    {
        self.buffer.len()
    }

    /// The milliseconds to hold off before the next turn of the loop.
    pub fn wait(&self) -> (ms: u64)
        ensures
            ms == delay_of(self.fruitless()),
    {
        delay_millis(self.attempts)
    }

    /// Whether the loop is to ask the channel for an event this turn. With
    /// more than `WATERMARK` events buffered it is not, and the turn counts
    /// as fruitless.
    pub fn admits(&mut self) -> (ask: bool)
        ensures
            ask == (old(self).buffered().len() <= WATERMARK),
            final(self).buffered() == old(self).buffered(),
            final(self).address() == old(self).address(),
            final(self).fruitless() == (if ask {
                old(self).fruitless()
            } else {
                one_more(old(self).fruitless())
            }),
    {
        if self.buffer.len() > WATERMARK {
            if self.attempts < u32::MAX {
                self.attempts = self.attempts + 1;
            }
            false
        } else {
            true
        }
    }

    /// Takes what the channel handed out this turn. Nothing counts as one
    /// more fruitless try. An event ends the run of fruitless tries: the
    /// flush tick gives the payload to send, or nothing where nothing is
    /// buffered; any other event is buffered.
    pub fn receive(&mut self, polled: Option<Event>) -> (r: Option<Payload>)
        ensures
            final(self).address() == old(self).address(),
            match polled {
                None => {
                    &&& r is None
                    &&& final(self).fruitless() == one_more(old(self).fruitless())
                    &&& final(self).buffered() == old(self).buffered()
                },
                Some(Event::TimerFlush) => {
                    &&& r is Some <==> old(self).buffered().len() > 0
                    &&& r is Some ==> r.unwrap()@ == payload_of(old(self).buffered())
                    &&& final(self).fruitless() == 0
                    &&& final(self).buffered() == old(self).buffered()
                },
                Some(e) => {
                    &&& r is None
                    &&& final(self).fruitless() == 0
                    &&& final(self).buffered() == old(self).buffered().push(e@)
                },
            },
    {
        match polled {
            None => {
                if self.attempts < u32::MAX {
                    self.attempts = self.attempts + 1;
                }
                None
            },
            Some(Event::TimerFlush) => {
                self.attempts = 0;
                if self.buffer.len() == 0 {
                    None
                } else {
                    Some(self.payload())
                }
            },
            Some(e) => {
                self.attempts = 0;
                let ghost before = event_views(self.buffer@);
                self.buffer.push(e);
                assert(event_views(self.buffer@) =~= before.push(e@));
                None
            },
        }
    }

    /// The payload of the buffered events.
    pub fn payload(&self) -> (p: Payload)
        ensures
            p@ == payload_of(self.buffered()),
    {
        let ghost events = event_views(self.buffer@);
        let mut points: Vec<Telemetry> = Vec::new();
        let mut lines: Vec<LogRecord> = Vec::new();
        let mut i: usize = 0;
        assert(points@.map_values(|t: Telemetry| t@) =~= payload_of(events.take(0)).points);
        assert(lines@.map_values(|l: LogRecord| l@) =~= payload_of(events.take(0)).lines);
        while i < self.buffer.len()
            invariant
                i <= self.buffer@.len(),
                events == event_views(self.buffer@),
                points@.map_values(|t: Telemetry| t@) == payload_of(events.take(i as int)).points,
                lines@.map_values(|l: LogRecord| l@) == payload_of(events.take(i as int)).lines,
            decreases self.buffer@.len() - i,
        {
            let ghost pv = points@.map_values(|t: Telemetry| t@);
            let ghost lv = lines@.map_values(|l: LogRecord| l@);
            proof {
                assert(events.take(i + 1).drop_last() =~= events.take(i as int));
                assert(events.take(i + 1).last() == events[i as int]);
                assert(events[i as int] == self.buffer@[i as int]@);
            }
            match &self.buffer[i] {
                Event::Telemetry(m) => {
                    let t = Telemetry {
                        name: m.name.clone(),
                        timestamp_ms: m.time,
                        method: method_for(m.kind),
                        metadata: m.tags.to_pairs(),
                        samples: m.value.to_vec(),
                    };
                    assert(t@ == telemetry_of(m@));
                    points.push(t);
                    assert(points@.map_values(|t: Telemetry| t@) =~= pv.push(telemetry_of(m@)));
                },
                Event::Log(l) => {
                    let r = LogRecord {
                        path: l.path.clone(),
                        value: l.value.clone(),
                        timestamp_ms: l.time,
                        metadata: l.tags.to_pairs(),
                    };
                    assert(r@ == record_of(l@));
                    lines.push(r);
                    assert(lines@.map_values(|l: LogRecord| l@) =~= lv.push(record_of(l@)));
                },
                Event::TimerFlush => {},
            }
            i = i + 1;
        }
        assert(events.take(events.len() as int) =~= events);
        Payload { points, lines }
    }

    /// The payload has reached the collector: the buffered events are
    /// dropped. Where it has not, nothing is to be called and the events
    /// wait for the next flush.
    pub fn delivered(&mut self)
        ensures
            final(self).buffered() == Seq::<EventView>::empty(),
            final(self).address() == old(self).address(),
            final(self).fruitless() == old(self).fruitless(),
    {
        self.buffer.clear();
        assert(event_views(self.buffer@) =~= Seq::<EventView>::empty());
    }
}

impl Default for Native {
    fn default() -> (n: Native)
        ensures
            n.buffered() == Seq::<EventView>::empty(),
            n.fruitless() == 0,
            n.address().1 == DEFAULT_PORT,
            n.address().0 == "127.0.0.1"@,
    {
        let n = Native {
            port: DEFAULT_PORT,
            host: "127.0.0.1".to_owned(),
            buffer: Vec::new(),
            attempts: 0,
        };
        assert(event_views(n.buffer@) =~= Seq::<EventView>::empty());
        n
    }
}

impl Sink for Native {
    type Emission = Payload;

    /// The metric is buffered.
    open spec fn takes(&self, after: &Native, point: MetricView) -> bool {
        &&& after.buffered() == self.buffered().push(EventView::Telemetry(point))
        &&& after.address() == self.address()
        &&& after.fruitless() == self.fruitless()
    }

    /// The log line is buffered.
    open spec fn takes_line(&self, after: &Native, line: LogLineView) -> bool {
        &&& after.buffered() == self.buffered().push(EventView::Log(line))
        &&& after.address() == self.address()
        &&& after.fruitless() == self.fruitless()
    }

    /// Where events are buffered, the payload is theirs, and they stay
    /// buffered until `delivered` says that the payload has arrived. Where
    /// none is, there is nothing to emit.
    open spec fn hands_out(&self, after: &Native, out: &Option<Payload>) -> bool {
        &&& *out is Some <==> self.buffered().len() > 0
        &&& *out is Some ==> out->0@ == payload_of(self.buffered())
        &&& after.buffered() == self.buffered()
        &&& after.address() == self.address()
        &&& after.fruitless() == self.fruitless()
    }

    /// Closed while more than `WATERMARK` events are buffered.
    open spec fn valve(&self) -> Valve {
        if self.buffered().len() > WATERMARK {
            Valve::Closed
        } else {
            Valve::Open
        }
    }

    fn deliver(&mut self, point: Metric) {
        let ghost before = event_views(self.buffer@);
        self.buffer.push(Event::Telemetry(point));
        assert(event_views(self.buffer@) =~= before.push(EventView::Telemetry(point@)));
    }

    fn deliver_line(&mut self, line: LogLine) {
        let ghost before = event_views(self.buffer@);
        self.buffer.push(Event::Log(line));
        assert(event_views(self.buffer@) =~= before.push(EventView::Log(line@)));
    }

    fn flush(&mut self) -> (out: Option<Payload>) {
        if self.buffer.len() == 0 {
            None
        } else {
            Some(self.payload())
        }
    }

    fn valve_state(&self) -> (v: Valve) {
        if self.buffer.len() > WATERMARK {
            Valve::Closed
        } else {
            Valve::Open
        }
    }
}

} // verus!
