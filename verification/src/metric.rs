//! The data that travels through the pipeline: metrics, log lines and the
//! events that carry them.
//!
//! A sample value is a fixed-point number with six decimal places, held in
//! an `i64`: the sample `12.1` is `12_100_000`.

use crate::quantile::{rank_of, total, with_sample, QuantileSummary, QUANTILE_ONE};
use crate::bytes::HASH_SEED;
use crate::tagmap::{hash_pairs, merge_of, overlay_of, TagMap};
use vstd::prelude::*;

verus! {

/// What one unit of a sample is worth in the `i64` that holds it.
pub const SCALE: i64 = 1_000_000;

/// How the samples of a metric are put together within a bucket.
#[derive(Debug, Clone, Copy, PartialEq, Eq, Structural)]
pub enum MetricKind {
    /// Samples add up.
    Counter,
    /// The last sample stands.
    Gauge,
    /// Samples add up, on top of what the gauge held before.
    DeltaGauge,
    /// Samples feed a quantile summary.
    Timer,
    /// Samples feed a quantile summary.
    Histogram,
    /// The last sample stands.
    Raw,
}

/// A metric as plain values.
pub struct MetricView {
    pub kind: MetricKind,
    pub name: Seq<char>,
    pub time: i64,
    pub tags: Map<Seq<char>, Seq<char>>,
    pub samples: Seq<i64>,
    pub newest: Option<i64>,
}

/// A named measurement: its kind, the second it belongs to, its tags and
/// the samples taken.
#[derive(Debug, PartialEq, Eq)]
pub struct Metric {
    pub kind: MetricKind,
    pub name: String,
    pub time: i64,
    pub tags: TagMap,
    pub value: QuantileSummary,
}

impl View for Metric {
    type V = MetricView;

    open spec fn view(&self) -> MetricView {
        MetricView {
            kind: self.kind,
            name: self.name@,
            time: self.time,
            tags: self.tags@,
            samples: self.value.samples(),
            newest: self.value.newest(),
        }
    }
}

/// The one number that a metric of this kind with these samples stands
/// for: the sum where samples add up, the last sample where the last one
/// stands, the median of a timer or histogram.
pub open spec fn value_of(kind: MetricKind, samples: Seq<i64>, newest: Option<i64>) -> Option<
    int,
> {
    if samples.len() == 0 || newest is None {
        None
    } else {
        match kind {
            MetricKind::Counter | MetricKind::DeltaGauge => Some(total(samples)),
            MetricKind::Gauge | MetricKind::Raw => Some(newest.unwrap() as int),
            MetricKind::Timer | MetricKind::Histogram => Some(
                samples[rank_of(500_000, samples.len())] as int,
            ),
        }
    }
}

impl Metric {
    /// Whether the metric is one that may travel: it has a name and at
    /// least one sample.
    pub open spec fn valid(&self) -> bool {
        self@.name.len() > 0 && self@.samples.len() > 0
    }

    /// A `Raw` metric of one sample, without tags, taken at second `time`.
    pub fn new(name: &str, value: i64, time: i64) -> (m: Metric)
        ensures
            m@ == (MetricView {
                kind: MetricKind::Raw,
                name: name@,
                time,
                tags: Map::empty(),
                samples: seq![value],
                newest: Some(value),
            }),
    {
        let mut summary = QuantileSummary::new();
        summary.insert(value);
        assert(summary.samples() =~= seq![value]);
        Metric {
            kind: MetricKind::Raw,
            name: name.to_owned(),
            time,
            tags: TagMap::new(),
            value: summary,
        }
    }

    /// The metric with its kind set.
    pub fn kind(self, kind: MetricKind) -> (m: Metric)
        ensures
            m@ == (MetricView { kind, ..self@ }),
    {
        let mut m = self;
        m.kind = kind;
        m
    }

    /// The metric as a counter.
    pub fn counter(self) -> (m: Metric)
        ensures
            m@ == (MetricView { kind: MetricKind::Counter, ..self@ }),
    {
        self.kind(MetricKind::Counter)
    }

    /// The metric as a gauge.
    pub fn gauge(self) -> (m: Metric)
        ensures
            m@ == (MetricView { kind: MetricKind::Gauge, ..self@ }),
    {
        self.kind(MetricKind::Gauge)
    }

    /// The metric as a delta gauge.
    pub fn delta_gauge(self) -> (m: Metric)
        ensures
            m@ == (MetricView { kind: MetricKind::DeltaGauge, ..self@ }),
    {
        self.kind(MetricKind::DeltaGauge)
    }

    /// The metric as a timer.
    pub fn timer(self) -> (m: Metric)
        ensures
            m@ == (MetricView { kind: MetricKind::Timer, ..self@ }),
    {
        self.kind(MetricKind::Timer)
    }

    /// The metric as a histogram.
    pub fn histogram(self) -> (m: Metric)
        ensures
            m@ == (MetricView { kind: MetricKind::Histogram, ..self@ }),
    {
        self.kind(MetricKind::Histogram)
    }

    /// The metric moved to second `time`.
    pub fn time(self, time: i64) -> (m: Metric)
        ensures
            m@ == (MetricView { time, ..self@ }),
    {
        let mut m = self;
        m.time = time;
        m
    }

    /// The metric with one more sample.
    pub fn insert_value(self, value: i64) -> (m: Metric)
        ensures
            m@ == (MetricView {
                samples: with_sample(self@.samples, value),
                newest: Some(value),
                ..self@
            }),
    {
        let mut m = self;
        m.value.insert(value);
        m
    }

    /// The metric with the tag `key` set to `value`. An empty key is no
    /// tag: the metric comes back as it was.
    pub fn overlay_tag(self, key: &str, value: &str) -> (m: Metric)
        ensures
            m@ == (MetricView {
                tags: if key@.len() > 0 {
                    self@.tags.insert(key@, value@)
                } else {
                    self@.tags
                },
                ..self@
            }),
    {
        let mut m = self;
        m.tags.insert(key.to_owned(), value.to_owned());
        m
    }

    /// Overlay: the metric with every tag of `map` put in, in place of its
    /// own tag of the same key where it has one.
    pub fn overlay_tags_from_map(self, map: &TagMap) -> (m: Metric)
        ensures
            m@ == (MetricView { tags: overlay_of(self@.tags, map@), ..self@ }),
    {
        let mut m = self;
        m.tags.overlay(map);
        m
    }

    /// Merge: the metric with every tag of `map` whose key it does not
    /// have; its own tags stay as they are.
    pub fn merge_tags_from_map(self, map: &TagMap) -> (m: Metric)
        ensures
            m@ == (MetricView { tags: merge_of(self@.tags, map@), ..self@ }),
    {
        let mut m = self;
        m.tags.merge(map);
        m
    }

    /// The summary of the metric's samples.
    pub fn summary(&self) -> (s: &QuantileSummary)
        ensures
            s.samples() == self@.samples,
            s.newest() == self@.newest,
    {
        &self.value
    }

    /// The number of samples.
    pub fn count(&self) -> (n: u64)
        ensures
            n == self@.samples.len(),
    {
        self.value.count()
    }

    /// The sum of the samples.
    pub fn sum(&self) -> (t: i128)
        ensures
            t == total(self@.samples),
    {
        self.value.sum()
    }

    /// The quantile of `q` millionths of the samples.
    pub fn query(&self, q: u32) -> (r: Option<i64>)
        ensures
            r is Some <==> self@.samples.len() > 0 && q <= QUANTILE_ONE,
            r is Some ==> r.unwrap() == self@.samples[rank_of(q, self@.samples.len())],
    {
        self.value.query(q)
    }

    /// The one number that the metric stands for, if it has a sample.
    pub fn value(&self) -> (r: Option<i128>)
        ensures
            r is Some <==> value_of(self@.kind, self@.samples, self@.newest) is Some,
            r is Some ==> r.unwrap() == value_of(self@.kind, self@.samples, self@.newest).unwrap(),
    {
        if self.value.count() == 0 {
            return None;
        }
        let last = self.value.last();
        match self.kind {
            MetricKind::Counter | MetricKind::DeltaGauge => Some(self.value.sum()),
            MetricKind::Gauge | MetricKind::Raw => match last {
                Some(x) => Some(x as i128),
                None => None,
            },
            MetricKind::Timer | MetricKind::Histogram => match self.value.query(500_000) {
                Some(x) => Some(x as i128),
                None => None,
            },
        }
    }

    /// The fingerprint of the metric's tags: the same for the same tags,
    /// in whatever order they were set.
    pub fn tag_fingerprint(&self) -> (h: u64)
        ensures
            h == hash_pairs(HASH_SEED, self.tags.pairs()),
    {
        self.tags.fingerprint()
    }
}

impl Clone for Metric {
    fn clone(&self) -> (m: Metric)
        ensures
            m@ == self@,
    {
        Metric {
            kind: self.kind,
            name: self.name.clone(),
            time: self.time,
            tags: self.tags.clone(),
            value: self.value.clone(),
        }
    }
}

/// A log line as plain values.
pub struct LogLineView {
    pub time: i64,
    pub path: Seq<char>,
    pub value: Seq<char>,
    pub tags: Map<Seq<char>, Seq<char>>,
}

/// One line of a tailed file: the second it was read, the file's path, the
/// line and its tags.
#[derive(Debug, PartialEq, Eq)]
pub struct LogLine {
    pub time: i64,
    pub path: String,
    pub value: String,
    pub tags: TagMap,
}

impl View for LogLine {
    type V = LogLineView;

    open spec fn view(&self) -> LogLineView {
        LogLineView { time: self.time, path: self.path@, value: self.value@, tags: self.tags@ }
    }
}

impl LogLine {
    /// The line `value` of the file `path`, without tags, read at second
    /// `time`.
    pub fn new(path: &str, value: &str, time: i64) -> (l: LogLine)
        ensures
            l@ == (LogLineView { time, path: path@, value: value@, tags: Map::empty() }),
    {
        LogLine { time, path: path.to_owned(), value: value.to_owned(), tags: TagMap::new() }
    }

    /// The line moved to second `time`.
    pub fn time(self, time: i64) -> (l: LogLine)
        ensures
            l@ == (LogLineView { time, ..self@ }),
    {
        let mut l = self;
        l.time = time;
        l
    }

    /// The line with the tag `key` set to `value`. An empty key is no tag:
    /// the line comes back as it was.
    pub fn overlay_tag(self, key: &str, value: &str) -> (l: LogLine)
        ensures
            l@ == (LogLineView {
                tags: if key@.len() > 0 {
                    self@.tags.insert(key@, value@)
                } else {
                    self@.tags
                },
                ..self@
            }),
    {
        let mut l = self;
        l.tags.insert(key.to_owned(), value.to_owned());
        l
    }

    /// Overlay: the line with every tag of `map` put in, in place of its
    /// own tag of the same key where it has one.
    pub fn overlay_tags_from_map(self, map: &TagMap) -> (l: LogLine)
        ensures
            l@ == (LogLineView { tags: overlay_of(self@.tags, map@), ..self@ }),
    {
        let mut l = self;
        l.tags.overlay(map);
        l
    }

    /// Merge: the line with every tag of `map` whose key it does not have;
    /// its own tags stay as they are.
    pub fn merge_tags_from_map(self, map: &TagMap) -> (l: LogLine)
        ensures
            l@ == (LogLineView { tags: merge_of(self@.tags, map@), ..self@ }),
    {
        let mut l = self;
        l.tags.merge(map);
        l
    }
}

impl Clone for LogLine {
    fn clone(&self) -> (l: LogLine)
        ensures
            l@ == self@,
    {
        LogLine {
            time: self.time,
            path: self.path.clone(),
            value: self.value.clone(),
            tags: self.tags.clone(),
        }
    }
}

/// An event as plain values.
pub enum EventView {
    Telemetry(MetricView),
    Log(LogLineView),
    TimerFlush,
}

/// What travels over a channel.
#[derive(Debug, PartialEq, Eq)]
pub enum Event {
    /// A metric on its way to a sink.
    Telemetry(Metric),
    /// A log line on its way to a sink.
    Log(LogLine),
    /// The tick on which a sink emits what it holds and starts anew.
    TimerFlush,
}

impl View for Event {
    type V = EventView;

    open spec fn view(&self) -> EventView {
        match self {
            Event::Telemetry(m) => EventView::Telemetry(m@),
            Event::Log(l) => EventView::Log(l@),
            Event::TimerFlush => EventView::TimerFlush,
        }
    }
}

impl Clone for Event {
    fn clone(&self) -> (e: Event)
        ensures
            e@ == self@,
    {
        match self {
            Event::Telemetry(m) => Event::Telemetry(m.clone()),
            Event::Log(l) => Event::Log(l.clone()),
            Event::TimerFlush => Event::TimerFlush,
        }
    }
}

} // verus!
