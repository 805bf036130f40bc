//! The StatsD source: what becomes of one datagram.

use crate::metric::{Event, EventView, Metric, MetricView};
use crate::mpsc::Sender;
use crate::statsd_line::{metric_of, statsd_lines, views, Reading};
use crate::tagmap::{overlay_of, TagMap};
use crate::time::utc_now;
use crate::util::{send, Delivery};
use vstd::prelude::*;

verus! {

/// The port that StatsD datagrams come to where none is configured.
pub const DEFAULT_PORT: u16 = 8125;

/// Where the source listens, the tags it puts on every metric and where it
/// stands in the configuration.
#[derive(Debug, Clone)]
pub struct StatsdConfig {
    pub ip: String,
    pub port: u16,
    pub tags: TagMap,
    pub forwards: Vec<String>,
    pub config_path: String,
}

impl Default for StatsdConfig {
    fn default() -> (c: StatsdConfig)
        ensures
            c.ip@ == ""@,
            c.port == DEFAULT_PORT,
            c.tags@ == Map::<Seq<char>, Seq<char>>::empty(),
            c.forwards@.len() == 0,
            c.config_path@ == "sources.statsd"@,
    {
        StatsdConfig {
            ip: "".to_owned(),
            port: DEFAULT_PORT,
            tags: TagMap::new(),
            forwards: Vec::new(),
            config_path: "sources.statsd".to_owned(),
        }
    }
}

/// A metric with the tags of the source laid over its own.
pub open spec fn tagged(m: MetricView, tags: Map<Seq<char>, Seq<char>>) -> MetricView {
    MetricView { tags: overlay_of(m.tags, tags), ..m }
}

/// The events that a run of readings gives rise to: for every reading its
/// metric, taken at second `now`, with the source's tags.
pub open spec fn events_of(
    rs: Seq<Reading>,
    now: i64,
    tags: Map<Seq<char>, Seq<char>>,
) -> Seq<EventView> {
    rs.map_values(|r: Reading| EventView::Telemetry(tagged(metric_of(r, now), tags)))
}

/// The events of a vector as plain values.
pub open spec fn event_views(v: Seq<Event>) -> Seq<EventView> {
    v.map_values(|e: Event| e@)
}

/// The same events, read off the metrics that the readings have become.
pub open spec fn events_from(ms: Seq<MetricView>, tags: Map<Seq<char>, Seq<char>>) -> Seq<
    EventView,
> {
    ms.map_values(|m: MetricView| EventView::Telemetry(tagged(m, tags)))
}

/// A source of StatsD datagrams with the channels it publishes to.
pub struct Statsd {
    chans: Vec<Sender>,
    port: u16,
    tags: TagMap,
    rejected: u64,
}

/// The count of rejected datagrams after one more; it stops at the end of
/// its range.
pub open spec fn one_more(count: u64) -> u64 {
    if count < u64::MAX {
        (count + 1) as u64
    } else {
        count
    }
}

impl Statsd {
    /// The producers of the channels that the source publishes to.
    pub closed spec fn channels(&self) -> Seq<Sender> {
        self.chans@
    }

    /// The tags that the source lays over every metric.
    pub closed spec fn source_tags(&self) -> Map<Seq<char>, Seq<char>> {
        self.tags@
    }

    /// The port that the source listens on.
    pub closed spec fn listens_on(&self) -> u16 {
        self.port
    }

    /// The number of datagrams that were rejected as malformed.
    pub closed spec fn errors(&self) -> u64 {
        self.rejected
    }

    /// A source that publishes to `chans`, configured by `config`.
    pub fn new(chans: Vec<Sender>, config: StatsdConfig) -> (s: Statsd)
        ensures
            s.channels() == chans@,
            s.source_tags() == config.tags@,
            s.listens_on() == config.port,
            s.errors() == 0,
    {
        Statsd { chans, port: config.port, tags: config.tags, rejected: 0 }
    }

    /// The number of datagrams that were rejected as malformed.
    pub fn rejected(&self) -> (n: u64)
        ensures
            n == self.errors(),
    {
        self.rejected
    }

    /// The port that the source listens on.
    pub fn port(&self) -> (p: u16)
        ensures
            p == self.listens_on(),
    {
        self.port
    }

    /// What one datagram, the first `len` bytes of `buf`, received at second
    /// `now`, gives rise to: the events to publish, in order, or `None`
    /// where a line of it is malformed. A malformed datagram is dropped and
    /// counted.
    pub fn handle_udp(&mut self, buf: &[u8], len: usize, now: i64) -> (r: Option<Vec<Event>>)
        requires
            len <= buf@.len(),
        ensures
            r is Some <==> statsd_lines(buf@.take(len as int)) is Some,
            r is Some ==> event_views(r.unwrap()@) == events_of(
                statsd_lines(buf@.take(len as int)).unwrap(),
                now,
                old(self).source_tags(),
            ),
            final(self).errors() == (if r is Some {
                old(self).errors()
            } else {
                one_more(old(self).errors())
            }),
            final(self).channels() == old(self).channels(),
            final(self).source_tags() == old(self).source_tags(),
            final(self).listens_on() == old(self).listens_on(),
    {
        let mut metrics: Vec<Metric> = Vec::new();
        assert(views(metrics@) =~= Seq::<MetricView>::empty());
        if !Metric::parse_statsd(buf, len, now, &mut metrics) {
            if self.rejected < u64::MAX {
                self.rejected = self.rejected + 1;
            }
            return None;
        }
        let ghost rs = statsd_lines(buf@.take(len as int)).unwrap();
        let ghost tags = self.tags@;
        let ghost ms = views(metrics@);
        proof {
            assert(ms =~= rs.map_values(|r: Reading| metric_of(r, now)));
            assert(events_from(ms, tags) =~= events_of(rs, now, tags));
        }
        let mut events: Vec<Event> = Vec::new();
        let ghost mut n: int = 0;
        assert(ms.skip(0) =~= ms);
        assert(event_views(events@) =~= events_from(ms.take(0), tags));
        while metrics.len() > 0
            invariant
                0 <= n <= ms.len(),
                tags == self.tags@,
                views(metrics@) == ms.skip(n),
                event_views(events@) == events_from(ms.take(n), tags),
            decreases metrics@.len(),
        {
            let ghost rest = views(metrics@);
            let ghost done = event_views(events@);
            assert(rest.len() == metrics@.len());
            let m = metrics.remove(0);
            proof {
                assert(m@ == rest[0]);
                assert(ms.skip(n)[0] == ms[n]);
                assert(views(metrics@) =~= rest.skip(1));
                assert(rest.skip(1) =~= ms.skip(n + 1));
            }
            let m = m.overlay_tags_from_map(&self.tags);
            let ghost a = EventView::Telemetry(m@);
            events.push(Event::Telemetry(m));
            proof {
                assert(event_views(events@) =~= done.push(a));
                assert(events_from(ms.take(n + 1), tags) =~= events_from(ms.take(n), tags).push(a));
                n = n + 1;
            }
        }
        proof {
            assert(ms.take(ms.len() as int) =~= ms);
        }
        Some(events)
    }

    /// What one datagram, the first `len` bytes of `buf`, gives rise to
    /// when it is received now: what `handle_udp` gives at the second that
    /// the clock shows, whatever that is.
    pub fn receive(&mut self, buf: &[u8], len: usize) -> (r: Option<Vec<Event>>)
        requires
            len <= buf@.len(),
        ensures
            r is Some <==> statsd_lines(buf@.take(len as int)) is Some,
            r is Some ==> exists|now: i64|
                event_views(r.unwrap()@) == #[trigger] events_of(
                    statsd_lines(buf@.take(len as int)).unwrap(),
                    now,
                    old(self).source_tags(),
                ),
            final(self).errors() == (if r is Some {
                old(self).errors()
            } else {
                one_more(old(self).errors())
            }),
            final(self).channels() == old(self).channels(),
            final(self).source_tags() == old(self).source_tags(),
            final(self).listens_on() == old(self).listens_on(),
    {
        let now = utc_now().seconds;
        self.handle_udp(buf, len, now)
    }

    /// Publishes one serialized event to every channel of the source.
    /// `globals` holds the shared index of each channel as the caller has
    /// just read it.
    pub fn publish(&mut self, globals: &Vec<usize>, payload: &[u8]) -> (out: Vec<Delivery>)
        requires
            old(self).channels().len() > 0,
            globals@.len() == old(self).channels().len(),
        ensures
            out@.len() == old(self).channels().len(),
            final(self).channels().len() == old(self).channels().len(),
            final(self).source_tags() == old(self).source_tags(),
            final(self).listens_on() == old(self).listens_on(),
            final(self).errors() == old(self).errors(),
            forall|turn: int|
                0 <= turn < out@.len() ==> (#[trigger] out@[turn]).chan == crate::util::served(
                    turn,
                    out@.len() as int,
                ) && crate::mpsc::sent_as(
                    old(self).channels()[crate::util::served(turn, out@.len() as int)],
                    final(self).channels()[crate::util::served(turn, out@.len() as int)],
                    payload@,
                    globals@[crate::util::served(turn, out@.len() as int)],
                    out@[turn].outcome,
                ),
    {
        send(&mut self.chans, globals, payload)
    }
}

} // verus!
