use cernan::metric::{Event, LogLine, Metric, MetricKind, SCALE};
use cernan::mpsc::{SendError, Sender};
use cernan::sink::console::{Console, Stat};
use cernan::sink::native::{AggregationMethod, Native, NativeConfig, method_for, WATERMARK};
use cernan::sink::{route, Call, Sink, Valve};
use cernan::source::statsd::{Statsd, StatsdConfig};
use cernan::source::flush::FlushTimer;
use cernan::source::FLUSH_INTERVAL_SECONDS;
use cernan::tagmap::TagMap;
use cernan::time::delay_millis;
use cernan::util::send;

#[test]
fn fan_out() {
    let mut chans = vec![
        Sender { bytes_written: 0, max_bytes: 100, seq_num: 0 },
        Sender { bytes_written: 0, max_bytes: 100, seq_num: 0 },
    ];
    let globals = vec![0usize, 0];
    let mut received: Vec<Vec<Vec<u8>>> = vec![Vec::new(), Vec::new()];
    let events: Vec<&[u8]> = vec![b"one", b"two", b"flush", b"three"];
    for payload in &events {
        let deliveries = send(&mut chans, &globals, payload);
        assert_eq!(deliveries.len(), 2);
        assert_eq!(deliveries[0].chan, 1);
        assert_eq!(deliveries[1].chan, 0);
        for d in deliveries {
            let plan = d.outcome.unwrap();
            received[d.chan].push(plan.frame[4..].to_vec());
        }
    }
    for sink in &received {
        assert_eq!(sink.len(), events.len());
        for (got, sent) in sink.iter().zip(events.iter()) {
            assert_eq!(got.as_slice(), *sent);
        }
    }
    assert_eq!(chans[0].bytes_written, 16);
    assert_eq!(chans[1].bytes_written, 16);
}

#[test]
fn fan_out_serves_the_first_channel_last() {
    let mut chans = vec![
        Sender { bytes_written: 0, max_bytes: 1, seq_num: 0 },
        Sender { bytes_written: 0, max_bytes: 100, seq_num: 0 },
        Sender { bytes_written: 0, max_bytes: 100, seq_num: usize::MAX },
        Sender { bytes_written: 0, max_bytes: 100, seq_num: 2 },
    ];
    let globals = vec![0usize, 5, 0, 2];
    let out = send(&mut chans, &globals, b"xy");
    let order: Vec<usize> = out.iter().map(|d| d.chan).collect();
    assert_eq!(order, vec![1, 2, 3, 0]);
    assert_eq!(out[0].outcome.as_ref().unwrap().reopen, Some(5));
    assert_eq!(out[1].outcome.as_ref().unwrap().seal, None);
    assert_eq!(out[3].outcome.as_ref().unwrap().seal, Some(0));
    assert_eq!(chans[0].seq_num, 1);
    assert_eq!(chans[1].seq_num, 5);
    let mut one = vec![Sender { bytes_written: 1, max_bytes: 0, seq_num: usize::MAX }];
    let out = send(&mut one, &vec![0], b"z");
    assert_eq!(out.len(), 1);
    assert_eq!(out[0].chan, 0);
    assert_eq!(out[0].outcome, Err(SendError::Exhausted));
}

#[test]
fn events_are_routed_to_their_calls() {
    assert!(matches!(route(Event::TimerFlush), Call::Flush));
    match route(Event::Telemetry(Metric::new("m", 1, 2))) {
        Call::Deliver(m) => assert_eq!(m.name, "m"),
        _ => panic!("telemetry is delivered"),
    }
    match route(Event::Log(LogLine::new("p", "v", 2))) {
        Call::DeliverLine(l) => assert_eq!(l.value, "v"),
        _ => panic!("a log line is delivered as a line"),
    }
}

#[test]
fn console_reports_by_kind() {
    let mut console = Console::default();
    assert_eq!(console.valve_state(), Valve::Open);
    assert!(console.flush().is_none());
    assert!(console.run(Event::TimerFlush).is_none());
    let mut ms = Vec::new();
    let input = b"t:1|ms\nc:1|c\ng:5|g\nt:3|ms\nc:2|c\nh:7|h\nd:+1|g\n";
    assert!(Metric::parse_statsd(input, input.len(), 50, &mut ms));
    for m in ms {
        assert!(console.run(Event::Telemetry(m)).is_none());
    }
    assert!(console.run(Event::Log(LogLine::new("p", "v", 50))).is_none());
    console.deliver(Metric::new("r", 9, 50));
    let rows = console.report();
    let got: Vec<(MetricKind, &str, Stat, i128)> =
        rows.iter().map(|r| (r.kind, r.name.as_str(), r.stat, r.value)).collect();
    let s = SCALE as i128;
    assert_eq!(
        got,
        vec![
            (MetricKind::Counter, "c", Stat::Value, 3 * s),
            (MetricKind::Gauge, "g", Stat::Value, 5 * s),
            (MetricKind::Raw, "r", Stat::Value, 9),
            (MetricKind::Histogram, "h", Stat::Min, 7 * s),
            (MetricKind::Histogram, "h", Stat::Max, 7 * s),
            (MetricKind::Histogram, "h", Stat::Q50, 7 * s),
            (MetricKind::Histogram, "h", Stat::Q90, 7 * s),
            (MetricKind::Histogram, "h", Stat::Q99, 7 * s),
            (MetricKind::Histogram, "h", Stat::Q999, 7 * s),
            (MetricKind::Histogram, "h", Stat::Count, 1),
            (MetricKind::Histogram, "h", Stat::Sum, 7 * s),
            (MetricKind::Timer, "t", Stat::Min, 1 * s),
            (MetricKind::Timer, "t", Stat::Max, 3 * s),
            (MetricKind::Timer, "t", Stat::Q50, 1 * s),
            (MetricKind::Timer, "t", Stat::Q90, 3 * s),
            (MetricKind::Timer, "t", Stat::Q99, 3 * s),
            (MetricKind::Timer, "t", Stat::Q999, 3 * s),
            (MetricKind::Timer, "t", Stat::Count, 2),
            (MetricKind::Timer, "t", Stat::Sum, 4 * s),
        ]
    );
    let report = console.run(Event::TimerFlush).unwrap();
    assert_eq!(report.rows.len(), 19);
    assert!(report.stamp.seconds > 1_600_000_000);
    assert!(report.stamp.nanos < 2_000_000_000);
    let after = console.flush().unwrap();
    let got: Vec<(MetricKind, &str, i128)> =
        after.rows.iter().map(|r| (r.kind, r.name.as_str(), r.value)).collect();
    assert_eq!(
        got,
        vec![
            (MetricKind::Gauge, "g", 5 * s),
            (MetricKind::Gauge, "d", 1 * s),
            (MetricKind::Raw, "r", 9),
        ]
    );
    let again = console.flush().unwrap();
    assert_eq!(again.rows.len(), 3);
    let mut cleared = Console::new(1);
    cleared.deliver(Metric::new("c", 1, 1).counter());
    assert_eq!(cleared.flush().unwrap().rows.len(), 1);
    assert!(cleared.flush().is_none());
    assert_eq!(Console::new(60).report().len(), 0);
}

#[test]
fn native_buffers_until_delivered() {
    let config =
        NativeConfig { port: 4000, host: "collector".into(), config_path: "sinks.native".into() };
    let mut native = Native::new(config);
    assert_eq!(native.port(), 4000);
    assert_eq!(native.host(), "collector");
    assert!(native.flush().is_none());
    assert!(native.run(Event::TimerFlush).is_none());
    assert!(native.receive(Some(Event::TimerFlush)).is_none());
    assert!(native.payload().points.is_empty() && native.payload().lines.is_empty());
    let m = Metric::new("m", 5, 77).counter().overlay_tag("z", "1").overlay_tag("a", "2");
    assert!(native.run(Event::Telemetry(m)).is_none());
    assert!(native.run(Event::Log(LogLine::new("p", "v", 78).overlay_tag("k", "w"))).is_none());
    native.deliver(Metric::new("t", 3, 79).timer().insert_value(1));
    assert_eq!(native.pending(), 3);
    let payload = native.run(Event::TimerFlush).unwrap();
    assert_eq!(payload.points.len(), 2);
    assert_eq!(payload.lines.len(), 1);
    assert_eq!(payload.points[0].name, "m");
    assert_eq!(payload.points[0].timestamp_ms, 77);
    assert_eq!(payload.points[0].method, AggregationMethod::WindowCount);
    assert_eq!(
        payload.points[0].metadata,
        vec![("a".to_string(), "2".to_string()), ("z".to_string(), "1".to_string())]
    );
    assert_eq!(payload.points[0].samples, vec![5]);
    assert_eq!(payload.points[1].method, AggregationMethod::Summarize);
    assert_eq!(payload.points[1].samples, vec![1, 3]);
    assert_eq!(payload.lines[0].path, "p");
    assert_eq!(payload.lines[0].value, "v");
    assert_eq!(payload.lines[0].timestamp_ms, 78);
    assert_eq!(payload.lines[0].metadata, vec![("k".to_string(), "w".to_string())]);
    assert_eq!(native.pending(), 3);
    assert_eq!(native.flush().unwrap().points.len(), 2);
    native.delivered();
    assert_eq!(native.pending(), 0);
    assert!(native.flush().is_none());
    let d = Native::default();
    assert_eq!(d.port(), 1972);
    assert_eq!(d.host(), "127.0.0.1");
}

#[test]
fn native_methods_by_kind() {
    assert_eq!(method_for(MetricKind::Counter), AggregationMethod::WindowCount);
    assert_eq!(method_for(MetricKind::Gauge), AggregationMethod::SetOrReset);
    assert_eq!(method_for(MetricKind::Raw), AggregationMethod::SetOrReset);
    assert_eq!(method_for(MetricKind::DeltaGauge), AggregationMethod::MonotonicAdd);
    assert_eq!(method_for(MetricKind::Timer), AggregationMethod::Summarize);
    assert_eq!(method_for(MetricKind::Histogram), AggregationMethod::Summarize);
}

#[test]
fn native_loop_backs_off_and_closes_the_valve() {
    let mut native = Native::default();
    assert_eq!(native.wait(), 0);
    assert!(native.admits());
    assert!(native.receive(None).is_none());
    assert_eq!(native.wait(), 1);
    assert!(native.receive(None).is_none());
    assert_eq!(native.wait(), 4);
    assert!(native.receive(Some(Event::Telemetry(Metric::new("m", 1, 1)))).is_none());
    assert_eq!(native.wait(), 0);
    assert_eq!(native.pending(), 1);
    for _ in 0..12 {
        assert!(native.receive(None).is_none());
    }
    assert_eq!(native.wait(), 512);
    let payload = native.receive(Some(Event::TimerFlush)).unwrap();
    assert_eq!(payload.points.len(), 1);
    assert_eq!(native.wait(), 0);
    for i in 1..=WATERMARK {
        assert_eq!(native.valve_state(), Valve::Open);
        assert!(native.admits());
        native.deliver_line(LogLine::new("p", "v", i as i64));
    }
    assert_eq!(native.pending(), WATERMARK + 1);
    assert_eq!(native.valve_state(), Valve::Closed);
    assert!(!native.admits());
    assert_eq!(native.wait(), 1);
    native.delivered();
    assert_eq!(native.valve_state(), Valve::Open);
    assert!(native.admits());
}

#[test]
fn backoff_schedule() {
    let got: Vec<u64> = (0..12).map(delay_millis).collect();
    assert_eq!(got, vec![0, 1, 4, 8, 16, 32, 64, 128, 256, 512, 512, 512]);
    assert_eq!(delay_millis(u32::MAX), 512);
    assert_eq!(FLUSH_INTERVAL_SECONDS, 10);
}

#[test]
fn statsd_source_tags_what_it_reads() {
    let config = StatsdConfig::default();
    assert_eq!(config.port, 8125);
    assert_eq!(config.ip, "");
    assert_eq!(config.config_path, "sources.statsd");
    assert!(config.forwards.is_empty());
    let mut tags = TagMap::new();
    tags.insert("source".into(), "statsd".into());
    tags.insert("host".into(), "h1".into());
    let config = StatsdConfig { tags, port: 9000, ..StatsdConfig::default() };
    let chans = vec![Sender { bytes_written: 0, max_bytes: 10, seq_num: 0 }];
    let mut source = Statsd::new(chans, config);
    assert_eq!(source.port(), 9000);
    let buf = b"a.b:12.1|c\nx:+3|g\nrest";
    let events = source.handle_udp(buf, 18, 42).unwrap();
    assert_eq!(events.len(), 2);
    let metrics: Vec<&Metric> = events
        .iter()
        .map(|e| match e {
            Event::Telemetry(m) => m,
            _ => panic!("a datagram gives telemetry only"),
        })
        .collect();
    assert_eq!(metrics[0].name, "a.b");
    assert_eq!(metrics[0].sum(), 12_100_000);
    assert_eq!(metrics[0].kind, MetricKind::Counter);
    assert_eq!(metrics[1].name, "x");
    assert_eq!(metrics[1].kind, MetricKind::DeltaGauge);
    assert_eq!(metrics[1].sum(), 3 * SCALE as i128);
    for m in metrics {
        assert_eq!(m.time, 42);
        assert_eq!(m.tags.get("source"), Some(&"statsd".to_string()));
        assert_eq!(m.tags.get("host"), Some(&"h1".to_string()));
        assert_eq!(m.tags.len(), 2);
    }
    assert_eq!(source.rejected(), 0);
    assert!(source.handle_udp(buf, buf.len(), 42).is_none());
    assert_eq!(source.rejected(), 1);
    let now = source.receive(buf, 18).unwrap();
    assert_eq!(now.len(), 2);
    match &now[0] {
        Event::Telemetry(m) => assert!(m.time > 1_600_000_000),
        _ => panic!("a datagram gives telemetry only"),
    }
    assert!(source.receive(buf, buf.len()).is_none());
    assert_eq!(source.rejected(), 2);
    assert!(source.handle_udp(buf, 0, 42).unwrap().is_empty());
    let out = source.publish(&vec![0], b"0123456789ab");
    assert_eq!(out.len(), 1);
    assert_eq!(out[0].outcome.as_ref().unwrap().seal, Some(0));
}

#[test]
fn flush_tick_reaches_every_sink() {
    let chans = || {
        vec![
            Sender { bytes_written: 0, max_bytes: 100, seq_num: 0 },
            Sender { bytes_written: 0, max_bytes: 100, seq_num: 4 },
            Sender { bytes_written: 0, max_bytes: 100, seq_num: 9 },
        ]
    };
    let mut timer = FlushTimer::new(chans());
    assert_eq!(timer.interval(), 10);
    assert_eq!(FlushTimer::every(chans(), 3).interval(), 3);
    let mut ticks = vec![0usize; 3];
    for _ in 0..5 {
        for d in timer.tick(&vec![0, 4, 9], b"flush") {
            let plan = d.outcome.unwrap();
            assert_eq!(&plan.frame[4..], b"flush");
            ticks[d.chan] += 1;
        }
    }
    assert_eq!(ticks, vec![5, 5, 5]);
}
