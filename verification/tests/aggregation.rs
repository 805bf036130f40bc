use cernan::buckets::{bin_start, clamped_add, Buckets};
use cernan::metric::{Event, LogLine, Metric, MetricKind, SCALE};
use cernan::quantile::{QuantileSummary, QUANTILE_ONE};
use cernan::tagmap::TagMap;

fn statsd(input: &str, now: i64) -> Vec<Metric> {
    let mut out = Vec::new();
    assert!(Metric::parse_statsd(input.as_bytes(), input.len(), now, &mut out));
    out
}

fn add_all(buckets: &mut Buckets, input: &str, now: i64) {
    for m in statsd(input, now) {
        buckets.add(m);
    }
}

#[test]
fn quantile_flush() {
    let mut timer = Metric::new("t", 1 * SCALE, 0).timer();
    for i in 2..=100i64 {
        timer = timer.insert_value(i * SCALE);
    }
    assert_eq!(timer.count(), 100);
    let median = timer.query(500_000).unwrap() as f64 / SCALE as f64;
    assert_eq!(median, 50.0);
    assert!((median - 50.5f64).abs() <= 0.5 + 0.001 * 100.0);
    assert_eq!(timer.query(0), Some(SCALE));
    assert_eq!(timer.query(QUANTILE_ONE), Some(100 * SCALE));
    assert_eq!(timer.query(900_000), Some(90 * SCALE));
    assert_eq!(timer.query(990_000), Some(99 * SCALE));
    assert_eq!(timer.query(999_000), Some(100 * SCALE));
    assert_eq!(timer.query(QUANTILE_ONE + 1), None);
    assert_eq!(timer.sum(), 5050 * SCALE as i128);
    let mut buckets = Buckets::new(10);
    buckets.add(timer);
    assert_eq!(buckets.len(), 1);
    assert_eq!(buckets.slot(0).samples.count(), 100);
    buckets.reset();
    assert_eq!(buckets.len(), 0);
    assert_eq!(buckets.find(MetricKind::Timer, "t", TagMap::new().fingerprint(), 0), None);
}

#[test]
fn summary_keeps_rising_order() {
    let mut s = QuantileSummary::new();
    assert_eq!(s.count(), 0);
    assert_eq!(s.query(0), None);
    assert_eq!(s.last(), None);
    for x in [5i64, -3, 9, 5, 0, i64::MAX, i64::MIN] {
        s.insert(x);
    }
    assert_eq!(s.to_vec(), vec![i64::MIN, -3, 0, 5, 5, 9, i64::MAX]);
    assert_eq!(s.last(), Some(i64::MIN));
    assert_eq!(s.sum(), 15);
    assert_eq!(s.count(), 7);
    assert_eq!(s.query(500_000), Some(5));
    assert_eq!(s.query(1), Some(i64::MIN));
    let mut t = QuantileSummary::new();
    t.insert(7);
    t.insert(1);
    s.union(&t);
    assert_eq!(s.to_vec(), vec![i64::MIN, -3, 0, 1, 5, 5, 7, 9, i64::MAX]);
    assert_eq!(s.last(), Some(1));
    assert_eq!(s.sum(), 23);
    s.union(&QuantileSummary::new());
    assert_eq!(s.last(), Some(1));
    assert_eq!(s.count(), 9);
    let c = s.clone();
    assert_eq!(c.to_vec(), s.to_vec());
    assert_eq!(c.last(), s.last());
}

#[test]
fn statsd_delta_gauge() {
    let mut buckets = Buckets::new(10);
    add_all(&mut buckets, "a:+3|g\n", 100);
    add_all(&mut buckets, "a:-1|g\n", 101);
    assert_eq!(buckets.len(), 1);
    let slot = buckets.slot(0);
    assert_eq!(slot.kind, MetricKind::DeltaGauge);
    assert_eq!(slot.name, "a");
    assert_eq!(slot.total, 2 * SCALE as i128);
    assert_eq!(slot.bin, 100);
}

#[test]
fn slots_are_keyed_by_kind_name_tags_and_bin() {
    let mut buckets = Buckets::new(10);
    add_all(&mut buckets, "a:1|c\na:2|c\nb:5|c\na:7|g\na:9|g\na:1|ms\na:3|ms\n", 25);
    add_all(&mut buckets, "a:4|c\n", 31);
    buckets.add(Metric::new("a", SCALE, 25).counter().overlay_tag("host", "h1"));
    buckets.add(Metric::new("a", SCALE, 26).counter().overlay_tag("host", "h1"));
    buckets.add(Metric::new("r", 5, 25));
    buckets.add(Metric::new("r", 6, 25));
    assert_eq!(buckets.len(), 7);
    let plain = TagMap::new().fingerprint();
    let i = buckets.find(MetricKind::Counter, "a", plain, 20).unwrap();
    assert_eq!(buckets.slot(i).total, 3 * SCALE as i128);
    let i = buckets.find(MetricKind::Counter, "b", plain, 20).unwrap();
    assert_eq!(buckets.slot(i).total, 5 * SCALE as i128);
    let i = buckets.find(MetricKind::Gauge, "a", plain, 20).unwrap();
    assert_eq!(buckets.slot(i).total, 9 * SCALE as i128);
    let i = buckets.find(MetricKind::Timer, "a", plain, 20).unwrap();
    assert_eq!(buckets.slot(i).samples.to_vec(), vec![SCALE, 3 * SCALE]);
    let i = buckets.find(MetricKind::Counter, "a", plain, 30).unwrap();
    assert_eq!(buckets.slot(i).total, 4 * SCALE as i128);
    let mut tags = TagMap::new();
    tags.insert("host".into(), "h1".into());
    let i = buckets.find(MetricKind::Counter, "a", tags.fingerprint(), 20).unwrap();
    assert_eq!(buckets.slot(i).total, 2 * SCALE as i128);
    assert_eq!(buckets.slot(i).tags.get("host"), Some(&"h1".to_string()));
    let i = buckets.find(MetricKind::Raw, "r", plain, 20).unwrap();
    assert_eq!(buckets.slot(i).total, 6);
    assert_eq!(buckets.find(MetricKind::Histogram, "a", plain, 20), None);
    assert_eq!(buckets.counters(), vec![0, 1, 4, 5]);
    assert_eq!(buckets.gauges(), vec![2]);
    assert_eq!(buckets.timers(), vec![3]);
    assert_eq!(buckets.raws(), vec![6]);
    assert_eq!(buckets.histograms(), Vec::<usize>::new());
    assert_eq!(buckets.delta_gauges(), Vec::<usize>::new());
    assert_eq!(buckets.of_kind(MetricKind::Counter), buckets.counters());
}

#[test]
fn reset_clears_additive_stores_and_carries_last_values() {
    let mut buckets = Buckets::new(1);
    add_all(&mut buckets, "c:1|c\ng:7|g\nd:+3|g\nt:1|ms\nh:1|h\ng:+2|g\ng:-5|g\n", 9);
    buckets.add(Metric::new("r", 11, 9));
    assert_eq!(buckets.len(), 7);
    buckets.reset();
    assert_eq!(buckets.len(), 3);
    let plain = TagMap::new().fingerprint();
    for kind in [MetricKind::Counter, MetricKind::DeltaGauge, MetricKind::Timer, MetricKind::Histogram] {
        for name in ["c", "g", "d", "t", "h"] {
            assert_eq!(buckets.find(kind, name, plain, 9), None);
        }
    }
    let g = buckets.slot(buckets.find(MetricKind::Gauge, "g", plain, 9).unwrap());
    assert_eq!(g.total, 4 * SCALE as i128);
    let r = buckets.slot(buckets.find(MetricKind::Raw, "r", plain, 9).unwrap());
    assert_eq!(r.total, 11);
    let d = buckets.slot(buckets.find(MetricKind::Gauge, "d", plain, 9).unwrap());
    assert_eq!(d.total, 3 * SCALE as i128);
    buckets.reset();
    assert_eq!(buckets.len(), 3);
    assert_eq!(buckets.slot(0).name, "g");
    assert_eq!(buckets.slot(0).total, 4 * SCALE as i128);
}

#[test]
fn reset_without_carry_forward_clears_everything() {
    let mut buckets = Buckets::with_policy(1, false);
    add_all(&mut buckets, "c:1|c\ng:7|g\nd:+3|g\nt:1|ms\n", 9);
    buckets.add(Metric::new("r", 11, 9));
    assert_eq!(buckets.len(), 5);
    buckets.reset();
    assert_eq!(buckets.len(), 0);
    buckets.reset();
    assert_eq!(buckets.len(), 0);
}

#[test]
fn bins_start_at_multiples_of_the_width() {
    assert_eq!(bin_start(0, 10), 0);
    assert_eq!(bin_start(9, 10), 0);
    assert_eq!(bin_start(10, 10), 10);
    assert_eq!(bin_start(1478751126, 60), 1478751120);
    assert_eq!(bin_start(-7, 5), -5);
    assert_eq!(bin_start(-10, 5), -10);
    assert_eq!(bin_start(123, 1), 123);
    assert_eq!(bin_start(i64::MAX, i64::MAX), i64::MAX);
    assert_eq!(bin_start(i64::MIN, 1), i64::MIN);
    assert_eq!(bin_start(i64::MIN, i64::MAX), -i64::MAX);
    assert_eq!(bin_start(5, 7), 5 - (5 % 7));
}

#[test]
fn sums_stop_at_the_ends() {
    assert_eq!(clamped_add(1, 2), 3);
    assert_eq!(clamped_add(i128::MAX, 1), i128::MAX);
    assert_eq!(clamped_add(i128::MIN, -1), i128::MIN);
    assert_eq!(clamped_add(i128::MAX, i128::MIN), -1);
}

#[test]
fn metric_builders() {
    let m = Metric::new("identity", 12 * SCALE, 7).overlay_tag("foo", "bar").overlay_tag("bizz", "bazz");
    assert_eq!(m.kind, MetricKind::Raw);
    assert_eq!(m.time, 7);
    assert_eq!(m.value(), Some(12 * SCALE as i128));
    assert_eq!(m.tags.len(), 2);
    let m = m.overlay_tag("", "ignored").counter().insert_value(3 * SCALE).time(9);
    assert_eq!(m.tags.len(), 2);
    assert_eq!(m.kind, MetricKind::Counter);
    assert_eq!(m.value(), Some(15 * SCALE as i128));
    assert_eq!(m.time, 9);
    assert_eq!(m.summary().count(), 2);
    assert_eq!(m.clone().gauge().value(), Some(3 * SCALE as i128));
    assert_eq!(m.clone().delta_gauge().value(), Some(15 * SCALE as i128));
    assert_eq!(m.clone().histogram().value(), Some(3 * SCALE as i128));
    assert_eq!(m.clone().timer().kind, MetricKind::Timer);
    let mut donor = TagMap::new();
    donor.insert("foo".into(), "22".into());
    donor.insert("oof".into(), "rab".into());
    let over = m.clone().overlay_tags_from_map(&donor);
    assert_eq!(over.tags.get("foo"), Some(&"22".to_string()));
    assert_eq!(over.tags.len(), 3);
    let merged = m.clone().merge_tags_from_map(&donor);
    assert_eq!(merged.tags.get("foo"), Some(&"bar".to_string()));
    assert_eq!(merged.tags.get("oof"), Some(&"rab".to_string()));
    let a = Metric::new("x", 1, 0).overlay_tag("a", "1").overlay_tag("b", "2");
    let b = Metric::new("x", 1, 0).overlay_tag("b", "2").overlay_tag("a", "1");
    assert_eq!(a.tag_fingerprint(), b.tag_fingerprint());
    assert_eq!(a, b);
    assert_eq!(a.clone(), a);
    assert_ne!(a.clone().counter(), a);
}

#[test]
fn log_lines_and_events() {
    let l = LogLine::new("identity", "i am the very model of the modern major general", 3)
        .overlay_tag("foo", "bar")
        .overlay_tag("bizz", "bazz")
        .time(4);
    assert_eq!(l.path, "identity");
    assert_eq!(l.value, "i am the very model of the modern major general");
    assert_eq!(l.time, 4);
    assert_eq!(l.tags.len(), 2);
    let mut donor = TagMap::new();
    donor.insert("foo".into(), "22".into());
    assert_eq!(l.clone().overlay_tags_from_map(&donor).tags.get("foo"), Some(&"22".to_string()));
    assert_eq!(l.clone().merge_tags_from_map(&donor).tags.get("foo"), Some(&"bar".to_string()));
    let e = Event::Log(l.clone());
    assert_eq!(e.clone(), e);
    assert_ne!(e, Event::TimerFlush);
    assert_ne!(e, Event::Log(l.clone().time(5)));
    match e.clone() {
        Event::Log(c) => {
            assert_eq!(c.path, l.path);
            assert_eq!(c.tags.to_pairs(), l.tags.to_pairs());
        }
        _ => panic!("a log line stays a log line"),
    }
    assert!(matches!(Event::TimerFlush.clone(), Event::TimerFlush));
    match Event::Telemetry(Metric::new("m", 5, 1)).clone() {
        Event::Telemetry(m) => assert_eq!(m.value(), Some(5)),
        _ => panic!("telemetry stays telemetry"),
    }
}

#[test]
fn delta_reaches_the_gauge_of_an_earlier_bucket() {
    let mut buckets = Buckets::new(1);
    add_all(&mut buckets, "a:10|g\n", 1);
    buckets.reset();
    add_all(&mut buckets, "a:+3|g\n", 2);
    assert_eq!(buckets.len(), 2);
    buckets.reset();
    assert_eq!(buckets.len(), 1);
    let slot = buckets.slot(0);
    assert_eq!(slot.kind, MetricKind::Gauge);
    assert_eq!(slot.name, "a");
    assert_eq!(slot.total, 13 * SCALE as i128);
    assert_eq!(slot.bin, 1);
    add_all(&mut buckets, "a:-1|g\n", 7);
    add_all(&mut buckets, "a:-1|g\n", 8);
    buckets.reset();
    assert_eq!(buckets.len(), 1);
    assert_eq!(buckets.slot(0).total, 11 * SCALE as i128);
}

#[test]
fn reset_keeps_the_newest_bin_of_a_series() {
    let mut buckets = Buckets::new(1);
    add_all(&mut buckets, "a:5|g\n", 3);
    add_all(&mut buckets, "a:1|g\n", 1);
    add_all(&mut buckets, "a:2|g\n", 2);
    buckets.add(Metric::new("r", 7, 1));
    buckets.add(Metric::new("r", 9, 4));
    buckets.add(Metric::new("a", 8, 9));
    buckets.add(Metric::new("a", 1, 1).gauge().overlay_tag("host", "h"));
    assert_eq!(buckets.len(), 7);
    buckets.reset();
    assert_eq!(buckets.len(), 4);
    let got: Vec<(MetricKind, &str, i64, i128)> = (0..buckets.len())
        .map(|i| buckets.slot(i))
        .map(|s| (s.kind, s.name.as_str(), s.bin, s.total))
        .collect();
    assert_eq!(
        got,
        vec![
            (MetricKind::Gauge, "a", 3, 5 * SCALE as i128),
            (MetricKind::Raw, "r", 4, 9),
            (MetricKind::Raw, "a", 9, 8),
            (MetricKind::Gauge, "a", 1, 1),
        ]
    );
    for bin in 10..200 {
        add_all(&mut buckets, "a:6|g\n", bin);
        buckets.reset();
        assert_eq!(buckets.len(), 4);
    }
    assert_eq!(buckets.slot(0).bin, 199);
    assert_eq!(buckets.slot(0).total, 6 * SCALE as i128);
}

#[test]
fn summary_from_its_parts() {
    let s = QuantileSummary::from_parts(vec![-3, 0, 5, 5, 9], Some(5)).unwrap();
    assert_eq!(s.to_vec(), vec![-3, 0, 5, 5, 9]);
    assert_eq!(s.last(), Some(5));
    assert_eq!(s.sum(), 16);
    assert_eq!(s.count(), 5);
    let mut built = QuantileSummary::new();
    for x in [9i64, -3, 0, 5, 5] {
        built.insert(x);
    }
    assert_eq!(built, s);
    assert_eq!(QuantileSummary::from_parts(Vec::new(), None), Some(QuantileSummary::new()));
    assert_eq!(QuantileSummary::from_parts(vec![2, 1], Some(1)), None);
    assert_eq!(QuantileSummary::from_parts(vec![1], None), None);
    assert_eq!(QuantileSummary::from_parts(Vec::new(), Some(1)), None);
    let wide = QuantileSummary::from_parts(vec![i64::MIN, i64::MIN, i64::MAX], Some(i64::MAX));
    assert_eq!(wide.unwrap().sum(), i64::MIN as i128 * 2 + i64::MAX as i128);
}
