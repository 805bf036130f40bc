use cernan::decimal::{parse_digits, push_digits};
use cernan::metric::{Metric, MetricKind, SCALE};
use cernan::number::{parse_number, push_number};

fn statsd(input: &str) -> Option<Vec<Metric>> {
    let mut out = Vec::new();
    if Metric::parse_statsd(input.as_bytes(), input.len(), 1_000, &mut out) {
        Some(out)
    } else {
        assert!(out.is_empty());
        None
    }
}

fn graphite(input: &str) -> Option<Vec<Metric>> {
    let mut out = Vec::new();
    if Metric::parse_graphite(input.as_bytes(), input.len(), &mut out) {
        Some(out)
    } else {
        assert!(out.is_empty());
        None
    }
}

fn as_f64(v: i128) -> f64 {
    v as f64 / SCALE as f64
}

#[test]
fn statsd_counter() {
    let ms = statsd("a.b:12.1|c\n").unwrap();
    assert_eq!(ms.len(), 1);
    assert_eq!(ms[0].kind, MetricKind::Counter);
    assert_eq!(ms[0].name, "a.b");
    assert_eq!(ms[0].count(), 1);
    assert_eq!(ms[0].sum(), 12_100_000);
    assert_eq!(as_f64(ms[0].sum()), 12.1);
    assert_eq!(ms[0].time, 1_000);
    assert!(ms[0].tags.is_empty());
    let ms = statsd("a.b:12.1|c@0.5\n").unwrap();
    assert_eq!(ms.len(), 1);
    assert_eq!(ms[0].kind, MetricKind::Counter);
    assert_eq!(ms[0].sum(), 24_200_000);
    assert_eq!(as_f64(ms[0].sum()), 24.2);
    assert_eq!(ms[0].count(), 1);
}

#[test]
fn statsd_kinds() {
    let ms = statsd("a:1|c\nb:2|g\nc:+3|g\nd:-4|g\ne:5|ms\nf:6|h\ng:77|s").unwrap();
    let kinds: Vec<MetricKind> = ms.iter().map(|m| m.kind).collect();
    assert_eq!(
        kinds,
        vec![
            MetricKind::Counter,
            MetricKind::Gauge,
            MetricKind::DeltaGauge,
            MetricKind::DeltaGauge,
            MetricKind::Timer,
            MetricKind::Histogram,
            MetricKind::Counter,
        ]
    );
    let sums: Vec<i128> = ms.iter().map(|m| m.sum()).collect();
    assert_eq!(
        sums,
        vec![1_000_000, 2_000_000, 3_000_000, -4_000_000, 5_000_000, 6_000_000, 1_000_000]
    );
    let names: Vec<&str> = ms.iter().map(|m| m.name.as_str()).collect();
    assert_eq!(names, vec!["a", "b", "c", "d", "e", "f", "g"]);
}

#[test]
fn statsd_sample_rate_scales_counters_timers_histograms() {
    let ms = statsd("a:3|c@0.1\nb:3|ms@0.25\nc:3|h@1\nd:3|g@0.5\ne:+3|g@0.5\nf:9|s@0.5\n").unwrap();
    let sums: Vec<i128> = ms.iter().map(|m| m.sum()).collect();
    assert_eq!(sums, vec![30_000_000, 12_000_000, 3_000_000, 3_000_000, 3_000_000, 2_000_000]);
    let ms = statsd("a:1|c@0.3\nb:-1|c@0.3").unwrap();
    assert_eq!(ms[0].sum(), 3_333_333);
    assert_eq!(ms[1].sum(), -3_333_333);
}

#[test]
fn statsd_rejects_the_whole_datagram() {
    assert!(statsd("a:1|c\nbroken\nb:2|c\n").is_none());
    for bad in [
        "a", "a:", ":1|c", "a:1", "a:1|", "a:1|x", "a:|c", "a:1.|c", "a:.5|c", "a:1e3|c", "a:1|c@",
        "a:1|c@0", "a:1|c@1.5", "a:1|c@-1", "a:1|c@x", "a:++1|g", "a:1|cc", "\n", "a:1|c\n\n",
        "a:99999999999999999999|c", "a:9223372036855|c", "a:9000000000000|c@0.5", "a b:1|c|x",
    ] {
        assert!(statsd(bad).is_none(), "{} should be malformed", bad);
    }
    let mut out = vec![Metric::new("kept", 1, 0)];
    let bytes = [b'a', 0xff, b':', b'1', b'|', b'c'];
    assert!(!Metric::parse_statsd(&bytes, bytes.len(), 0, &mut out));
    assert_eq!(out.len(), 1);
    assert_eq!(out[0].name, "kept");
}

#[test]
fn statsd_reads_only_the_first_len_bytes() {
    let buf = b"a:1|c\nb:2|c\ngarbage";
    let mut out = vec![Metric::new("kept", 1, 0)];
    assert!(Metric::parse_statsd(buf, 12, 5, &mut out));
    assert_eq!(out.len(), 3);
    assert_eq!(out[0].name, "kept");
    assert_eq!(out[1].name, "a");
    assert_eq!(out[2].name, "b");
    assert_eq!(out[2].time, 5);
    assert!(Metric::parse_statsd(buf, 0, 5, &mut out));
    assert_eq!(out.len(), 3);
    assert!(!Metric::parse_statsd(buf, buf.len(), 5, &mut out));
    assert_eq!(out.len(), 3);
}

#[test]
fn statsd_names_are_utf8() {
    let ms = statsd("größe.é:1|c").unwrap();
    assert_eq!(ms[0].name, "größe.é");
}

#[test]
fn statsd_numbers_keep_six_places() {
    let ms = statsd("a:0.1234567|c\nb:7.000001|c\nc:007.5|c\nd:0|c\ne:-0.5|c\nf:9223372036854|c").unwrap();
    let sums: Vec<i128> = ms.iter().map(|m| m.sum()).collect();
    assert_eq!(
        sums,
        vec![123_456, 7_000_001, 7_500_000, 0, -500_000, 9_223_372_036_854_000_000]
    );
}

#[test]
fn parse_serialize_parse_is_parse() {
    for line in [
        "a.b:12.1|c", "a.b:12.1|c@0.5", "x:+3|g", "x:-1|g", "x:-0|g", "x:7|g", "t:0.25|ms@0.1",
        "h:1000000|h", "s:123|s", "neg:-12.000001|c", "größe:1|c", "a b:+0.5|g@0.5",
    ] {
        let first = statsd(line).unwrap();
        assert_eq!(first.len(), 1);
        let mut text = Vec::new();
        assert!(first[0].to_statsd(&mut text), "{} cannot be written", line);
        assert_eq!(text.last(), Some(&b'\n'));
        let mut second = Vec::new();
        assert!(Metric::parse_statsd(&text, text.len(), 1_000, &mut second));
        assert_eq!(second.len(), 1);
        assert_eq!(second[0].kind, first[0].kind);
        assert_eq!(second[0].name, first[0].name);
        assert_eq!(second[0].time, first[0].time);
        assert_eq!(second[0].sum(), first[0].sum());
        assert_eq!(second[0].count(), 1);
        assert_eq!(second[0].tags.to_pairs(), first[0].tags.to_pairs());
        assert_eq!(second[0], first[0]);
        assert_eq!(second, first);
        let mut again = Vec::new();
        assert!(second[0].to_statsd(&mut again));
        assert_eq!(again, text);
    }
}

#[test]
fn canonical_lines() {
    let mut out = Vec::new();
    assert!(statsd("a.b:12.1|c@0.5").unwrap()[0].to_statsd(&mut out));
    assert!(statsd("d:+3|g").unwrap()[0].to_statsd(&mut out));
    assert!(statsd("t:-0.5|ms").unwrap()[0].to_statsd(&mut out));
    assert!(statsd("s:9|s").unwrap()[0].to_statsd(&mut out));
    assert_eq!(
        String::from_utf8(out).unwrap(),
        "a.b:24.200000|c\nd:+3|g\nt:-0.500000|ms\ns:1|c\n"
    );
}

#[test]
fn what_no_line_can_say() {
    let mut out = b"kept".to_vec();
    assert!(!Metric::new("raw", 1, 0).to_statsd(&mut out));
    assert!(!Metric::new("", 1, 0).counter().to_statsd(&mut out));
    assert!(!Metric::new("a:b", 1, 0).counter().to_statsd(&mut out));
    assert!(!Metric::new("g", -1, 0).gauge().to_statsd(&mut out));
    assert!(!Metric::new("two", 1, 0).counter().insert_value(2).to_statsd(&mut out));
    assert!(!Metric::new("min", i64::MIN, 0).counter().to_statsd(&mut out));
    assert_eq!(out, b"kept".to_vec());
    assert!(!Metric::new("raw", 1, 0).is_sayable());
    assert!(Metric::new("ok", 1, 0).timer().is_sayable());
    assert!(Metric::new("max", i64::MAX, 0).counter().to_statsd(&mut out));
    assert_eq!(out, b"keptmax:9223372036854.775807|c\n".to_vec());
}

#[test]
fn graphite_line() {
    let ms = graphite("fst 1 101\n").unwrap();
    assert_eq!(ms.len(), 1);
    assert_eq!(ms[0].kind, MetricKind::Raw);
    assert_eq!(ms[0].name, "fst");
    assert_eq!(ms[0].time, 101);
    assert_eq!(ms[0].value(), Some(1_000_000));
    assert_eq!(as_f64(ms[0].value().unwrap()), 1.0);
    assert_eq!(ms[0].count(), 1);
}

#[test]
fn graphite_lines() {
    let ms = graphite("collectd.interface-lo.if_errors.tx 0 1478751126\nsnd -2.5 202\nthd +3 0")
        .unwrap();
    assert_eq!(ms.len(), 3);
    assert_eq!(ms[0].name, "collectd.interface-lo.if_errors.tx");
    assert_eq!(ms[0].time, 1478751126);
    assert_eq!(ms[0].sum(), 0);
    assert_eq!(ms[1].sum(), -2_500_000);
    assert_eq!(ms[1].time, 202);
    assert_eq!(ms[2].sum(), 3_000_000);
    assert!(graphite("").unwrap().is_empty());
    for bad in [
        "fst", "fst 1", "fst 1 ", " 1 101", "fst  101", "fst 1 10x", "fst 1 -101", "fst x 101",
        "fst 1 101 7", "fst 1 9223372036854775808", "a 1 1\n\n",
    ] {
        assert!(graphite(bad).is_none(), "{} should be malformed", bad);
    }
    assert_eq!(graphite("a 1 9223372036854775807").unwrap()[0].time, i64::MAX);
}

#[test]
fn digits_are_read_and_written() {
    assert_eq!(parse_digits(b"x123y", 1, 4), Some(123));
    assert_eq!(parse_digits(b"123", 0, 0), None);
    assert_eq!(parse_digits(b"12a", 0, 3), None);
    assert_eq!(parse_digits(b"18446744073709551615", 0, 20), Some(u64::MAX));
    assert_eq!(parse_digits(b"18446744073709551616", 0, 20), None);
    let mut out = Vec::new();
    push_digits(&mut out, 0);
    push_digits(&mut out, 907);
    push_digits(&mut out, u64::MAX);
    assert_eq!(out, b"090718446744073709551615".to_vec());
}

#[test]
fn numbers_are_read_and_written() {
    assert_eq!(parse_number(b"12.1", 0, 4), Some(12_100_000));
    assert_eq!(parse_number(b"12.1", 0, 2), Some(12_000_000));
    assert_eq!(parse_number(b"0.000001", 0, 8), Some(1));
    assert_eq!(parse_number(b"0.0000019", 0, 9), Some(1));
    assert_eq!(parse_number(b"9223372036854.775807", 0, 20), Some(i64::MAX as u64));
    assert_eq!(parse_number(b"9223372036854.775808", 0, 20), None);
    assert_eq!(parse_number(b"1.", 0, 2), None);
    assert_eq!(parse_number(b".1", 0, 2), None);
    assert_eq!(parse_number(b"1.2.3", 0, 5), None);
    assert_eq!(parse_number(b"", 0, 0), None);
    let mut out = Vec::new();
    push_number(&mut out, 12_100_000);
    out.push(b' ');
    push_number(&mut out, 5_000_000);
    out.push(b' ');
    push_number(&mut out, 42);
    out.push(b' ');
    push_number(&mut out, 0);
    assert_eq!(out, b"12.100000 5 0.000042 0".to_vec());
}
