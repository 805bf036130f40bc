//! The StatsD line protocol: what a line and a datagram mean, reading a
//! datagram into metrics and writing a metric back as a line.
//!
//! A line is `name ':' value '|' type`, optionally followed by `'@' rate`.
//! The value is a number, which may have a sign in front; the rate is a
//! number above zero and not above one. Lines end with a newline, which the
//! last line of a datagram may lack.

use crate::bytes::{
    find_byte, first_index, holds, lemma_first_index, lemma_scan, str_from_utf8,
};
use crate::decimal::is_digit;
use crate::metric::{Metric, MetricKind, MetricView};
use crate::number::{
    lemma_number_round_trip, number_text, number_value, parse_number, push_number, POINT,
};
use vstd::prelude::*;
use vstd::utf8::{
    decode_utf8, decode_utf8_encode_utf8, encode_utf8, encode_utf8_valid_utf8, valid_utf8,
};

verus! {

/// The byte `:`, which ends the name.
pub const COLON: u8 = 0x3a;

/// The byte `|`, which ends the value.
pub const PIPE: u8 = 0x7c;

/// The byte `@`, which comes before the rate.
pub const AT: u8 = 0x40;

/// The byte that ends a line.
pub const NEWLINE: u8 = 0x0a;

/// The byte `+`.
pub const PLUS: u8 = 0x2b;

/// The byte `-`.
pub const MINUS: u8 = 0x2d;

/// What one line says: the kind of metric, its name as bytes and its one
/// sample in millionths.
pub struct Reading {
    pub kind: MetricKind,
    pub name: Seq<u8>,
    pub value: int,
}

/// Whether the value text starts with a sign.
pub open spec fn has_sign(v: Seq<u8>) -> bool {
    v.len() > 0 && (v[0] == PLUS || v[0] == MINUS)
}

/// The millionths that a value text is worth: a number of no more than
/// `i64::MAX` millionths, below zero where a minus stands in front.
pub open spec fn signed_value(v: Seq<u8>) -> Option<int> {
    let body = if has_sign(v) {
        v.skip(1)
    } else {
        v
    };
    match number_value(body) {
        Some(n) => if n <= i64::MAX {
            if has_sign(v) && v[0] == MINUS {
                Some(-(n as int))
            } else {
                Some(n as int)
            }
        } else {
            None
        },
        None => None,
    }
}

/// The kind that a type text names: `c` a counter, `g` a gauge, or a delta
/// gauge where the value has a sign, `ms` a timer, `h` a histogram and `s`,
/// a set, a counter.
pub open spec fn kind_of(t: Seq<u8>, signed: bool) -> Option<MetricKind> {
    if t == seq![0x63u8] {
        Some(MetricKind::Counter)
    } else if t == seq![0x67u8] {
        if signed {
            Some(MetricKind::DeltaGauge)
        } else {
            Some(MetricKind::Gauge)
        }
    } else if t == seq![0x6du8, 0x73u8] {
        Some(MetricKind::Timer)
    } else if t == seq![0x68u8] {
        Some(MetricKind::Histogram)
    } else if t == seq![0x73u8] {
        Some(MetricKind::Counter)
    } else {
        None
    }
}

/// Whether a sample of this kind is scaled by the sample rate.
pub open spec fn scales(kind: MetricKind) -> bool {
    kind == MetricKind::Counter || kind == MetricKind::Timer || kind == MetricKind::Histogram
}

/// The sample `v` divided by a rate of `rate` millionths, cut off towards
/// zero behind the sixth place.
pub open spec fn scaled(v: int, rate: nat) -> int
    recommends
        rate > 0,
{
    if v >= 0 {
        v * 1_000_000 / (rate as int)
    } else {
        -((-v) * 1_000_000 / (rate as int))
    }
}

/// The rate, in millionths, that stands behind the type: one where there
/// is none, else a number above zero and not above one.
pub open spec fn rate_of(tail: Seq<u8>) -> Option<nat> {
    let a = first_index(tail, AT);
    if a == tail.len() {
        Some(1_000_000)
    } else {
        match number_value(tail.skip(a + 1)) {
            Some(r) => if 0 < r <= 1_000_000 {
                Some(r)
            } else {
                None
            },
            None => None,
        }
    }
}

/// What the line `line` says, or `None` where it is malformed.
///
/// The name is what stands before the first colon: it is not empty and is
/// valid UTF-8. The value stands between that colon and the next pipe, the
/// type between the pipe and the first `@` after it. A set counts one
/// whatever its value. The sample of a counter, timer or histogram is
/// divided by the rate. A sample beyond `i64::MAX` millionths either way
/// makes the line malformed.
pub open spec fn statsd_line(line: Seq<u8>) -> Option<Reading> {
    let c = first_index(line, COLON);
    if c == 0 || c >= line.len() {
        None
    } else {
        let name = line.take(c);
        let rest = line.skip(c + 1);
        let p = first_index(rest, PIPE);
        if p >= rest.len() {
            None
        } else {
            let vtext = rest.take(p);
            let tail = rest.skip(p + 1);
            let ttext = tail.take(first_index(tail, AT));
            match (signed_value(vtext), kind_of(ttext, has_sign(vtext)), rate_of(tail)) {
                (Some(v), Some(kind), Some(rate)) => {
                    let v1 = if ttext == seq![0x73u8] {
                        1_000_000
                    } else {
                        v
                    };
                    let v2 = if scales(kind) {
                        scaled(v1, rate)
                    } else {
                        v1
                    };
                    if valid_utf8(name) && -i64::MAX <= v2 <= i64::MAX {
                        Some(Reading { kind, name, value: v2 })
                    } else {
                        None
                    }
                },
                _ => None,
            }
        }
    }
}

/// What the lines of a datagram say, in order, or `None` where any of
/// them is malformed. Every newline ends a line; what stands behind the
/// last newline is a line too unless it is empty.
pub open spec fn statsd_lines(data: Seq<u8>) -> Option<Seq<Reading>>
    decreases data.len(),
{
    if data.len() == 0 {
        Some(Seq::empty())
    } else {
        let n = first_index(data, NEWLINE);
        let rest = if 0 <= n < data.len() {
            data.skip(n + 1)
        } else {
            Seq::empty()
        };
        match (statsd_line(data.take(n)), statsd_lines(rest)) {
            (Some(r), Some(rs)) => Some(seq![r] + rs),
            _ => None,
        }
    }
}

/// The metric that a reading becomes at second `now`.
pub open spec fn metric_of(r: Reading, now: i64) -> MetricView {
    MetricView {
        kind: r.kind,
        name: decode_utf8(r.name),
        time: now,
        tags: Map::empty(),
        samples: seq![r.value as i64],
        newest: Some(r.value as i64),
    }
}

/// The type text that writes a kind.
pub open spec fn type_text(kind: MetricKind) -> Seq<u8> {
    match kind {
        MetricKind::Counter => seq![0x63u8],
        MetricKind::Gauge | MetricKind::DeltaGauge | MetricKind::Raw => seq![0x67u8],
        MetricKind::Timer => seq![0x6du8, 0x73u8],
        MetricKind::Histogram => seq![0x68u8],
    }
}

/// The value text that writes a sample: a minus before a sample below
/// zero, and a plus before any other sample of a delta gauge.
pub open spec fn value_text(kind: MetricKind, v: int) -> Seq<u8> {
    if v < 0 {
        seq![MINUS] + number_text((-v) as nat)
    } else if kind == MetricKind::DeltaGauge {
        seq![PLUS] + number_text(v as nat)
    } else {
        number_text(v as nat)
    }
}

/// The line that writes a reading, without a rate and without a newline.
pub open spec fn statsd_text(r: Reading) -> Seq<u8> {
    r.name + seq![COLON] + value_text(r.kind, r.value) + seq![PIPE] + type_text(r.kind)
}

/// Whether a reading is one that a line can say: the name is not empty,
/// holds no colon and is valid UTF-8, the sample lies within `i64::MAX`
/// millionths either way, the kind is one that StatsD knows, and a plain
/// gauge is not below zero.
pub open spec fn sayable(r: Reading) -> bool {
    &&& r.name.len() > 0
    &&& !holds(r.name, COLON)
    &&& valid_utf8(r.name)
    &&& -i64::MAX <= r.value <= i64::MAX
    &&& r.kind != MetricKind::Raw
    &&& r.kind == MetricKind::Gauge ==> r.value >= 0
}

/// Dividing by a rate of one changes nothing.
pub proof fn lemma_scaled_by_one(v: int)
    ensures
        scaled(v, 1_000_000) == v,
{
    if v >= 0 {
        assert(v * 1_000_000 / 1_000_000 == v) by (nonlinear_arith);
    } else {
        assert((-v) * 1_000_000 / 1_000_000 == -v) by (nonlinear_arith);
    }
}

/// A sample of zero or more divided by a rate is zero or more.
pub proof fn lemma_scaled_sign(v: int, rate: nat)
    requires
        rate > 0,
    ensures
        v >= 0 ==> scaled(v, rate) >= 0,
        v <= 0 ==> scaled(v, rate) <= 0,
{
    if v >= 0 {
        assert(v * 1_000_000 / (rate as int) >= 0) by (nonlinear_arith)
            requires
                v >= 0,
                rate > 0,
        ;
    } else {
        assert((-v) * 1_000_000 / (rate as int) >= 0) by (nonlinear_arith)
            requires
                v < 0,
                rate > 0,
        ;
    }
}

/// Whatever a line says is sayable.
pub proof fn lemma_read_is_sayable(line: Seq<u8>)
    requires
        statsd_line(line) is Some,
    ensures
        sayable(statsd_line(line).unwrap()),
{
    let c = first_index(line, COLON);
    lemma_scan(line, COLON, 0);
    let name = line.take(c);
    assert forall|j: int| 0 <= j < name.len() implies name[j] != COLON by {
        assert(name[j] == line[j]);
    }
    let rest = line.skip(c + 1);
    let p = first_index(rest, PIPE);
    let vtext = rest.take(p);
    let tail = rest.skip(p + 1);
    let ttext = tail.take(first_index(tail, AT));
    let kind = kind_of(ttext, has_sign(vtext)).unwrap();
    let v = signed_value(vtext).unwrap();
    let rate = rate_of(tail).unwrap();
    if kind == MetricKind::Gauge {
        assert(!has_sign(vtext));
        assert(v >= 0);
    }
}

/// The metric that a line makes has a name and one sample: it is one that
/// may travel.
pub proof fn lemma_read_is_valid(line: Seq<u8>, now: i64)
    requires
        statsd_line(line) is Some,
    ensures
        metric_of(statsd_line(line).unwrap(), now).name.len() > 0,
        metric_of(statsd_line(line).unwrap(), now).samples.len() == 1,
        metric_of(statsd_line(line).unwrap(), now).samples[0] == statsd_line(line).unwrap().value,
{
    lemma_read_is_sayable(line);
    let r = statsd_line(line).unwrap();
    decode_utf8_encode_utf8(r.name);
    if decode_utf8(r.name).len() == 0 {
        assert(encode_utf8(decode_utf8(r.name)) =~= Seq::<u8>::empty());
    }
}

/// Reading the line that writes a sayable reading gives the reading back.
pub proof fn lemma_text_reads_back(r: Reading)
    requires
        sayable(r),
    ensures
        statsd_line(statsd_text(r)) == Some(r),
{
    let line = statsd_text(r);
    let vt = value_text(r.kind, r.value);
    let tt = type_text(r.kind);
    let mag: nat = if r.value < 0 {
        (-r.value) as nat
    } else {
        r.value as nat
    };
    let nt = number_text(mag);
    lemma_number_round_trip(mag);
    let c = r.name.len() as int;
    assert forall|j: int| 0 <= j < c implies line[j] != COLON by {
        assert(line[j] == r.name[j]);
    }
    assert(line[c] == COLON);
    lemma_first_index(line, COLON, c);
    assert(line.take(c) =~= r.name);
    let rest = line.skip(c + 1);
    assert(rest =~= vt + seq![PIPE] + tt);
    let p = vt.len() as int;
    assert forall|j: int| 0 <= j < p implies rest[j] != PIPE by {
        assert(rest[j] == vt[j]);
        if r.value < 0 || r.kind == MetricKind::DeltaGauge {
            if j > 0 {
                assert(vt[j] == nt[j - 1]);
                assert(is_digit(nt[j - 1]) || nt[j - 1] == POINT);
            }
        } else {
            assert(vt[j] == nt[j]);
            assert(is_digit(nt[j]) || nt[j] == POINT);
        }
    }
    assert(rest[p] == PIPE);
    lemma_first_index(rest, PIPE, p);
    assert(rest.take(p) =~= vt);
    let tail = rest.skip(p + 1);
    assert(tail =~= tt);
    assert forall|j: int| 0 <= j < tt.len() implies tt[j] != AT by {}
    lemma_first_index(tail, AT, tt.len() as int);
    assert(tail.take(tt.len() as int) =~= tt);
    assert(rate_of(tail) == Some(1_000_000nat));
    let signed = r.value < 0 || r.kind == MetricKind::DeltaGauge;
    assert(is_digit(nt[0]));
    if signed {
        assert(vt[0] == MINUS || vt[0] == PLUS);
        assert(has_sign(vt));
        assert(vt.skip(1) =~= nt);
    } else {
        assert(vt[0] == nt[0]);
        assert(!has_sign(vt));
    }
    assert(signed_value(vt) == Some(r.value));
    assert(tt != seq![0x73u8]) by {
        if tt == seq![0x73u8] {
            assert(tt[0] == 0x73u8);
        }
    }
    assert(kind_of(tt, has_sign(vt)) == Some(r.kind)) by {
        match r.kind {
            MetricKind::Counter => {},
            MetricKind::Gauge => {},
            MetricKind::DeltaGauge => {},
            MetricKind::Timer => {
                assert(tt[0] == 0x6du8);
                assert(tt != seq![0x63u8]) by {
                    if tt == seq![0x63u8] {
                        assert(tt.len() == 1);
                    }
                }
                assert(tt != seq![0x67u8]) by {
                    if tt == seq![0x67u8] {
                        assert(tt.len() == 1);
                    }
                }
            },
            MetricKind::Histogram => {
                assert(tt[0] == 0x68u8);
                assert(tt != seq![0x63u8]) by {
                    if tt == seq![0x63u8] {
                        assert(tt[0] == 0x63u8);
                    }
                }
                assert(tt != seq![0x67u8]) by {
                    if tt == seq![0x67u8] {
                        assert(tt[0] == 0x67u8);
                    }
                }
                assert(tt != seq![0x6du8, 0x73u8]) by {
                    if tt == seq![0x6du8, 0x73u8] {
                        assert(tt.len() == 2);
                    }
                }
            },
            MetricKind::Raw => {},
        }
    }
    lemma_scaled_by_one(r.value);
}

/// Reading a line, writing what it says and reading that again gives what
/// the line said.
pub proof fn lemma_statsd_round_trip(line: Seq<u8>)
    requires
        statsd_line(line) is Some,
    ensures
        statsd_line(statsd_text(statsd_line(line).unwrap())) == statsd_line(line),
{
    lemma_read_is_sayable(line);
    lemma_text_reads_back(statsd_line(line).unwrap());
}

/// The metrics of a vector as plain values.
pub open spec fn views(v: Seq<Metric>) -> Seq<MetricView> {
    v.map_values(|m: Metric| m@)
}

/// The metrics that a run of readings becomes at second `now`.
pub open spec fn metrics_of(rs: Seq<Reading>, now: i64) -> Seq<MetricView> {
    rs.map_values(|r: Reading| metric_of(r, now))
}

/// The reading that a line would have to say for the metric `m`: its kind,
/// the bytes of its name and its first sample.
pub open spec fn reading_of(m: MetricView) -> Reading {
    Reading { kind: m.kind, name: encode_utf8(m.name), value: m.samples[0] as int }
}

/// Reads a value text.
fn parse_signed(v: &[u8]) -> (r: Option<(i64, bool)>)
    ensures
        r is Some <==> signed_value(v@) is Some,
        r is Some ==> r.unwrap().0 == signed_value(v@).unwrap() && r.unwrap().1 == has_sign(v@)
            && -i64::MAX <= r.unwrap().0,
{
    let signed: bool = v.len() > 0 && (v[0] == PLUS || v[0] == MINUS);
    let from: usize = if signed {
        1
    } else {
        0
    };
    proof {
        if signed {
            assert(v@.subrange(1, v@.len() as int) =~= v@.skip(1));
        } else {
            assert(v@.subrange(0, v@.len() as int) =~= v@);
        }
    }
    match parse_number(v, from, v.len()) {
        None => None,
        Some(n) => {
            let x: i64 = n as i64;
            if signed && v[0] == MINUS {
                Some((-x, true))
            } else {
                Some((x, signed))
            }
        },
    }
}

/// Reads a type text.
fn parse_kind(t: &[u8], signed: bool) -> (r: Option<MetricKind>)
    ensures
        r == kind_of(t@, signed),
{
    if t.len() == 1 {
        let b = t[0];
        assert(t@ =~= seq![b]);
        proof {
            assert(seq![0x63u8][0] == 0x63u8);
            assert(seq![0x67u8][0] == 0x67u8);
            assert(seq![0x68u8][0] == 0x68u8);
            assert(seq![0x73u8][0] == 0x73u8);
            assert(seq![0x6du8, 0x73u8].len() == 2);
        }
        if b == 0x63 {
            Some(MetricKind::Counter)
        } else if b == 0x67 {
            if signed {
                Some(MetricKind::DeltaGauge)
            } else {
                Some(MetricKind::Gauge)
            }
        } else if b == 0x68 {
            Some(MetricKind::Histogram)
        } else if b == 0x73 {
            Some(MetricKind::Counter)
        } else {
            None
        }
    } else if t.len() == 2 {
        proof {
            assert(seq![0x63u8].len() == 1);
            assert(seq![0x67u8].len() == 1);
            assert(seq![0x68u8].len() == 1);
            assert(seq![0x73u8].len() == 1);
        }
        if t[0] == 0x6d && t[1] == 0x73 {
            assert(t@ =~= seq![0x6du8, 0x73u8]);
            Some(MetricKind::Timer)
        } else {
            proof {
                if t@ == seq![0x6du8, 0x73u8] {
                    assert(t@[0] == 0x6du8 && t@[1] == 0x73u8);
                }
            }
            None
        }
    } else {
        proof {
            assert(seq![0x63u8].len() == 1);
            assert(seq![0x67u8].len() == 1);
            assert(seq![0x68u8].len() == 1);
            assert(seq![0x73u8].len() == 1);
            assert(seq![0x6du8, 0x73u8].len() == 2);
        }
        None
    }
}

/// Divides a sample by a rate, where the outcome lies within `i64::MAX`
/// millionths either way.
fn scale(v: i64, rate: u64) -> (r: Option<i64>)
    requires
        0 < rate <= 1_000_000,
        -i64::MAX <= v,
    ensures
        r is Some <==> -i64::MAX <= scaled(v as int, rate as nat) <= i64::MAX,
        r is Some ==> r.unwrap() == scaled(v as int, rate as nat),
{
    proof {
        lemma_scaled_sign(v as int, rate as nat);
    }
    let negative: bool = v < 0;
    let mag: u64 = if negative {
        (-v) as u64
    } else {
        v as u64
    };
    assert(mag as int * 1_000_000 <= 0x7fff_ffff_ffff_ffff * 1_000_000) by (nonlinear_arith)
        requires
            mag <= 0x7fff_ffff_ffff_ffff,
    ;
    let wide: u128 = (mag as u128 * 1_000_000) / (rate as u128);
    if wide > 0x7fff_ffff_ffff_ffffu128 {
        return None;
    }
    let q: i64 = wide as i64;
    if negative {
        Some(-q)
    } else {
        Some(q)
    }
}

/// Reads one line into a metric taken at second `now`.
fn parse_line(line: &[u8], now: i64) -> (r: Option<Metric>)
    ensures
        r is Some <==> statsd_line(line@) is Some,
        r is Some ==> r.unwrap()@ == metric_of(statsd_line(line@).unwrap(), now),
{
    let n = line.len();
    let c = find_byte(line, 0, n, COLON);
    assert(line@.subrange(0, n as int) =~= line@);
    if c == 0 || c >= n {
        return None;
    }
    let name = &line[0..c];
    let rest = &line[c + 1..n];
    assert(name@ =~= line@.take(c as int));
    assert(rest@ =~= line@.skip(c + 1));
    let rn = rest.len();
    let p = find_byte(rest, 0, rn, PIPE);
    assert(rest@.subrange(0, rn as int) =~= rest@);
    if p >= rn {
        return None;
    }
    let vtext = &rest[0..p];
    let tail = &rest[p + 1..rn];
    assert(vtext@ =~= rest@.take(p as int));
    assert(tail@ =~= rest@.skip(p + 1));
    let tn = tail.len();
    let a = find_byte(tail, 0, tn, AT);
    assert(tail@.subrange(0, tn as int) =~= tail@);
    let ttext = &tail[0..a];
    assert(ttext@ =~= tail@.take(a as int));
    let (v, signed) = match parse_signed(vtext) {
        Some(x) => x,
        None => {
            return None;
        },
    };
    let kind = match parse_kind(ttext, signed) {
        Some(k) => k,
        None => {
            return None;
        },
    };
    let rate: u64 = if a == tn {
        1_000_000
    } else {
        assert(tail@.subrange(a + 1, tn as int) =~= tail@.skip(a + 1));
        match parse_number(tail, a + 1, tn) {
            Some(r) => {
                if r == 0 || r > 1_000_000 {
                    return None;
                }
                r
            },
            None => {
                return None;
            },
        }
    };
    let is_set: bool = ttext.len() == 1 && ttext[0] == 0x73;
    proof {
        if is_set {
            assert(ttext@ =~= seq![0x73u8]);
        } else if ttext@ == seq![0x73u8] {
            assert(ttext@.len() == 1 && ttext@[0] == 0x73u8);
        }
    }
    let v1: i64 = if is_set {
        1_000_000
    } else {
        v
    };
    let scaling: bool = match kind {
        MetricKind::Counter | MetricKind::Timer | MetricKind::Histogram => true,
        _ => false,
    };
    let v2: i64 = if scaling {
        match scale(v1, rate) {
            Some(x) => x,
            None => {
                return None;
            },
        }
    } else {
        v1
    };
    match str_from_utf8(name) {
        None => None,
        Some(text) => {
            let m = Metric::new(text, v2, now).kind(kind);
            Some(m)
        },
    }
}

impl Metric {
    /// Reads the first `len` bytes of `buf` as a StatsD datagram and, where
    /// every line of it is well-formed, appends the metrics that the lines
    /// say to `out`, each taken at second `now` and without tags.
    ///
    /// The answer is `true` when every line is well-formed. A single
    /// malformed line rejects the whole datagram: the answer is `false`
    /// and `out` holds what it held.
    pub fn parse_statsd(buf: &[u8], len: usize, now: i64, out: &mut Vec<Metric>) -> (ok: bool)
        requires
            len <= buf@.len(),
        ensures
            ok <==> statsd_lines(buf@.take(len as int)) is Some,
            ok ==> views(final(out)@) == views(old(out)@) + metrics_of(
                statsd_lines(buf@.take(len as int)).unwrap(),
                now,
            ),
            !ok ==> views(final(out)@) == views(old(out)@),
    {
        let ghost data = buf@.take(len as int);
        let mut found: Vec<Metric> = Vec::new();
        let ghost mut done: Seq<Reading> = Seq::empty();
        let mut pos: usize = 0;
        assert(data.skip(0) =~= data);
        assert(done + statsd_lines(data).unwrap() =~= statsd_lines(data).unwrap());
        assert(views(found@) =~= metrics_of(done, now));
        while pos < len
            invariant
                pos <= len <= buf@.len(),
                data == buf@.take(len as int),
                views(found@) == metrics_of(done, now),
                statsd_lines(data) is Some <==> statsd_lines(data.skip(pos as int)) is Some,
                statsd_lines(data) is Some ==> statsd_lines(data).unwrap() == done + statsd_lines(
                    data.skip(pos as int),
                ).unwrap(),
            decreases len - pos,
        {
            let ghost cur = data.skip(pos as int);
            let end = find_byte(buf, pos, len, NEWLINE);
            assert(buf@.subrange(pos as int, len as int) =~= cur);
            let line = &buf[pos..end];
            let ghost n = end - pos;
            assert(line@ =~= cur.take(n));
            let next: usize = if end < len {
                end + 1
            } else {
                len
            };
            let ghost rest = if 0 <= n < cur.len() {
                cur.skip(n + 1)
            } else {
                Seq::empty()
            };
            assert(rest =~= data.skip(next as int));
            match parse_line(line, now) {
                None => {
                    return false;
                },
                Some(m) => {
                    let ghost r = statsd_line(line@).unwrap();
                    let ghost before = found@;
                    found.push(m);
                    proof {
                        assert(views(found@) =~= views(before).push(metric_of(r, now)));
                        assert(metrics_of(done.push(r), now) =~= metrics_of(done, now).push(
                            metric_of(r, now),
                        ));
                        if statsd_lines(rest) is Some {
                            assert(done + (seq![r] + statsd_lines(rest).unwrap()) =~= done.push(r)
                                + statsd_lines(rest).unwrap());
                        }
                        done = done.push(r);
                    }
                },
            }
            pos = next;
        }
        proof {
            assert(data.skip(len as int) =~= Seq::<u8>::empty());
            assert(done + Seq::<Reading>::empty() =~= done);
        }
        let ghost start = out@;
        let ghost added = found@;
        out.append(&mut found);
        proof {
            assert(views(out@) =~= views(start) + views(added));
        }
        true
    }

    /// Whether a line can say the metric: it has exactly one sample, and
    /// what a line would have to say for it is sayable.
    pub fn is_sayable(&self) -> (ok: bool)
        ensures
            ok <==> self@.samples.len() == 1 && sayable(reading_of(self@)),
    {
        if self.value.count() != 1 {
            return false;
        }
        proof {
            crate::quantile::lemma_rank_of(0, 1);
            encode_utf8_valid_utf8(self.name@);
        }
        let v: i64 = match self.value.query(0) {
            Some(x) => x,
            None => {
                return false;
            },
        };
        let name = self.name.as_str().as_bytes();
        if name.len() == 0 || v == i64::MIN {
            return false;
        }
        let fits: bool = match self.kind {
            MetricKind::Raw => false,
            MetricKind::Gauge => v >= 0,
            _ => true,
        };
        let colon = find_byte(name, 0, name.len(), COLON);
        assert(name@.subrange(0, name@.len() as int) =~= name@);
        fits && colon == name.len()
    }

    /// Appends the line that writes the metric to `out`, newline included,
    /// and answers `true`; or answers `false`, with `out` as it was, where
    /// no line can say the metric.
    pub fn to_statsd(&self, out: &mut Vec<u8>) -> (ok: bool)
        ensures
            ok <==> self@.samples.len() == 1 && sayable(reading_of(self@)),
            ok ==> final(out)@ == old(out)@ + statsd_text(reading_of(self@)) + seq![NEWLINE],
            !ok ==> final(out)@ == old(out)@,
    {
        if !self.is_sayable() {
            return false;
        }
        proof {
            crate::quantile::lemma_rank_of(0, 1);
        }
        let v: i64 = match self.value.query(0) {
            Some(x) => x,
            None => {
                return false;
            },
        };
        let ghost r = reading_of(self@);
        push_bytes(out, self.name.as_str().as_bytes());
        out.push(COLON);
        push_value_text(out, self.kind, v);
        out.push(PIPE);
        push_type_text(out, self.kind);
        out.push(NEWLINE);
        assert(out@ =~= old(out)@ + statsd_text(r) + seq![NEWLINE]);
        true
    }
}

/// Appends the bytes of `s` to `out`.
pub fn push_bytes(out: &mut Vec<u8>, s: &[u8])
    ensures
        final(out)@ == old(out)@ + s@,
{
    let mut i: usize = 0;
    while i < s.len()
        invariant
            i <= s@.len(),
            out@ == old(out)@ + s@.take(i as int),
        decreases s@.len() - i,
    {
        out.push(s[i]);
        assert(out@ =~= old(out)@ + s@.take(i + 1));
        i = i + 1;
    }
    assert(s@.take(s@.len() as int) =~= s@);
}

/// Appends the value text of a sample.
fn push_value_text(out: &mut Vec<u8>, kind: MetricKind, v: i64)
    requires
        -i64::MAX <= v,
    ensures
        final(out)@ == old(out)@ + value_text(kind, v as int),
{
    if v < 0 {
        out.push(MINUS);
        push_number(out, (-v) as u64);
    } else {
        match kind {
            MetricKind::DeltaGauge => {
                out.push(PLUS);
            },
            _ => {},
        }
        push_number(out, v as u64);
    }
    assert(out@ =~= old(out)@ + value_text(kind, v as int));
}

/// Appends the type text of a kind.
fn push_type_text(out: &mut Vec<u8>, kind: MetricKind)
    ensures
        final(out)@ == old(out)@ + type_text(kind),
{
    match kind {
        MetricKind::Counter => {
            out.push(0x63);
        },
        MetricKind::Timer => {
            out.push(0x6d);
            out.push(0x73);
        },
        MetricKind::Histogram => {
            out.push(0x68);
        },
        _ => {
            out.push(0x67);
        },
    }
    assert(out@ =~= old(out)@ + type_text(kind));
}

} // verus!
