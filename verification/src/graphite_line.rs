//! The Graphite line protocol: `name value timestamp`, the three parted by
//! one space each. Every line makes a `Raw` metric at the second that the
//! line names.

use crate::bytes::{find_byte, first_index, str_from_utf8};
use crate::decimal::{all_digits, digits_value, parse_digits};
use crate::metric::{Metric, MetricKind, MetricView};
use crate::number::parse_number;
use crate::statsd_line::{signed_value, views, MINUS, NEWLINE, PLUS};
use vstd::prelude::*;
use vstd::utf8::{decode_utf8, valid_utf8};

verus! {

/// The byte that parts the three fields of a line.
pub const SPACE: u8 = 0x20;

/// What one line says: the name as bytes, the sample in millionths and the
/// second it was taken.
pub struct Point {
    pub name: Seq<u8>,
    pub value: int,
    pub time: int,
}

/// The second that a timestamp text names: a digit string worth no more
/// than `i64::MAX`.
pub open spec fn timestamp_of(t: Seq<u8>) -> Option<int> {
    if t.len() > 0 && all_digits(t) && digits_value(t) <= i64::MAX {
        Some(digits_value(t) as int)
    } else {
        None
    }
}

/// What the line `line` says, or `None` where it is malformed.
///
/// The name is what stands before the first space: it is not empty and is
/// valid UTF-8. The value stands between that space and the next, and is a
/// number of no more than `i64::MAX` millionths, with or without a sign.
/// The timestamp is the rest of the line.
pub open spec fn graphite_line(line: Seq<u8>) -> Option<Point> {
    let a = first_index(line, SPACE);
    if a == 0 || a >= line.len() {
        None
    } else {
        let name = line.take(a);
        let rest = line.skip(a + 1);
        let b = first_index(rest, SPACE);
        if b >= rest.len() {
            None
        } else {
            match (signed_value(rest.take(b)), timestamp_of(rest.skip(b + 1))) {
                (Some(value), Some(time)) => if valid_utf8(name) {
                    Some(Point { name, value, time })
                } else {
                    None
                },
                _ => None,
            }
        }
    }
}

/// What the lines of `data` say, in order, or `None` where any of them is
/// malformed. Every newline ends a line; what stands behind the last
/// newline is a line too unless it is empty.
pub open spec fn graphite_lines(data: Seq<u8>) -> Option<Seq<Point>>
    decreases data.len(),
{
    if data.len() == 0 {
        Some(Seq::empty())
    } else {
        let n = first_index(data, NEWLINE);
        let rest = if 0 <= n < data.len() {
            data.skip(n + 1)
        } else {
            Seq::empty()
        };
        match (graphite_line(data.take(n)), graphite_lines(rest)) {
            (Some(r), Some(rs)) => Some(seq![r] + rs),
            _ => None,
        }
    }
}

/// The metric that a point becomes.
pub open spec fn raw_of(p: Point) -> MetricView {
    MetricView {
        kind: MetricKind::Raw,
        name: decode_utf8(p.name),
        time: p.time as i64,
        tags: Map::empty(),
        samples: seq![p.value as i64],
        newest: Some(p.value as i64),
    }
}

/// The metrics that a run of points becomes.
pub open spec fn raws_of(ps: Seq<Point>) -> Seq<MetricView> {
    ps.map_values(|p: Point| raw_of(p))
}

/// Reads a value text.
fn parse_value(v: &[u8]) -> (r: Option<i64>)
    ensures
        r is Some <==> signed_value(v@) is Some,
        r is Some ==> r.unwrap() == signed_value(v@).unwrap(),
{
    let signed: bool = v.len() > 0 && (v[0] == PLUS || v[0] == MINUS);
    let from: usize = if signed {
        1
    } else {
        0
    };
    proof {
        if signed {
            assert(v@.subrange(1, v@.len() as int) =~= v@.skip(1));
        } else {
            assert(v@.subrange(0, v@.len() as int) =~= v@);
        }
    }
    match parse_number(v, from, v.len()) {
        None => None,
        Some(n) => {
            let x: i64 = n as i64;
            if signed && v[0] == MINUS {
                Some(-x)
            } else {
                Some(x)
            }
        },
    }
}

/// Reads one line into a metric.
fn parse_line(line: &[u8]) -> (r: Option<Metric>)
    ensures
        r is Some <==> graphite_line(line@) is Some,
        r is Some ==> r.unwrap()@ == raw_of(graphite_line(line@).unwrap()),
{
    let n = line.len();
    let a = find_byte(line, 0, n, SPACE);
    assert(line@.subrange(0, n as int) =~= line@);
    if a == 0 || a >= n {
        return None;
    }
    let name = &line[0..a];
    let rest = &line[a + 1..n];
    assert(name@ =~= line@.take(a as int));
    assert(rest@ =~= line@.skip(a + 1));
    let rn = rest.len();
    let b = find_byte(rest, 0, rn, SPACE);
    assert(rest@.subrange(0, rn as int) =~= rest@);
    if b >= rn {
        return None;
    }
    let vtext = &rest[0..b];
    assert(vtext@ =~= rest@.take(b as int));
    assert(rest@.subrange(b + 1, rn as int) =~= rest@.skip(b + 1));
    let value = match parse_value(vtext) {
        Some(v) => v,
        None => {
            return None;
        },
    };
    let time: i64 = match parse_digits(rest, b + 1, rn) {
        Some(t) => {
            if t > 0x7fff_ffff_ffff_ffffu64 {
                return None;
            }
            t as i64
        },
        None => {
            return None;
        },
    };
    match str_from_utf8(name) {
        None => None,
        Some(text) => Some(Metric::new(text, value, time)),
    }
}

impl Metric {
    /// Reads the first `len` bytes of `buf` as Graphite lines and, where
    /// every line is well-formed, appends the `Raw` metrics that the lines
    /// say to `out`.
    ///
    /// The answer is `true` when every line is well-formed. A single
    /// malformed line rejects the whole input: the answer is `false` and
    /// `out` holds what it held.
    pub fn parse_graphite(buf: &[u8], len: usize, out: &mut Vec<Metric>) -> (ok: bool)
        requires
            len <= buf@.len(),
        ensures
            ok <==> graphite_lines(buf@.take(len as int)) is Some,
            ok ==> views(final(out)@) == views(old(out)@) + raws_of(
                graphite_lines(buf@.take(len as int)).unwrap(),
            ),
            !ok ==> views(final(out)@) == views(old(out)@),
    {
        let ghost data = buf@.take(len as int);
        let mut found: Vec<Metric> = Vec::new();
        let ghost mut done: Seq<Point> = Seq::empty();
        let mut pos: usize = 0;
        assert(data.skip(0) =~= data);
        assert(done + graphite_lines(data).unwrap() =~= graphite_lines(data).unwrap());
        assert(views(found@) =~= raws_of(done));
        while pos < len
            invariant
                pos <= len <= buf@.len(),
                data == buf@.take(len as int),
                views(found@) == raws_of(done),
                graphite_lines(data) is Some <==> graphite_lines(data.skip(pos as int)) is Some,
                graphite_lines(data) is Some ==> graphite_lines(data).unwrap() == done
                    + graphite_lines(data.skip(pos as int)).unwrap(),
            decreases len - pos,
        {
            let ghost cur = data.skip(pos as int);
            let end = find_byte(buf, pos, len, NEWLINE);
            assert(buf@.subrange(pos as int, len as int) =~= cur);
            let line = &buf[pos..end];
            let ghost n = end - pos;
            assert(line@ =~= cur.take(n));
            let next: usize = if end < len {
                end + 1
            } else {
                len
            };
            let ghost rest = if 0 <= n < cur.len() {
                cur.skip(n + 1)
            } else {
                Seq::empty()
            };
            assert(rest =~= data.skip(next as int));
            match parse_line(line) {
                None => {
                    return false;
                },
                Some(m) => {
                    let ghost r = graphite_line(line@).unwrap();
                    let ghost before = found@;
                    found.push(m);
                    proof {
                        assert(views(found@) =~= views(before).push(raw_of(r)));
                        assert(raws_of(done.push(r)) =~= raws_of(done).push(raw_of(r)));
                        if graphite_lines(rest) is Some {
                            assert(done + (seq![r] + graphite_lines(rest).unwrap()) =~= done.push(r)
                                + graphite_lines(rest).unwrap());
                        }
                        done = done.push(r);
                    }
                },
            }
            pos = next;
        }
        proof {
            assert(data.skip(len as int) =~= Seq::<u8>::empty());
            assert(done + Seq::<Point>::empty() =~= done);
        }
        let ghost start = out@;
        let ghost added = found@;
        out.append(&mut found);
        proof {
            assert(views(out@) =~= views(start) + views(added));
        }
        true
    }
}

} // verus!
