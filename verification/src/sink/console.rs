//! The console sink: aggregates metrics and, on flush, hands out the lines
//! of a report.

use crate::buckets::{added, after_reset, distinct, Buckets, SlotView};
use crate::metric::{LogLine, LogLineView, Metric, MetricKind, MetricView};
use crate::quantile::{rank_of, total};
use crate::sink::{Sink, Valve};
use crate::time::{utc_now, Moment};
use vstd::prelude::*;

verus! {

/// Which number of a slot a row of the report gives.
#[derive(Debug, Clone, Copy, PartialEq, Eq, Structural)]
pub enum Stat {
    /// The sum of a counter, the last sample of a gauge or raw.
    Value,
    /// The smallest sample.
    Min,
    /// The largest sample.
    Max,
    /// The median.
    Q50,
    /// The quantile 0.9.
    Q90,
    /// The quantile 0.99.
    Q99,
    /// The quantile 0.999.
    Q999,
    /// The number of samples, as a plain number.
    Count,
    /// The sum of the samples.
    Sum,
}

/// A row of the report as plain values.
pub struct RowView {
    pub kind: MetricKind,
    pub name: Seq<char>,
    pub stat: Stat,
    pub value: int,
}

/// One row of the report: a number of one slot, in millionths unless it
/// is a count.
#[derive(Debug, PartialEq, Eq)]
pub struct Row {
    pub kind: MetricKind,
    pub name: String,
    pub stat: Stat,
    pub value: i128,
}

impl View for Row {
    type V = RowView;

    open spec fn view(&self) -> RowView {
        RowView { kind: self.kind, name: self.name@, stat: self.stat, value: self.value as int }
    }
}

/// The rows of a vector as plain values.
pub open spec fn row_views(v: Seq<Row>) -> Seq<RowView> {
    v.map_values(|r: Row| r@)
}

/// What a flush of the console hands out: the moment of the flush and the
/// rows to print.
#[derive(Debug, PartialEq, Eq)]
pub struct Report {
    pub stamp: Moment,
    pub rows: Vec<Row>,
}

/// The quantile, in millionths, that a statistic of a summary asks for; the
/// median for a statistic that is no quantile.
pub open spec fn quantile_of(stat: Stat) -> u32 {
    match stat {
        Stat::Value => 500_000,
        Stat::Min => 0,
        Stat::Max => 1_000_000,
        Stat::Q50 => 500_000,
        Stat::Q90 => 900_000,
        Stat::Q99 => 990_000,
        Stat::Q999 => 999_000,
        Stat::Count => 500_000,
        Stat::Sum => 500_000,
    }
}

/// The row that gives the statistic `stat` of the summary in slot `s`.
pub open spec fn summary_row(s: SlotView, stat: Stat) -> RowView {
    RowView {
        kind: s.key.kind,
        name: s.key.name,
        stat,
        value: s.samples[rank_of(quantile_of(stat), s.samples.len())] as int,
    }
}

/// The rows of one slot. A counter, gauge or raw gives one row with its
/// number. A timer or histogram that has a sample gives eight: the smallest
/// and the largest sample, the median, the quantiles 0.9, 0.99 and 0.999,
/// the number of samples and their sum.
pub open spec fn slot_rows(s: SlotView) -> Seq<RowView> {
    match s.key.kind {
        MetricKind::Timer | MetricKind::Histogram => if s.samples.len() == 0 {
            Seq::empty()
        } else {
            seq![
                summary_row(s, Stat::Min),
                summary_row(s, Stat::Max),
                summary_row(s, Stat::Q50),
                summary_row(s, Stat::Q90),
                summary_row(s, Stat::Q99),
                summary_row(s, Stat::Q999),
                RowView {
                    kind: s.key.kind,
                    name: s.key.name,
                    stat: Stat::Count,
                    value: s.samples.len() as int,
                },
                RowView { kind: s.key.kind, name: s.key.name, stat: Stat::Sum, value: total(s.samples) },
            ]
        },
        _ => seq![
            RowView { kind: s.key.kind, name: s.key.name, stat: Stat::Value, value: s.total },
        ],
    }
}

/// The rows of the slots of kind `kind`, in the order of the slots.
pub open spec fn section(slots: Seq<SlotView>, kind: MetricKind) -> Seq<RowView>
    decreases slots.len(),
{
    if slots.len() == 0 {
        Seq::empty()
    } else if slots.last().key.kind == kind {
        section(slots.drop_last(), kind) + slot_rows(slots.last())
    } else {
        section(slots.drop_last(), kind)
    }
}

/// The rows of a report: the counters, the gauges, the raws, the
/// histograms and the timers, in this order.
pub open spec fn report_of(slots: Seq<SlotView>) -> Seq<RowView> {
    section(slots, MetricKind::Counter) + section(slots, MetricKind::Gauge) + section(
        slots,
        MetricKind::Raw,
    ) + section(slots, MetricKind::Histogram) + section(slots, MetricKind::Timer)
}

/// A sink that reports what it has aggregated.
pub struct Console {
    aggrs: Buckets,
}

impl Console {
    /// The slots that the console holds.
    pub closed spec fn slots(&self) -> Seq<SlotView> {
        self.aggrs@
    }

    /// The width of the console's time bins.
    pub closed spec fn width(&self) -> i64 {
        self.aggrs.width()
    }

    /// Whether the console carries last values over a flush.
    pub closed spec fn carries(&self) -> bool {
        self.aggrs.carries()
    }

    /// What holds of every console that this module has made or changed:
    /// its aggregator is well-formed.
    pub closed spec fn wf(&self) -> bool {
        self.aggrs.wf()
    }

    /// What `wf` says: the bins have a width and no two slots have the
    /// same key, so that what is proved of distinct slots holds of the
    /// console's.
    pub proof fn lemma_wf(&self)
        requires
            self.wf(),
        ensures
            self.width() > 0,
            distinct(self.slots()),
    {
        self.aggrs.lemma_wf();
    }

    /// A console that aggregates in bins `bin_width` seconds wide.
    pub fn new(bin_width: i64) -> (c: Console)
        requires
            bin_width > 0,
        ensures
            c.slots() == Seq::<SlotView>::empty(),
            c.width() == bin_width,
            c.carries(),
            c.wf(),
    {
        let aggrs = Buckets::new(bin_width);
        proof {
            use_type_invariant(&aggrs);
        }
        Console { aggrs }
    }

    /// Appends the rows of the slots of kind `kind` to `rows`.
    fn push_section(&self, kind: MetricKind, rows: &mut Vec<Row>)
        ensures
            row_views(final(rows)@) == row_views(old(rows)@) + section(self.slots(), kind),
    {
        let ghost slots = self.aggrs@;
        let ghost start = row_views(rows@);
        let n = self.aggrs.len();
        let mut i: usize = 0;
        assert(start + section(slots.take(0), kind) =~= start);
        while i < n
            invariant
                i <= n,
                n == slots.len(),
                slots == self.aggrs@,
                row_views(rows@) == start + section(slots.take(i as int), kind),
            decreases n - i,
        {
            let slot = self.aggrs.slot(i);
            let ghost before = row_views(rows@);
            proof {
                assert(slots.take(i + 1).drop_last() =~= slots.take(i as int));
                assert(slots.take(i + 1).last() == slots[i as int]);
            }
            if slot.kind == kind {
                push_slot_rows(slot, rows);
                assert(row_views(rows@) =~= start + section(slots.take(i + 1), kind));
            }
            i = i + 1;
        }
        assert(slots.take(n as int) =~= slots);
    }

    /// The rows of a report on what the console holds.
    pub fn report(&self) -> (rows: Vec<Row>)
        ensures
            row_views(rows@) == report_of(self.slots()),
    {
        let mut rows: Vec<Row> = Vec::new();
        assert(row_views(rows@) =~= Seq::<RowView>::empty());
        self.push_section(MetricKind::Counter, &mut rows);
        self.push_section(MetricKind::Gauge, &mut rows);
        self.push_section(MetricKind::Raw, &mut rows);
        self.push_section(MetricKind::Histogram, &mut rows);
        self.push_section(MetricKind::Timer, &mut rows);
        assert(row_views(rows@) =~= report_of(self.slots()));
        rows
    }
}

/// Appends the rows of one slot to `rows`.
fn push_slot_rows(slot: &crate::buckets::Slot, rows: &mut Vec<Row>)
    ensures
        row_views(final(rows)@) == row_views(old(rows)@) + slot_rows(slot@),
{
    let ghost start = row_views(rows@);
    match slot.kind {
        MetricKind::Timer | MetricKind::Histogram => {
            if slot.samples.count() == 0 {
                assert(row_views(rows@) =~= start + slot_rows(slot@));
                return;
            }
            push_summary_row(slot, Stat::Min, 0, rows);
            push_summary_row(slot, Stat::Max, 1_000_000, rows);
            push_summary_row(slot, Stat::Q50, 500_000, rows);
            push_summary_row(slot, Stat::Q90, 900_000, rows);
            push_summary_row(slot, Stat::Q99, 990_000, rows);
            push_summary_row(slot, Stat::Q999, 999_000, rows);
            let ghost six = row_views(rows@);
            let count = Row {
                kind: slot.kind,
                name: slot.name.clone(),
                stat: Stat::Count,
                value: slot.samples.count() as i128,
            };
            let ghost count_view = count@;
            rows.push(count);
            assert(row_views(rows@) =~= six.push(count_view));
            let sum = Row {
                kind: slot.kind,
                name: slot.name.clone(),
                stat: Stat::Sum,
                value: slot.samples.sum(),
            };
            let ghost sum_view = sum@;
            rows.push(sum);
            assert(row_views(rows@) =~= six.push(count_view).push(sum_view));
            assert(slot_rows(slot@).len() == 8);
            assert(row_views(rows@) =~= start + slot_rows(slot@));
        },
        _ => {
            rows.push(
                Row { kind: slot.kind, name: slot.name.clone(), stat: Stat::Value, value: slot.total },
            );
            assert(row_views(rows@) =~= start + slot_rows(slot@));
        },
    }
}

/// Appends the row of one statistic of a summary to `rows`.
fn push_summary_row(slot: &crate::buckets::Slot, stat: Stat, q: u32, rows: &mut Vec<Row>)
    requires
        slot@.samples.len() > 0,
        q == quantile_of(stat),
    ensures
        row_views(final(rows)@) == row_views(old(rows)@).push(summary_row(slot@, stat)),
{
    let ghost start = row_views(rows@);
    let value: i64 = match slot.samples.query(q) {
        Some(x) => x,
        None => 0,
    };
    rows.push(Row { kind: slot.kind, name: slot.name.clone(), stat, value: value as i128 });
    assert(row_views(rows@) =~= start.push(summary_row(slot@, stat)));
}

impl Default for Console {
    fn default() -> (c: Console)
        ensures
            c.slots() == Seq::<SlotView>::empty(),
            c.width() == 1,
            c.carries(),
            c.wf(),
    {
        Console::new(1)
    }
}

impl Sink for Console {
    type Emission = Report;

    /// The metric is added to the aggregator.
    open spec fn takes(&self, after: &Console, point: MetricView) -> bool {
        &&& after.slots() == added(self.slots(), point, self.width())
        &&& after.width() == self.width()
        &&& after.carries() == self.carries()
        &&& after.wf()
    }

    /// Log lines are nothing to the console.
    open spec fn takes_line(&self, after: &Console, line: LogLineView) -> bool {
        *after == *self
    }

    /// Where a slot is held, the report tells what was held; where none is,
    /// there is nothing to emit. Either way the bucket is ended. Nothing is
    /// said of the stamp, which is the clock's.
    open spec fn hands_out(&self, after: &Console, out: &Option<Report>) -> bool {
        &&& *out is Some <==> self.slots().len() > 0
        &&& *out is Some ==> row_views(out->0.rows@) == report_of(self.slots())
        &&& after.slots() == after_reset(self.slots(), self.carries())
        &&& after.width() == self.width()
        &&& after.carries() == self.carries()
        &&& after.wf()
    }

    /// The console always takes more in.
    open spec fn valve(&self) -> Valve {
        Valve::Open
    }

    fn deliver(&mut self, point: Metric) {
        self.aggrs.add(point);
        proof {
            use_type_invariant(&self.aggrs);
        }
    }

    fn deliver_line(&mut self, line: LogLine) {
    }

    fn flush(&mut self) -> (out: Option<Report>) {
        let out = if self.aggrs.len() == 0 {
            None
        } else {
            Some(Report { stamp: utc_now(), rows: self.report() })
        };
        self.aggrs.reset();
        proof {
            use_type_invariant(&self.aggrs);
        }
        out
    }

    fn valve_state(&self) -> (v: Valve) {
        Valve::Open
    }
}

} // verus!
