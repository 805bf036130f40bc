//! The aggregator: one slot for every kind, name, tag fingerprint and time
//! bin that a metric has come in for, and the reset that ends a bucket.
//!
//! What a slot holds depends on its kind. A counter or delta gauge holds
//! the sum of its samples, a gauge or raw the sample that came last, a
//! timer or histogram a summary of all its samples. Sums are kept in an
//! `i128` and stop at its ends.
//!
//! A reset carries last values over to the next bucket: of every series of
//! gauges and raws, whatever the bins it has slots for, the slot of the
//! newest bin stays, and every delta gauge is added to the gauge of its
//! name and tags.

use crate::metric::{Metric, MetricKind, MetricView};
use crate::quantile::{total, with_samples, QuantileSummary};
use crate::tagmap::{fingerprint_of, TagMap};
use vstd::prelude::*;

verus! {

/// What tells one slot from another.
pub struct Key {
    pub kind: MetricKind,
    pub name: Seq<char>,
    pub fingerprint: u64,
    pub bin: i64,
}

/// A slot as plain values.
pub struct SlotView {
    pub key: Key,
    pub tags: Map<Seq<char>, Seq<char>>,
    pub total: int,
    pub samples: Seq<i64>,
}

/// One aggregate: the metrics of one kind, name and set of tags that fell
/// into one time bin.
#[derive(Debug, PartialEq, Eq)]
pub struct Slot {
    pub kind: MetricKind,
    pub name: String,
    pub fingerprint: u64,
    pub bin: i64,
    pub tags: TagMap,
    /// The sum of a counter or delta gauge, the last sample of a gauge or
    /// raw.
    pub total: i128,
    /// The samples of a timer or histogram.
    pub samples: QuantileSummary,
}

impl View for Slot {
    type V = SlotView;

    open spec fn view(&self) -> SlotView {
        SlotView {
            key: Key {
                kind: self.kind,
                name: self.name@,
                fingerprint: self.fingerprint,
                bin: self.bin,
            },
            tags: self.tags@,
            total: self.total as int,
            samples: self.samples.samples(),
        }
    }
}

/// The number `x`, or the end of the `i128` range that it lies beyond.
pub open spec fn clamp(x: int) -> int {
    if x < i128::MIN {
        i128::MIN as int
    } else if x > i128::MAX {
        i128::MAX as int
    } else {
        x
    }
}

/// The start of the time bin of width `width` that second `t` falls into:
/// `t` less what is left of it over `width`, counted from zero either way.
pub open spec fn bin_of(t: int, width: int) -> int
    recommends
        width > 0,
{
    if t >= 0 {
        t - t % width
    } else {
        -((-t) - (-t) % width)
    }
}

/// The key under which a metric is aggregated in bins of width `width`.
pub open spec fn key_of(m: MetricView, width: i64) -> Key {
    Key {
        kind: m.kind,
        name: m.name,
        fingerprint: fingerprint_of(m.tags),
        bin: bin_of(m.time as int, width as int) as i64,
    }
}

/// The first index from `i` on at which `slots` holds the key `k`, or the
/// length of `slots` where it holds it nowhere.
pub open spec fn seek(slots: Seq<SlotView>, k: Key, i: int) -> int
    decreases slots.len() - i,
{
    if i < 0 || i >= slots.len() || slots[i].key == k {
        i
    } else {
        seek(slots, k, i + 1)
    }
}

/// Whether no two slots have the same key.
pub open spec fn distinct(slots: Seq<SlotView>) -> bool {
    forall|i: int, j: int|
        0 <= i < j < slots.len() ==> (#[trigger] slots[i]).key != (#[trigger] slots[j]).key
}

/// A slot after it has taken a metric in: a counter or delta gauge adds
/// the metric's samples to its sum, a gauge or raw takes the metric's last
/// sample, a timer or histogram puts the samples into its summary.
pub open spec fn absorbed(s: SlotView, m: MetricView) -> SlotView {
    match s.key.kind {
        MetricKind::Counter | MetricKind::DeltaGauge => SlotView {
            total: clamp(s.total + total(m.samples)),
            ..s
        },
        MetricKind::Gauge | MetricKind::Raw => SlotView {
            total: if m.newest is Some {
                m.newest.unwrap() as int
            } else {
                s.total
            },
            ..s
        },
        MetricKind::Timer | MetricKind::Histogram => SlotView {
            samples: with_samples(s.samples, m.samples),
            ..s
        },
    }
}

/// The slot that a metric opens.
pub open spec fn opened(m: MetricView, width: i64) -> SlotView {
    absorbed(SlotView { key: key_of(m, width), tags: m.tags, total: 0, samples: Seq::empty() }, m)
}

/// The slots after a metric has been added.
pub open spec fn added(slots: Seq<SlotView>, m: MetricView, width: i64) -> Seq<SlotView> {
    let i = seek(slots, key_of(m, width), 0);
    if i < slots.len() {
        slots.update(i, absorbed(slots[i], m))
    } else {
        slots.push(opened(m, width))
    }
}

/// What tells one series of metrics from another, whatever the time bin.
pub struct Series {
    pub kind: MetricKind,
    pub name: Seq<char>,
    pub fingerprint: u64,
}

/// The series that a slot belongs to.
pub open spec fn series_of(s: SlotView) -> Series {
    Series { kind: s.key.kind, name: s.key.name, fingerprint: s.key.fingerprint }
}

/// The first index from `i` on at which `slots` holds a slot of the series
/// `sr`, or the length of `slots` where it holds none.
pub open spec fn seek_series(slots: Seq<SlotView>, sr: Series, i: int) -> int
    decreases slots.len() - i,
{
    if i < 0 || i >= slots.len() || series_of(slots[i]) == sr {
        i
    } else {
        seek_series(slots, sr, i + 1)
    }
}

/// Whether no two slots belong to the same series.
pub open spec fn apart(slots: Seq<SlotView>) -> bool {
    forall|i: int, j: int|
        0 <= i < j < slots.len() ==> series_of(#[trigger] slots[i]) != series_of(
            #[trigger] slots[j],
        )
}

/// Whether a slot holds a last value, which is carried over a reset: a
/// gauge or a raw.
pub open spec fn lasting(s: SlotView) -> bool {
    s.key.kind == MetricKind::Gauge || s.key.kind == MetricKind::Raw
}

/// The kept slots `acc`, one for a series, after the slot `s` has been
/// looked at: where `acc` holds a slot of the series of `s`, the one of the
/// later bin stays in its place; where it holds none, `s` comes behind.
pub open spec fn kept_one(acc: Seq<SlotView>, s: SlotView) -> Seq<SlotView> {
    let i = seek_series(acc, series_of(s), 0);
    if i < acc.len() {
        if acc[i].key.bin < s.key.bin {
            acc.update(i, s)
        } else {
            acc
        }
    } else {
        acc.push(s)
    }
}

/// Of every series of gauges and raws among `slots` the slot of the newest
/// bin, in the order in which the series first occur.
pub open spec fn newest_of(slots: Seq<SlotView>) -> Seq<SlotView>
    decreases slots.len(),
{
    if slots.len() == 0 {
        Seq::empty()
    } else if lasting(slots.last()) {
        kept_one(newest_of(slots.drop_last()), slots.last())
    } else {
        newest_of(slots.drop_last())
    }
}

/// The delta gauges among `slots`, in order.
pub open spec fn deltas_of(slots: Seq<SlotView>) -> Seq<SlotView>
    decreases slots.len(),
{
    if slots.len() == 0 {
        Seq::empty()
    } else if slots.last().key.kind == MetricKind::DeltaGauge {
        deltas_of(slots.drop_last()).push(slots.last())
    } else {
        deltas_of(slots.drop_last())
    }
}

/// The series of the gauge that a delta gauge applies to: the gauge of its
/// name and tags, whatever the bin.
pub open spec fn gauge_series(d: SlotView) -> Series {
    Series { kind: MetricKind::Gauge, name: d.key.name, fingerprint: d.key.fingerprint }
}

/// The key of the gauge that is made of a delta gauge where there is no
/// gauge for it to apply to.
pub open spec fn gauge_key(d: SlotView) -> Key {
    Key { kind: MetricKind::Gauge, ..d.key }
}

/// The carried slots after the delta `d` has been pushed into them: the
/// gauge of the same name and tags, whatever its bin, has the delta's sum
/// added, or where there is none, one is made that holds the sum.
pub open spec fn pushed_one(gauges: Seq<SlotView>, d: SlotView) -> Seq<SlotView> {
    let i = seek_series(gauges, gauge_series(d), 0);
    if i < gauges.len() {
        gauges.update(i, SlotView { total: clamp(gauges[i].total + d.total), ..gauges[i] })
    } else {
        gauges.push(SlotView { key: gauge_key(d), samples: Seq::empty(), ..d })
    }
}

/// The carried slots after every delta of `deltas` has been pushed into
/// them, in order.
pub open spec fn pushed(gauges: Seq<SlotView>, deltas: Seq<SlotView>) -> Seq<SlotView>
    decreases deltas.len(),
{
    if deltas.len() == 0 {
        gauges
    } else {
        pushed_one(pushed(gauges, deltas.drop_last()), deltas.last())
    }
}

/// The slots after a reset. Counters, timers and histograms are gone. Where
/// last values are carried forward, every series of gauges and raws keeps
/// one slot, that of its newest bin, and every delta gauge is added to the
/// gauge of its name and tags; where not, nothing stays.
pub open spec fn after_reset(slots: Seq<SlotView>, carry_forward: bool) -> Seq<SlotView> {
    if carry_forward {
        pushed(newest_of(slots), deltas_of(slots))
    } else {
        Seq::empty()
    }
}

/// The places at which `slots` holds a slot of kind `kind`, rising.
pub open spec fn places_of(slots: Seq<SlotView>, kind: MetricKind) -> Seq<usize>
    decreases slots.len(),
{
    if slots.len() == 0 {
        Seq::empty()
    } else if slots.last().key.kind == kind {
        places_of(slots.drop_last(), kind).push((slots.len() - 1) as usize)
    } else {
        places_of(slots.drop_last(), kind)
    }
}

/// What `seek` finds: the key nowhere from `i` up to it, and there unless
/// the slots have ended.
pub proof fn lemma_seek(slots: Seq<SlotView>, k: Key, i: int)
    requires
        0 <= i <= slots.len(),
    ensures
        i <= seek(slots, k, i) <= slots.len(),
        forall|j: int| i <= j < seek(slots, k, i) ==> (#[trigger] slots[j]).key != k,
        seek(slots, k, i) < slots.len() ==> slots[seek(slots, k, i)].key == k,
    decreases slots.len() - i,
{
    if i < slots.len() && slots[i].key != k {
        lemma_seek(slots, k, i + 1);
    }
}

/// The key is first found at `n` when it is nowhere before `n` and is at
/// `n`, or the slots end there.
pub proof fn lemma_seek_is(slots: Seq<SlotView>, k: Key, n: int)
    requires
        0 <= n <= slots.len(),
        forall|j: int| 0 <= j < n ==> (#[trigger] slots[j]).key != k,
        n == slots.len() || slots[n].key == k,
    ensures
        seek(slots, k, 0) == n,
{
    lemma_seek(slots, k, 0);
}

/// Adding a metric keeps the keys of the slots apart.
pub proof fn lemma_added_distinct(slots: Seq<SlotView>, m: MetricView, width: i64)
    requires
        distinct(slots),
    ensures
        distinct(added(slots, m, width)),
{
    let k = key_of(m, width);
    lemma_seek(slots, k, 0);
    let i = seek(slots, k, 0);
    let after = added(slots, m, width);
    assert forall|a: int, b: int| 0 <= a < b < after.len() implies (#[trigger] after[a]).key != (
    #[trigger] after[b]).key by {
        if i < slots.len() {
            assert(after[a].key == slots[a].key);
            assert(after[b].key == slots[b].key);
        } else {
            if b < slots.len() {
                assert(after[a] == slots[a] && after[b] == slots[b]);
            } else {
                assert(after[a] == slots[a]);
                assert(after[b].key == k);
            }
        }
    }
}

/// What `seek_series` finds: the series nowhere from `i` up to it, and
/// there unless the slots have ended.
pub proof fn lemma_seek_series(slots: Seq<SlotView>, sr: Series, i: int)
    requires
        0 <= i <= slots.len(),
    ensures
        i <= seek_series(slots, sr, i) <= slots.len(),
        forall|j: int| i <= j < seek_series(slots, sr, i) ==> series_of(#[trigger] slots[j]) != sr,
        seek_series(slots, sr, i) < slots.len() ==> series_of(slots[seek_series(slots, sr, i)])
            == sr,
    decreases slots.len() - i,
{
    if i < slots.len() && series_of(slots[i]) != sr {
        lemma_seek_series(slots, sr, i + 1);
    }
}

/// The series is first found at `n` when it is nowhere before `n` and is at
/// `n`, or the slots end there.
pub proof fn lemma_seek_series_is(slots: Seq<SlotView>, sr: Series, n: int)
    requires
        0 <= n <= slots.len(),
        forall|j: int| 0 <= j < n ==> series_of(#[trigger] slots[j]) != sr,
        n == slots.len() || series_of(slots[n]) == sr,
    ensures
        seek_series(slots, sr, 0) == n,
{
    lemma_seek_series(slots, sr, 0);
}

/// Slots of different series have different keys.
pub proof fn lemma_apart_distinct(slots: Seq<SlotView>)
    requires
        apart(slots),
    ensures
        distinct(slots),
{
    assert forall|i: int, j: int| 0 <= i < j < slots.len() implies (#[trigger] slots[i]).key != (
    #[trigger] slots[j]).key by {
        assert(series_of(slots[i]) != series_of(slots[j]));
    }
}

/// Looking at one more slot keeps one slot for a series: every kept slot
/// stays in its place under its series, holding what it held or giving way
/// to the slot of a later bin, and the series of the slot looked at is kept
/// with a bin no earlier than its own.
pub proof fn lemma_kept_one(acc: Seq<SlotView>, s: SlotView)
    requires
        apart(acc),
        forall|i: int| 0 <= i < acc.len() ==> lasting(#[trigger] acc[i]),
        lasting(s),
    ensures
        apart(kept_one(acc, s)),
        forall|i: int| 0 <= i < kept_one(acc, s).len() ==> lasting(#[trigger] kept_one(acc, s)[i]),
        kept_one(acc, s).len() >= acc.len(),
        forall|i: int|
            0 <= i < acc.len() ==> series_of(#[trigger] kept_one(acc, s)[i]) == series_of(acc[i])
                && kept_one(acc, s)[i].key.bin >= acc[i].key.bin && (kept_one(acc, s)[i] == acc[i]
                || kept_one(acc, s)[i] == s),
        forall|i: int|
            acc.len() <= i < kept_one(acc, s).len() ==> #[trigger] kept_one(acc, s)[i] == s,
        exists|i: int|
            0 <= i < kept_one(acc, s).len() && series_of(#[trigger] kept_one(acc, s)[i])
                == series_of(s) && kept_one(acc, s)[i].key.bin >= s.key.bin,
{
    let sr = series_of(s);
    lemma_seek_series(acc, sr, 0);
    let i = seek_series(acc, sr, 0);
    let k = kept_one(acc, s);
    assert forall|a: int, b: int| 0 <= a < b < k.len() implies series_of(#[trigger] k[a])
        != series_of(#[trigger] k[b]) by {
        if i < acc.len() {
            assert(series_of(k[a]) == series_of(acc[a]));
            assert(series_of(k[b]) == series_of(acc[b]));
        } else if b < acc.len() {
            assert(k[a] == acc[a] && k[b] == acc[b]);
        } else {
            assert(k[a] == acc[a]);
            assert(k[b] == s);
        }
    }
    assert forall|x: int| 0 <= x < k.len() implies lasting(#[trigger] k[x]) by {
        if x < acc.len() {
            assert(lasting(acc[x]));
            assert(k[x] == acc[x] || k[x] == s);
        }
    }
    let w = if i < acc.len() {
        i
    } else {
        acc.len() as int
    };
    assert(series_of(k[w]) == sr && k[w].key.bin >= s.key.bin);
}

/// What is kept of the gauges and raws: one slot for a series, each of them
/// one of the slots that were there, and for every gauge or raw that was
/// there a kept slot of its series with a bin no earlier than its own.
pub proof fn lemma_newest_of(slots: Seq<SlotView>)
    ensures
        apart(newest_of(slots)),
        forall|i: int| 0 <= i < newest_of(slots).len() ==> lasting(#[trigger] newest_of(slots)[i]),
        forall|i: int|
            0 <= i < newest_of(slots).len() ==> exists|j: int|
                0 <= j < slots.len() && slots[j] == #[trigger] newest_of(slots)[i],
        forall|j: int|
            0 <= j < slots.len() && lasting(#[trigger] slots[j]) ==> exists|i: int|
                0 <= i < newest_of(slots).len() && series_of(#[trigger] newest_of(slots)[i])
                    == series_of(slots[j]) && newest_of(slots)[i].key.bin >= slots[j].key.bin,
    decreases slots.len(),
{
    if slots.len() > 0 {
        let head = slots.drop_last();
        let last = slots.last();
        lemma_newest_of(head);
        let n0 = newest_of(head);
        let n = newest_of(slots);
        if lasting(last) {
            lemma_kept_one(n0, last);
        }
        assert forall|i: int| 0 <= i < n.len() implies exists|j: int|
            0 <= j < slots.len() && slots[j] == #[trigger] n[i] by {
            if i < n0.len() && n[i] == n0[i] {
                let j = choose|j: int| 0 <= j < head.len() && head[j] == n0[i];
                assert(slots[j] == n[i]);
            } else {
                assert(n[i] == last);
                assert(slots[slots.len() - 1] == n[i]);
            }
        }
        assert forall|j: int| 0 <= j < slots.len() && lasting(#[trigger] slots[j]) implies exists|
            i: int,
        |
            0 <= i < n.len() && series_of(#[trigger] n[i]) == series_of(slots[j]) && n[i].key.bin
                >= slots[j].key.bin by {
            if j < head.len() {
                assert(head[j] == slots[j]);
                let i = choose|i: int|
                    0 <= i < n0.len() && series_of(#[trigger] n0[i]) == series_of(head[j])
                        && n0[i].key.bin >= head[j].key.bin;
                if lasting(last) {
                    assert(series_of(n[i]) == series_of(n0[i]) && n[i].key.bin >= n0[i].key.bin);
                } else {
                    assert(n[i] == n0[i]);
                }
            } else {
                let i = choose|i: int|
                    0 <= i < n.len() && series_of(#[trigger] n[i]) == series_of(last)
                        && n[i].key.bin >= last.key.bin;
                assert(series_of(n[i]) == series_of(slots[j]));
            }
        }
    }
}

/// Pushing deltas into carried gauges and raws leaves gauges and raws
/// only, one for a series: every slot that was there stays in its place
/// under its key, a raw untouched and a gauge with nothing changed but its
/// number.
pub proof fn lemma_pushed(gauges: Seq<SlotView>, deltas: Seq<SlotView>)
    requires
        apart(gauges),
        forall|i: int| 0 <= i < gauges.len() ==> lasting(#[trigger] gauges[i]),
    ensures
        apart(pushed(gauges, deltas)),
        forall|i: int|
            0 <= i < pushed(gauges, deltas).len() ==> lasting(#[trigger] pushed(gauges, deltas)[i]),
        pushed(gauges, deltas).len() >= gauges.len(),
        forall|i: int|
            0 <= i < gauges.len() ==> (#[trigger] pushed(gauges, deltas)[i]).key == gauges[i].key
                && (gauges[i].key.kind == MetricKind::Raw ==> pushed(gauges, deltas)[i]
                == gauges[i]),
        deltas.len() == 0 ==> pushed(gauges, deltas) == gauges,
    decreases deltas.len(),
{
    if deltas.len() > 0 {
        lemma_pushed(gauges, deltas.drop_last());
        let g = pushed(gauges, deltas.drop_last());
        let d = deltas.last();
        let sr = gauge_series(d);
        lemma_seek_series(g, sr, 0);
        let i = seek_series(g, sr, 0);
        let after = pushed_one(g, d);
        assert forall|a: int, b: int| 0 <= a < b < after.len() implies series_of(
            #[trigger] after[a],
        ) != series_of(#[trigger] after[b]) by {
            if i < g.len() {
                assert(series_of(after[a]) == series_of(g[a]));
                assert(series_of(after[b]) == series_of(g[b]));
            } else if b < g.len() {
                assert(after[a] == g[a] && after[b] == g[b]);
            } else {
                assert(after[a] == g[a]);
                assert(series_of(after[b]) == sr);
            }
        }
        assert forall|x: int| 0 <= x < after.len() implies lasting(#[trigger] after[x]) by {
            if x < g.len() {
                assert(after[x].key == g[x].key);
                assert(lasting(g[x]));
            }
        }
        assert forall|x: int| 0 <= x < gauges.len() implies (#[trigger] after[x]).key
            == gauges[x].key && (gauges[x].key.kind == MetricKind::Raw ==> after[x]
            == gauges[x]) by {
            assert(g[x].key == gauges[x].key);
            assert(after[x].key == g[x].key);
            if gauges[x].key.kind == MetricKind::Raw {
                assert(g[x] == gauges[x]);
                assert(x != i);
            }
        }
    }
}

/// Where only gauges and raws are held, one for a series, they are all
/// kept and there is no delta to push.
pub proof fn lemma_settled(slots: Seq<SlotView>)
    requires
        apart(slots),
        forall|i: int| 0 <= i < slots.len() ==> lasting(#[trigger] slots[i]),
    ensures
        newest_of(slots) == slots,
        deltas_of(slots) == Seq::<SlotView>::empty(),
    decreases slots.len(),
{
    if slots.len() > 0 {
        let head = slots.drop_last();
        let last = slots.last();
        assert forall|i: int| 0 <= i < head.len() implies lasting(#[trigger] head[i]) by {
            assert(head[i] == slots[i]);
        }
        assert forall|a: int, b: int| 0 <= a < b < head.len() implies series_of(
            #[trigger] head[a],
        ) != series_of(#[trigger] head[b]) by {
            assert(head[a] == slots[a] && head[b] == slots[b]);
        }
        lemma_settled(head);
        assert(lasting(slots[slots.len() - 1]));
        assert forall|j: int| 0 <= j < head.len() implies series_of(#[trigger] head[j])
            != series_of(last) by {
            assert(head[j] == slots[j]);
            assert(last == slots[slots.len() - 1]);
        }
        lemma_seek_series_is(head, series_of(last), head.len() as int);
        assert(head.push(last) =~= slots);
    } else {
        assert(newest_of(slots) =~= slots);
    }
}

/// After a reset no counter, delta gauge, timer or histogram is left: every
/// additive store is empty. Where last values are not carried forward,
/// nothing is left at all. Where they are, gauges and raws are left, one
/// slot for a series: for every gauge or raw that was there a slot of its
/// series is left, of a bin no earlier than its own, and where it is a raw,
/// that slot is one of the raws that were there, holding what it held.
pub proof fn lemma_reset_clears(slots: Seq<SlotView>, carry_forward: bool)
    ensures
        apart(after_reset(slots, carry_forward)),
        distinct(after_reset(slots, carry_forward)),
        forall|i: int|
            0 <= i < after_reset(slots, carry_forward).len() ==> lasting(
                #[trigger] after_reset(slots, carry_forward)[i],
            ),
        !carry_forward ==> after_reset(slots, carry_forward).len() == 0,
        carry_forward ==> forall|j: int|
            0 <= j < slots.len() && lasting(#[trigger] slots[j]) ==> exists|i: int|
                0 <= i < after_reset(slots, carry_forward).len() && series_of(
                    #[trigger] after_reset(slots, carry_forward)[i],
                ) == series_of(slots[j]) && after_reset(slots, carry_forward)[i].key.bin
                    >= slots[j].key.bin && (slots[j].key.kind == MetricKind::Raw ==> exists|
                    k: int,
                | 0 <= k < slots.len() && slots[k] == after_reset(slots, carry_forward)[i]),
{
    if carry_forward {
        lemma_newest_of(slots);
        let kept = newest_of(slots);
        lemma_pushed(kept, deltas_of(slots));
        let after = after_reset(slots, carry_forward);
        lemma_apart_distinct(after);
        assert forall|j: int| 0 <= j < slots.len() && lasting(#[trigger] slots[j]) implies exists|
            i: int,
        |
            0 <= i < after.len() && series_of(#[trigger] after[i]) == series_of(slots[j])
                && after[i].key.bin >= slots[j].key.bin && (slots[j].key.kind == MetricKind::Raw
                ==> exists|k: int| 0 <= k < slots.len() && slots[k] == after[i]) by {
            let i = choose|i: int|
                0 <= i < kept.len() && series_of(#[trigger] kept[i]) == series_of(slots[j])
                    && kept[i].key.bin >= slots[j].key.bin;
            assert(after[i].key == kept[i].key);
            assert(series_of(after[i]) == series_of(slots[j]));
            if slots[j].key.kind == MetricKind::Raw {
                assert(kept[i].key.kind == MetricKind::Raw);
                assert(after[i] == kept[i]);
                let k = choose|k: int| 0 <= k < slots.len() && slots[k] == kept[i];
                assert(slots[k] == after[i]);
            }
        }
    } else {
        assert(apart(Seq::<SlotView>::empty()));
        assert(distinct(Seq::<SlotView>::empty()));
    }
}

/// A reset is idempotent: a second reset with nothing added in between
/// changes nothing. A reset of an aggregator that holds nothing leaves it
/// holding nothing.
pub proof fn lemma_reset_idempotent(slots: Seq<SlotView>, carry_forward: bool)
    ensures
        after_reset(after_reset(slots, carry_forward), carry_forward) == after_reset(
            slots,
            carry_forward,
        ),
        after_reset(Seq::<SlotView>::empty(), carry_forward) == Seq::<SlotView>::empty(),
{
    lemma_reset_clears(slots, carry_forward);
    let once = after_reset(slots, carry_forward);
    lemma_settled(once);
    lemma_pushed(once, Seq::<SlotView>::empty());
    assert(apart(Seq::<SlotView>::empty()));
    lemma_settled(Seq::<SlotView>::empty());
    lemma_pushed(Seq::<SlotView>::empty(), Seq::<SlotView>::empty());
}

/// A delta gauge reaches the gauge that was carried from an earlier
/// bucket: where a gauge is held alone and a delta gauge of its name and
/// tags has come in for whatever bin, a reset leaves that one gauge, in its
/// bin, with the delta's sum added.
pub proof fn lemma_delta_reaches_carried_gauge(g: SlotView, d: SlotView)
    requires
        g.key.kind == MetricKind::Gauge,
        d.key.kind == MetricKind::DeltaGauge,
        d.key.name == g.key.name,
        d.key.fingerprint == g.key.fingerprint,
    ensures
        after_reset(seq![g, d], true) == seq![SlotView { total: clamp(g.total + d.total), ..g }],
{
    let slots = seq![g, d];
    let head = slots.drop_last();
    assert(head =~= seq![g]);
    assert(head.drop_last() =~= Seq::<SlotView>::empty());
    assert(newest_of(Seq::<SlotView>::empty()) =~= Seq::<SlotView>::empty());
    assert(deltas_of(Seq::<SlotView>::empty()) =~= Seq::<SlotView>::empty());
    lemma_seek_series_is(Seq::<SlotView>::empty(), series_of(g), 0);
    assert(newest_of(head) =~= seq![g]);
    assert(newest_of(slots) =~= seq![g]);
    assert(deltas_of(head) =~= Seq::<SlotView>::empty());
    assert(deltas_of(slots) =~= seq![d]);
    assert(seq![d].drop_last() =~= Seq::<SlotView>::empty());
    assert(pushed(seq![g], Seq::<SlotView>::empty()) == seq![g]);
    lemma_seek_series_is(seq![g], gauge_series(d), 0);
    assert(pushed(seq![g], seq![d]) =~= seq![SlotView { total: clamp(g.total + d.total), ..g }]);
}

/// Adds two sums, stopping at the ends of the `i128` range.
pub fn clamped_add(a: i128, b: i128) -> (r: i128)
    ensures
        r == clamp(a + b),
{
    match a.checked_add(b) {
        Some(r) => r,
        None => if b > 0 {
            i128::MAX
        } else {
            i128::MIN
        },
    }
}

/// The start of the time bin of width `width` that second `t` falls into.
pub fn bin_start(t: i64, width: i64) -> (b: i64)
    requires
        width > 0,
    ensures
        b == bin_of(t as int, width as int),
{
    let w: u64 = width as u64;
    if t >= 0 {
        let m: u64 = t as u64;
        assert(m % w <= m) by (nonlinear_arith)
            requires
                w > 0,
        ;
        (m - m % w) as i64
    } else {
        let m: u64 = if t == i64::MIN {
            0x8000_0000_0000_0000u64
        } else {
            (-t) as u64
        };
        assert(m % w <= m) by (nonlinear_arith)
            requires
                w > 0,
        ;
        let b: u64 = m - m % w;
        if b == 0x8000_0000_0000_0000u64 {
            i64::MIN
        } else {
            -(b as i64)
        }
    }
}

/// The slots of a vector as plain values.
pub open spec fn slot_views(v: Seq<Slot>) -> Seq<SlotView> {
    v.map_values(|s: Slot| s@)
}

/// The aggregator of one sink.
pub struct Buckets {
    slots: Vec<Slot>,
    bin_width: i64,
    carry_forward: bool,
}

impl View for Buckets {
    type V = Seq<SlotView>;

    closed spec fn view(&self) -> Seq<SlotView> {
        slot_views(self.slots@)
    }
}

impl Buckets {
    /// The width of a time bin, in seconds.
    pub closed spec fn width(&self) -> i64 {
        self.bin_width
    }

    /// Whether gauges and raws keep their last value over a reset.
    pub closed spec fn carries(&self) -> bool {
        self.carry_forward
    }

    /// What holds of every aggregator: the bins have a width, and no two
    /// slots have the same key.
    #[verifier::type_invariant]
    pub closed spec fn wf(&self) -> bool {
        self.bin_width > 0 && distinct(slot_views(self.slots@))
    }

    /// What `wf` says, for those who cannot see into the aggregator.
    pub proof fn lemma_wf(&self)
        requires
            self.wf(),
        ensures
            self.width() > 0,
            distinct(self@),
    {
    }

    /// An empty aggregator with bins `bin_width` seconds wide, which
    /// carries last values forward.
    pub fn new(bin_width: i64) -> (b: Buckets)
        requires
            bin_width > 0,
        ensures
            b@ == Seq::<SlotView>::empty(),
            b.width() == bin_width,
            b.carries(),
    {
        Buckets::with_policy(bin_width, true)
    }

    /// An empty aggregator with bins `bin_width` seconds wide.
    pub fn with_policy(bin_width: i64, carry_forward: bool) -> (b: Buckets)
        requires
            bin_width > 0,
        ensures
            b@ == Seq::<SlotView>::empty(),
            b.width() == bin_width,
            b.carries() == carry_forward,
    {
        let b = Buckets { slots: Vec::new(), bin_width, carry_forward };
        assert(slot_views(b.slots@) =~= Seq::<SlotView>::empty());
        b
    }

    /// The number of slots.
    pub fn len(&self) -> (n: usize)
        ensures
            n == self@.len(),
    {
        self.slots.len()
    }

    /// The slot at place `i`, in the order in which the slots were opened.
    pub fn slot(&self, i: usize) -> (s: &Slot)
        requires
            i < self@.len(),
        ensures
            s@ == self@[i as int],
    {
        &self.slots[i]
    }

    /// The places of the slots of kind `kind`, in the order of the slots.
    pub fn of_kind(&self, kind: MetricKind) -> (places: Vec<usize>)
        ensures
            places@ == places_of(self@, kind),
    {
        let ghost slots = self@;
        let mut places: Vec<usize> = Vec::new();
        let mut i: usize = 0;
        assert(places@ =~= places_of(slots.take(0), kind));
        while i < self.slots.len()
            invariant
                i <= self.slots@.len(),
                slots == slot_views(self.slots@),
                places@ == places_of(slots.take(i as int), kind),
            decreases self.slots@.len() - i,
        {
            proof {
                assert(slots.take(i + 1).drop_last() =~= slots.take(i as int));
                assert(slots.take(i + 1).last() == self.slots@[i as int]@);
            }
            if self.slots[i].kind == kind {
                places.push(i);
            }
            i = i + 1;
        }
        assert(slots.take(slots.len() as int) =~= slots);
        places
    }

    /// The places of the counters.
    pub fn counters(&self) -> (places: Vec<usize>)
        ensures
            places@ == places_of(self@, MetricKind::Counter),
    {
        self.of_kind(MetricKind::Counter)
    }

    /// The places of the gauges.
    pub fn gauges(&self) -> (places: Vec<usize>)
        ensures
            places@ == places_of(self@, MetricKind::Gauge),
    {
        self.of_kind(MetricKind::Gauge)
    }

    /// The places of the delta gauges.
    pub fn delta_gauges(&self) -> (places: Vec<usize>)
        ensures
            places@ == places_of(self@, MetricKind::DeltaGauge),
    {
        self.of_kind(MetricKind::DeltaGauge)
    }

    /// The places of the timers.
    pub fn timers(&self) -> (places: Vec<usize>)
        ensures
            places@ == places_of(self@, MetricKind::Timer),
    {
        self.of_kind(MetricKind::Timer)
    }

    /// The places of the histograms.
    pub fn histograms(&self) -> (places: Vec<usize>)
        ensures
            places@ == places_of(self@, MetricKind::Histogram),
    {
        self.of_kind(MetricKind::Histogram)
    }

    /// The places of the raws.
    pub fn raws(&self) -> (places: Vec<usize>)
        ensures
            places@ == places_of(self@, MetricKind::Raw),
    {
        self.of_kind(MetricKind::Raw)
    }

    /// The place of the slot with this key, if there is one.
    pub fn find(&self, kind: MetricKind, name: &str, fingerprint: u64, bin: i64) -> (r: Option<
        usize,
    >)
        ensures
            r is Some <==> seek(self@, Key { kind, name: name@, fingerprint, bin }, 0)
                < self@.len(),
            r is Some ==> r.unwrap() == seek(self@, Key { kind, name: name@, fingerprint, bin }, 0),
    {
        let i = find_slot(&self.slots, kind, name, fingerprint, bin);
        if i < self.slots.len() {
            Some(i)
        } else {
            None
        }
    }

    /// Adds a metric: the slot of its kind, name, tags and time bin takes
    /// it in, or a slot is opened for it.
    pub fn add(&mut self, m: Metric)
        ensures
            final(self)@ == added(old(self)@, m@, old(self).width()),
            final(self).width() == old(self).width(),
            final(self).carries() == old(self).carries(),
            distinct(final(self)@),
    {
        proof {
            use_type_invariant(&*self);
        }
        let ghost before = self@;
        let ghost mv = m@;
        let width = self.bin_width;
        proof {
            lemma_added_distinct(before, mv, width);
        }
        let fingerprint = m.tags.fingerprint();
        let bin = bin_start(m.time, width);
        let mut slots: Vec<Slot> = Vec::new();
        std::mem::swap(&mut slots, &mut self.slots);
        assert(slot_views(slots@) == before);
        let i = find_slot(&slots, m.kind, m.name.as_str(), fingerprint, bin);
        let Metric { kind, name, time: _, tags, value } = m;
        let slot = if i < slots.len() {
            slots.remove(i)
        } else {
            Slot {
                kind,
                name,
                fingerprint,
                bin,
                tags,
                total: 0,
                samples: QuantileSummary::new(),
            }
        };
        let ghost base = slot@;
        let slot = absorb(slot, &value);
        assert(slot@ == absorbed(base, mv));
        slots.insert(i, slot);
        proof {
            if i < before.len() {
                assert(slot_views(slots@) =~= before.update(i as int, absorbed(before[i as int], mv)));
            } else {
                assert(slot_views(slots@) =~= before.push(opened(mv, width)));
            }
        }
        self.slots = slots;
    }

    /// Ends the bucket. Counters, timers and histograms are cleared. Where
    /// last values are carried forward, every series of gauges and raws
    /// keeps the slot of its newest bin and every delta gauge is added to
    /// the gauge of its name and tags, whatever the bins; where not,
    /// everything is cleared.
    pub fn reset(&mut self)
        ensures
            final(self)@ == after_reset(old(self)@, old(self).carries()),
            final(self).width() == old(self).width(),
            final(self).carries() == old(self).carries(),
            distinct(final(self)@),
    {
        proof {
            use_type_invariant(&*self);
            lemma_reset_clears(self@, self.carry_forward);
        }
        let ghost before = self@;
        let mut slots: Vec<Slot> = Vec::new();
        std::mem::swap(&mut slots, &mut self.slots);
        assert(slot_views(self.slots@) =~= Seq::<SlotView>::empty());
        if !self.carry_forward {
            return;
        }
        let mut kept: Vec<Slot> = Vec::new();
        let mut deltas: Vec<Slot> = Vec::new();
        let ghost mut n: int = 0;
        assert(slot_views(kept@) =~= newest_of(before.take(0)));
        assert(slot_views(deltas@) =~= deltas_of(before.take(0)));
        assert(before.skip(0) =~= before);
        while slots.len() > 0
            invariant
                0 <= n <= before.len(),
                slot_views(slots@) == before.skip(n),
                slot_views(kept@) == newest_of(before.take(n)),
                slot_views(deltas@) == deltas_of(before.take(n)),
            decreases slots@.len(),
        {
            let ghost rest = slot_views(slots@);
            assert(rest.len() == slots@.len());
            let slot = slots.remove(0);
            proof {
                assert(rest.len() > 0);
                assert(n < before.len());
                assert(slot@ == rest[0]);
                assert(before.skip(n)[0] == before[n]);
                assert(rest[0] == before[n]);
                assert(slot_views(slots@) =~= rest.skip(1));
                assert(rest.skip(1) =~= before.skip(n + 1));
                assert(before.take(n + 1).drop_last() =~= before.take(n));
                assert(before.take(n + 1).last() == before[n]);
            }
            let ghost d0 = slot_views(deltas@);
            match slot.kind {
                MetricKind::Gauge | MetricKind::Raw => {
                    keep_one(&mut kept, slot);
                },
                MetricKind::DeltaGauge => {
                    deltas.push(slot);
                    assert(slot_views(deltas@) =~= d0.push(before[n]));
                },
                _ => {},
            }
            proof {
                n = n + 1;
            }
        }
        proof {
            assert(before.take(before.len() as int) =~= before);
        }
        let ghost dv = slot_views(deltas@);
        let ghost kv = slot_views(kept@);
        let ghost mut j: int = 0;
        assert(dv.skip(0) =~= dv);
        assert(dv.take(0) =~= Seq::<SlotView>::empty());
        while deltas.len() > 0
            invariant
                0 <= j <= dv.len(),
                slot_views(deltas@) == dv.skip(j),
                slot_views(kept@) == pushed(kv, dv.take(j)),
            decreases deltas@.len(),
        {
            let ghost rest = slot_views(deltas@);
            assert(rest.len() == deltas@.len());
            let d = deltas.remove(0);
            proof {
                assert(rest.len() > 0);
                assert(j < dv.len());
                assert(d@ == rest[0]);
                assert(dv.skip(j)[0] == dv[j]);
                assert(rest[0] == dv[j]);
                assert(slot_views(deltas@) =~= rest.skip(1));
                assert(rest.skip(1) =~= dv.skip(j + 1));
                assert(dv.take(j + 1).drop_last() =~= dv.take(j));
                assert(dv.take(j + 1).last() == dv[j]);
            }
            push_one(&mut kept, d);
            proof {
                j = j + 1;
            }
        }
        proof {
            assert(dv.take(dv.len() as int) =~= dv);
        }
        self.slots = kept;
    }
}

/// Looks at one more gauge or raw: it takes the place of the kept slot of
/// its series where its bin is later, is let go where it is not, and comes
/// behind where its series has no slot yet.
fn keep_one(kept: &mut Vec<Slot>, slot: Slot)
    ensures
        slot_views(final(kept)@) == kept_one(slot_views(old(kept)@), slot@),
{
    let ghost before = slot_views(kept@);
    let i = find_series(kept, slot.kind, slot.name.as_str(), slot.fingerprint);
    if i < kept.len() {
        if kept[i].bin < slot.bin {
            kept.remove(i);
            kept.insert(i, slot);
            assert(slot_views(kept@) =~= before.update(i as int, slot@));
        }
    } else {
        kept.push(slot);
        assert(slot_views(kept@) =~= before.push(slot@));
    }
}

/// Pushes one delta gauge into the carried slots.
fn push_one(kept: &mut Vec<Slot>, d: Slot)
    ensures
        slot_views(final(kept)@) == pushed_one(slot_views(old(kept)@), d@),
{
    let ghost g = slot_views(kept@);
    let i = find_series(kept, MetricKind::Gauge, d.name.as_str(), d.fingerprint);
    if i < kept.len() {
        let gauge = kept.remove(i);
        let Slot { kind, name, fingerprint, bin, tags, total, samples } = gauge;
        let merged = Slot {
            kind,
            name,
            fingerprint,
            bin,
            tags,
            total: clamped_add(total, d.total),
            samples,
        };
        kept.insert(i, merged);
        assert(slot_views(kept@) =~= pushed_one(g, d@));
    } else {
        let Slot { kind: _, name, fingerprint, bin, tags, total, samples: _ } = d;
        let made = Slot {
            kind: MetricKind::Gauge,
            name,
            fingerprint,
            bin,
            tags,
            total,
            samples: QuantileSummary::new(),
        };
        kept.push(made);
        assert(slot_views(kept@) =~= pushed_one(g, d@));
    }
}

/// The place of the first slot of this series in `slots`, or their number
/// where there is none.
fn find_series(slots: &Vec<Slot>, kind: MetricKind, name: &str, fingerprint: u64) -> (i: usize)
    ensures
        i == seek_series(slot_views(slots@), Series { kind, name: name@, fingerprint }, 0),
        i <= slots@.len(),
{
    let ghost sr = Series { kind, name: name@, fingerprint };
    let ghost sv = slot_views(slots@);
    let wanted = name.to_owned();
    let mut i: usize = 0;
    while i < slots.len()
        invariant
            i <= slots@.len(),
            sv == slot_views(slots@),
            wanted@ == name@,
            sr == (Series { kind, name: name@, fingerprint }),
            forall|j: int| 0 <= j < i ==> series_of(#[trigger] sv[j]) != sr,
        decreases slots@.len() - i,
    {
        let s = &slots[i];
        assert(sv[i as int] == s@);
        if s.kind == kind && s.fingerprint == fingerprint && s.name == wanted {
            proof {
                assert(series_of(sv[i as int]) =~= sr);
                lemma_seek_series_is(sv, sr, i as int);
            }
            return i;
        }
        i = i + 1;
    }
    proof {
        lemma_seek_series_is(sv, sr, i as int);
    }
    i
}

/// The place of the slot with this key in `slots`, or their number where
/// there is none.
fn find_slot(slots: &Vec<Slot>, kind: MetricKind, name: &str, fingerprint: u64, bin: i64) -> (i:
    usize)
    ensures
        i == seek(slot_views(slots@), Key { kind, name: name@, fingerprint, bin }, 0),
        i <= slots@.len(),
{
    let ghost k = Key { kind, name: name@, fingerprint, bin };
    let ghost sv = slot_views(slots@);
    let wanted = name.to_owned();
    let mut i: usize = 0;
    while i < slots.len()
        invariant
            i <= slots@.len(),
            sv == slot_views(slots@),
            wanted@ == name@,
            k == (Key { kind, name: name@, fingerprint, bin }),
            forall|j: int| 0 <= j < i ==> (#[trigger] sv[j]).key != k,
        decreases slots@.len() - i,
    {
        let s = &slots[i];
        assert(sv[i as int] == s@);
        if s.kind == kind && s.fingerprint == fingerprint && s.bin == bin && s.name == wanted {
            proof {
                assert(sv[i as int].key =~= k);
                lemma_seek_is(sv, k, i as int);
            }
            return i;
        }
        i = i + 1;
    }
    proof {
        lemma_seek_is(sv, k, i as int);
    }
    i
}

/// The slot after it has taken in a metric with the samples `value`.
fn absorb(slot: Slot, value: &QuantileSummary) -> (r: Slot)
    ensures
        r@.key == slot@.key,
        r@.tags == slot@.tags,
        r@.total == (match slot@.key.kind {
            MetricKind::Counter | MetricKind::DeltaGauge => clamp(
                slot@.total + total(value.samples()),
            ),
            MetricKind::Gauge | MetricKind::Raw => if value.newest() is Some {
                value.newest().unwrap() as int
            } else {
                slot@.total
            },
            MetricKind::Timer | MetricKind::Histogram => slot@.total,
        }),
        r@.samples == (match slot@.key.kind {
            MetricKind::Timer | MetricKind::Histogram => with_samples(
                slot@.samples,
                value.samples(),
            ),
            _ => slot@.samples,
        }),
{
    let Slot { kind, name, fingerprint, bin, tags, total, samples } = slot;
    match kind {
        MetricKind::Counter | MetricKind::DeltaGauge => Slot {
            kind,
            name,
            fingerprint,
            bin,
            tags,
            total: clamped_add(total, value.sum()),
            samples,
        },
        MetricKind::Gauge | MetricKind::Raw => {
            let last: i128 = match value.last() {
                Some(x) => x as i128,
                None => total,
            };
            Slot { kind, name, fingerprint, bin, tags, total: last, samples }
        },
        MetricKind::Timer | MetricKind::Histogram => {
            let mut samples = samples;
            samples.union(value);
            Slot { kind, name, fingerprint, bin, tags, total, samples }
        },
    }
}

} // verus!
