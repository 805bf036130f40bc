//! The quantile summary: every sample that was put in, kept in rising
//! order, with the sum of them all and the sample that came last.
//!
//! Samples are fixed-point numbers held in an `i64`; the summary does not
//! care about the unit. A quantile is asked for in millionths.

use vstd::prelude::*;

verus! {

/// The number of parts in which a quantile is given: `QUANTILE_ONE` asks
/// for the largest sample, `0` for the smallest.
pub const QUANTILE_ONE: u32 = 1_000_000;

/// Whether `s` rises, equal neighbours allowed.
pub open spec fn rising(s: Seq<i64>) -> bool {
    forall|i: int, j: int| 0 <= i <= j < s.len() ==> s[i] <= s[j]
}

/// The sum of the numbers of `s`.
pub open spec fn total(s: Seq<i64>) -> int
    decreases s.len(),
{
    if s.len() == 0 {
        0
    } else {
        total(s.drop_last()) + s.last()
    }
}

/// How many of the numbers of `s` are no larger than `x`: in a rising run,
/// the place behind the last of them.
pub open spec fn count_le(s: Seq<i64>, x: i64) -> int
    decreases s.len(),
{
    if s.len() == 0 {
        0
    } else {
        count_le(s.drop_last(), x) + if s.last() <= x {
            1int
        } else {
            0int
        }
    }
}

/// The run `s` with `x` put in behind the samples that are no larger.
pub open spec fn with_sample(s: Seq<i64>, x: i64) -> Seq<i64> {
    s.insert(count_le(s, x), x)
}

/// The run `s` with the samples of `t` put in one after the other.
pub open spec fn with_samples(s: Seq<i64>, t: Seq<i64>) -> Seq<i64>
    decreases t.len(),
{
    if t.len() == 0 {
        s
    } else {
        with_sample(with_samples(s, t.drop_last()), t.last())
    }
}

/// The place, among `n` samples in rising order, of the sample that
/// answers for the quantile of `q` millionths: the smallest place such that
/// at least `q` millionths of the samples stand at or before it.
pub open spec fn rank_of(q: u32, n: nat) -> int {
    if q as int * n as int <= 0 {
        0
    } else {
        (q as int * n as int + QUANTILE_ONE as int - 1) / (QUANTILE_ONE as int) - 1
    }
}

/// In a rising run the samples no larger than `x` are exactly those before
/// place `count_le`.
pub proof fn lemma_count_le(s: Seq<i64>, x: i64)
    requires
        rising(s),
    ensures
        0 <= count_le(s, x) <= s.len(),
        forall|i: int| 0 <= i < count_le(s, x) ==> s[i] <= x,
        forall|i: int| count_le(s, x) <= i < s.len() ==> s[i] > x,
    decreases s.len(),
{
    if s.len() > 0 {
        let t = s.drop_last();
        assert(rising(t)) by {
            assert forall|i: int, j: int| 0 <= i <= j < t.len() implies t[i] <= t[j] by {
                assert(t[i] == s[i] && t[j] == s[j]);
            }
        }
        lemma_count_le(t, x);
        let c = count_le(t, x);
        if s.last() <= x {
            assert forall|i: int| 0 <= i < t.len() implies t[i] <= x by {
                assert(t[i] == s[i]);
                assert(s[i] <= s[s.len() - 1]);
            }
            if c < t.len() {
                assert(t[c] > x);
            }
            assert(c == t.len());
        } else {
            assert forall|i: int| 0 <= i < c implies s[i] <= x by {
                assert(t[i] == s[i]);
            }
            assert forall|i: int| c <= i < s.len() implies s[i] > x by {
                if i < t.len() {
                    assert(t[i] == s[i]);
                }
            }
        }
    }
}

/// Putting a number into a run adds it to the sum.
pub proof fn lemma_total_insert(s: Seq<i64>, i: int, x: i64)
    requires
        0 <= i <= s.len(),
    ensures
        total(s.insert(i, x)) == total(s) + x,
    decreases s.len() - i,
{
    let t = s.insert(i, x);
    if i == s.len() {
        assert(t.drop_last() =~= s);
    } else {
        lemma_total_insert(s.drop_last(), i, x);
        assert(t.drop_last() =~= s.drop_last().insert(i, x));
        assert(t.last() == s.last());
    }
}

/// The sum of `n` samples lies within `n` times the range of a sample.
pub proof fn lemma_total_bound(s: Seq<i64>)
    ensures
        s.len() * (i64::MIN as int) <= total(s) <= s.len() * (i64::MAX as int),
    decreases s.len(),
{
    if s.len() > 0 {
        lemma_total_bound(s.drop_last());
        assert(s.len() * (i64::MIN as int) == (s.len() - 1) * (i64::MIN as int) + (i64::MIN as int))
            by (nonlinear_arith);
        assert(s.len() * (i64::MAX as int) == (s.len() - 1) * (i64::MAX as int) + (i64::MAX as int))
            by (nonlinear_arith);
    }
}

/// A rising run with one more sample put in rises.
pub proof fn lemma_with_sample_rising(s: Seq<i64>, x: i64)
    requires
        rising(s),
    ensures
        rising(with_sample(s, x)),
        with_sample(s, x).len() == s.len() + 1,
        total(with_sample(s, x)) == total(s) + x,
{
    lemma_count_le(s, x);
    let c = count_le(s, x);
    let t = with_sample(s, x);
    lemma_total_insert(s, c, x);
    assert forall|i: int, j: int| 0 <= i <= j < t.len() implies t[i] <= t[j] by {
        let a = if i < c {
            s[i]
        } else if i == c {
            x
        } else {
            s[i - 1]
        };
        assert(t[i] == a);
        if j < c {
            assert(t[j] == s[j]);
        } else if j == c {
        } else {
            assert(t[j] == s[j - 1]);
            if i < c {
                assert(s[i] <= x);
                assert(s[j - 1] > x);
            }
        }
    }
}

/// A rising run with more samples put in rises, and the sum grows by
/// theirs.
pub proof fn lemma_with_samples(s: Seq<i64>, t: Seq<i64>)
    requires
        rising(s),
    ensures
        rising(with_samples(s, t)),
        with_samples(s, t).len() == s.len() + t.len(),
        total(with_samples(s, t)) == total(s) + total(t),
    decreases t.len(),
{
    if t.len() > 0 {
        lemma_with_samples(s, t.drop_last());
        lemma_with_sample_rising(with_samples(s, t.drop_last()), t.last());
    }
}

/// The place that `rank_of` names lies among the samples, the first for
/// quantile zero and the last for quantile one.
pub proof fn lemma_rank_of(q: u32, n: nat)
    requires
        q <= QUANTILE_ONE,
        n > 0,
    ensures
        0 <= rank_of(q, n) < n,
        rank_of(0, n) == 0,
        rank_of(QUANTILE_ONE, n) == n - 1,
        rank_of(q, n) * 1_000_000 < q * n || q == 0,
        q * n <= (rank_of(q, n) + 1) * 1_000_000,
{
    let m = QUANTILE_ONE as int;
    assert(m == 1_000_000);
    let p = q as int * n as int;
    assert(0 <= p <= m * n) by (nonlinear_arith)
        requires
            0 <= q <= m,
            n > 0,
            p == q as int * n as int,
    ;
    assert(q > 0 ==> p > 0) by (nonlinear_arith)
        requires
            n > 0,
            p == q as int * n as int,
    ;
    if p > 0 {
        let d = (p + m - 1) / m;
        assert(1 <= d <= n && (d - 1) * m < p <= d * m) by (nonlinear_arith)
            requires
                0 < p <= m * n,
                m == 1_000_000,
                d == (p + m - 1) / m,
        ;
    }
    assert((m * n + m - 1) / m == n) by (nonlinear_arith)
        requires
            m == 1_000_000,
            n > 0,
    ;
    assert(m * n > 0) by (nonlinear_arith)
        requires
            m == 1_000_000,
            n > 0,
    ;
}

/// A summary of the samples of one metric or one bucket. The summary is
/// exact: it keeps every sample that was put in, so a quantile is a sample
/// at its exact rank, and the memory it takes grows with the number of
/// samples.
#[derive(Debug, PartialEq, Eq)]
pub struct QuantileSummary {
    sorted: Vec<i64>,
    sum: i128,
    last: Option<i64>,
}

impl QuantileSummary {
    /// The samples in rising order.
    pub closed spec fn samples(&self) -> Seq<i64> {
        self.sorted@
    }

    /// The sample that was put in last.
    pub closed spec fn newest(&self) -> Option<i64> {
        self.last
    }

    /// What holds of every summary: the samples rise, the sum held is
    /// theirs, and a sample came last if and only if there is one.
    #[verifier::type_invariant]
    pub closed spec fn wf(&self) -> bool {
        &&& rising(self.sorted@)
        &&& self.sum == total(self.sorted@)
        &&& self.last is Some <==> self.sorted@.len() > 0
    }

    /// What `wf` says, for those who cannot see into the summary.
    pub proof fn lemma_wf(&self)
        requires
            self.wf(),
        ensures
            rising(self.samples()),
            self.newest() is Some <==> self.samples().len() > 0,
    {
    }

    /// The summary of no sample.
    pub fn new() -> (s: QuantileSummary)
        ensures
            s.samples() == Seq::<i64>::empty(),
            s.newest() is None,
    {
        QuantileSummary { sorted: Vec::new(), sum: 0, last: None }
    }

    /// The summary that holds the samples `samples` and has `last` for the
    /// sample that came last. `None` where the samples do not rise, or
    /// where `last` is there without a sample or missing with one.
    pub fn from_parts(samples: Vec<i64>, last: Option<i64>) -> (r: Option<QuantileSummary>)
        ensures
            r is Some <==> rising(samples@) && (last is Some <==> samples@.len() > 0),
            r is Some ==> r.unwrap().samples() == samples@ && r.unwrap().newest() == last,
    {
        let n = samples.len();
        if last.is_some() != (n > 0) {
            return None;
        }
        let ghost s = samples@;
        let mut sum: i128 = 0;
        let mut i: usize = 0;
        while i < n
            invariant
                i <= n,
                n == s.len(),
                s == samples@,
                rising(s.take(i as int)),
                sum == total(s.take(i as int)),
            decreases n - i,
        {
            let ghost t = s.take(i + 1);
            proof {
                assert(t.drop_last() =~= s.take(i as int));
                assert(t.last() == s[i as int]);
                lemma_total_bound(s.take(i as int));
                assert(i * (i64::MIN as int) >= (usize::MAX - 1) * (i64::MIN as int))
                    by (nonlinear_arith)
                    requires
                        i <= usize::MAX - 1,
                ;
                assert(i * (i64::MAX as int) <= (usize::MAX - 1) * (i64::MAX as int))
                    by (nonlinear_arith)
                    requires
                        i <= usize::MAX - 1,
                ;
            }
            if i > 0 && samples[i - 1] > samples[i] {
                proof {
                    if rising(s) {
                        assert(s[i - 1] <= s[i as int]);
                    }
                }
                return None;
            }
            proof {
                assert forall|a: int, b: int| 0 <= a <= b < t.len() implies t[a] <= t[b] by {
                    if b < i {
                        assert(s.take(i as int)[a] <= s.take(i as int)[b]);
                    } else if a < i {
                        assert(s.take(i as int)[a] <= s.take(i as int)[i - 1]);
                    }
                }
            }
            sum = sum + samples[i] as i128;
            i = i + 1;
        }
        proof {
            assert(s.take(n as int) =~= s);
        }
        Some(QuantileSummary { sorted: samples, sum, last })
    }

    /// Puts the sample `x` in. Every sample is kept: the summary holds one
    /// sample more than before.
    pub fn insert(&mut self, x: i64)
        ensures
            final(self).samples() == with_sample(old(self).samples(), x),
            final(self).samples().len() == old(self).samples().len() + 1,
            final(self).newest() == Some(x),
    {
        proof {
            use_type_invariant(&*self);
            lemma_count_le(self.sorted@, x);
            lemma_with_sample_rising(self.sorted@, x);
            lemma_total_bound(self.sorted@);
        }
        let ghost s = self.sorted@;
        let mut taken = QuantileSummary::new();
        std::mem::swap(self, &mut taken);
        let QuantileSummary { sorted, sum, last: _ } = taken;
        let mut sorted = sorted;
        let mut i: usize = 0;
        while i < sorted.len() && sorted[i] <= x
            invariant
                sorted@ == s,
                0 <= count_le(s, x) <= s.len(),
                i <= count_le(s, x),
                forall|j: int| 0 <= j < count_le(s, x) ==> s[j] <= x,
                forall|j: int| count_le(s, x) <= j < s.len() ==> s[j] > x,
            decreases s.len() - i,
        {
            i = i + 1;
        }
        assert(i == count_le(s, x));
        sorted.insert(i, x);
        let grown: usize = sorted.len();
        proof {
            assert(s.len() + 1 == grown);
            assert(s.len() * (i64::MIN as int) >= (usize::MAX - 1) * (i64::MIN as int))
                by (nonlinear_arith)
                requires
                    s.len() <= usize::MAX - 1,
            ;
            assert(s.len() * (i64::MAX as int) <= (usize::MAX - 1) * (i64::MAX as int))
                by (nonlinear_arith)
                requires
                    s.len() <= usize::MAX - 1,
            ;
        }
        *self = QuantileSummary { sorted, sum: sum + x as i128, last: Some(x) };
    }

    /// The number of samples.
    pub fn count(&self) -> (n: u64)
        ensures
            n == self.samples().len(),
    {
        self.sorted.len() as u64
    }

    /// The sum of the samples.
    pub fn sum(&self) -> (t: i128)
        ensures
            t == total(self.samples()),
    {
        proof {
            use_type_invariant(self);
        }
        self.sum
    }

    /// The sample that was put in last, if there is any.
    pub fn last(&self) -> (r: Option<i64>)
        ensures
            r == self.newest(),
            r is Some <==> self.samples().len() > 0,
    {
        proof {
            use_type_invariant(self);
        }
        self.last
    }

    /// The samples in rising order, as a vector.
    pub fn to_vec(&self) -> (v: Vec<i64>)
        ensures
            v@ == self.samples(),
    {
        let mut v: Vec<i64> = Vec::new();
        let mut i: usize = 0;
        while i < self.sorted.len()
            invariant
                i <= self.sorted@.len(),
                v@ == self.sorted@.take(i as int),
            decreases self.sorted@.len() - i,
        {
            v.push(self.sorted[i]);
            assert(v@ =~= self.sorted@.take(i + 1));
            i = i + 1;
        }
        assert(self.sorted@.take(self.sorted@.len() as int) =~= self.sorted@);
        v
    }

    /// The quantile of `q` millionths: the sample at place `rank_of` in
    /// rising order, so `0` gives the smallest sample and `QUANTILE_ONE` the
    /// largest. `None` when there is no sample or `q` is more than
    /// `QUANTILE_ONE`.
    pub fn query(&self, q: u32) -> (r: Option<i64>)
        ensures
            r is Some <==> self.samples().len() > 0 && q <= QUANTILE_ONE,
            r is Some ==> r.unwrap() == self.samples()[rank_of(q, self.samples().len())],
    {
        let n = self.sorted.len();
        if n == 0 || q > QUANTILE_ONE {
            return None;
        }
        proof {
            lemma_rank_of(q, n as nat);
        }
        let p: u128 = q as u128 * n as u128;
        if p == 0 {
            return Some(self.sorted[0]);
        }
        let d: u128 = (p + 999_999) / 1_000_000;
        let idx: usize = (d - 1) as usize;
        Some(self.sorted[idx])
    }

    /// Puts every sample of `other` in. The sample that came last is that
    /// of `other`, if `other` has any.
    pub fn union(&mut self, other: &QuantileSummary)
        ensures
            final(self).samples() == with_samples(old(self).samples(), other.samples()),
            final(self).newest() == (if other.newest() is Some {
                other.newest()
            } else {
                old(self).newest()
            }),
    {
        proof {
            use_type_invariant(other);
            use_type_invariant(&*self);
        }
        let ghost start = self.samples();
        let ghost first = self.newest();
        let ghost t = other.samples();
        let newest = match other.last {
            Some(x) => Some(x),
            None => self.last,
        };
        let mut i: usize = 0;
        while i < other.sorted.len()
            invariant
                t == other.samples(),
                t == other.sorted@,
                i <= t.len(),
                self.samples() == with_samples(start, t.take(i as int)),
                i == 0 ==> self.newest() == first,
            decreases t.len() - i,
        {
            proof {
                assert(t.take(i + 1).drop_last() =~= t.take(i as int));
            }
            self.insert(other.sorted[i]);
            i = i + 1;
        }
        proof {
            assert(t.take(t.len() as int) =~= t);
            use_type_invariant(&*self);
            lemma_with_samples(start, t);
        }
        let mut taken = QuantileSummary::new();
        std::mem::swap(self, &mut taken);
        let QuantileSummary { sorted, sum, last: _ } = taken;
        proof {
            if sorted@.len() == 0 {
                assert(t.len() == 0 && start.len() == 0);
            }
        }
        *self = QuantileSummary { sorted, sum, last: newest };
    }
}

impl Clone for QuantileSummary {
    fn clone(&self) -> (s: QuantileSummary)
        ensures
            s.samples() == self.samples(),
            s.newest() == self.newest(),
    {
        proof {
            use_type_invariant(self);
        }
        let mut sorted: Vec<i64> = Vec::new();
        let mut i: usize = 0;
        while i < self.sorted.len()
            invariant
                i <= self.sorted@.len(),
                sorted@ == self.sorted@.take(i as int),
            decreases self.sorted@.len() - i,
        {
            sorted.push(self.sorted[i]);
            assert(sorted@ =~= self.sorted@.take(i + 1));
            i = i + 1;
        }
        assert(self.sorted@.take(self.sorted@.len() as int) =~= self.sorted@);
        QuantileSummary { sorted, sum: self.sum, last: self.last }
    }
}

} // verus!
