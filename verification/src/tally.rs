//! The tally of a technique's runs.

use crate::measure::{LoopStat, Sample};
use crate::report;
use crate::report::RunResult;
use crate::sorting;
use vstd::prelude::*;

verus! {

/// The number of latencies of a sample.
pub const METRICS: usize = 9;

/// The places, in the sorted latencies of a run, of the percentiles that are
/// reported.
#[derive(Clone, Copy, Debug, PartialEq, Eq)]
pub struct Ranks {
    pub p50: usize,
    pub p99: usize,
    pub p999: usize,
}

/// What was noted of the runs of a technique so far: one value for each run, and
/// sums over the runs.
pub struct Tally {
    /// The medians of the runs, metric by metric.
    pub p50: Vec<Vec<u64>>,
    pub p99: Vec<Vec<u64>>,
    pub p999: Vec<Vec<u64>>,
    /// The most orders in flight in each run.
    pub peaks: Vec<u64>,
    /// How many in-flight counts each run has.
    pub inflight_n: Vec<u64>,
    pub stalls_10ms: u32,
    pub worst_gap: u64,
    pub full_total: u64,
}

/// The values of one metric.
pub open spec fn column(samples: Seq<Sample>, metric: int) -> Seq<u64> {
    samples.map_values(|s: Sample| s.vals[metric])
}

/// The percentile of a metric that stands at `rank`.
pub open spec fn percentile(samples: Seq<Sample>, metric: int, rank: usize) -> u64 {
    report::ranked(sorting::sorted(column(samples, metric)), rank as int)
}

/// `after` has, for each metric, what `before` has and the percentile of one
/// more run.
pub open spec fn extended(
    before: Seq<Vec<u64>>,
    after: Seq<Vec<u64>>,
    samples: Seq<Sample>,
    rank: usize,
) -> bool {
    &&& after.len() == METRICS
    &&& forall|i: int|
        0 <= i < METRICS ==> (#[trigger] after[i])@ == before[i]@.push(percentile(samples, i, rank))
}

/// The stalls of all threads.
pub open spec fn stalls(stats: Seq<(String, LoopStat)>) -> int
    decreases stats.len(),
{
    if stats.len() == 0 {
        0
    } else {
        stalls(stats.drop_last()) + stats.last().1.over_10ms
    }
}

/// The largest of `worst` and the gaps of all threads.
pub open spec fn worst_of(worst: u64, stats: Seq<(String, LoopStat)>) -> u64
    decreases stats.len(),
{
    if stats.len() == 0 {
        worst
    } else {
        let w = worst_of(worst, stats.drop_last());
        let g = stats.last().1.max_gap_ns;
        if g > w {
            g
        } else {
            w
        }
    }
}

/// The stalls of some threads never exceed those of all.
proof fn lemma_stalls_grow(stats: Seq<(String, LoopStat)>, k: int)
    requires
        0 <= k <= stats.len(),
    ensures
        stalls(stats.take(k)) <= stalls(stats),
    decreases stats.len() - k,
{
    if k < stats.len() {
        lemma_stalls_grow(stats, k + 1);
        assert(stats.take(k + 1).drop_last() =~= stats.take(k));
    } else {
        assert(stats.take(k) =~= stats);
    }
}

/// The values of one metric, sorted.
fn sorted_column(samples: &Vec<Sample>, metric: usize) -> (v: Vec<u64>)
    requires
        metric < METRICS,
    ensures
        v@ == sorting::sorted(column(samples@, metric as int)),
        v.len() == samples.len(),
{
    let mut v: Vec<u64> = Vec::new();
    let mut i: usize = 0;
    while i < samples.len()
        invariant
            metric < METRICS,
            i <= samples.len(),
            v@ == column(samples@, metric as int).take(i as int),
        decreases samples.len() - i,
    {
        v.push(samples[i].vals[metric]);
        assert(v@ == column(samples@, metric as int).take(i + 1));
        i += 1;
    }
    assert(v@ == column(samples@, metric as int));
    proof {
        sorting::lemma_sorted(v@);
    }
    sorting::sort_unstable(v.as_mut_slice());
    v
}

impl Tally {
    /// There is a list for each metric.
    pub open spec fn wf(self) -> bool {
        &&& self.p50.len() == METRICS
        &&& self.p99.len() == METRICS
        &&& self.p999.len() == METRICS
    }

    /// This tally after one more run.
    pub open spec fn noted(self, after: Tally, r: RunResult, ranks: Ranks) -> bool {
        &&& extended(self.p50@, after.p50@, r.samples@, ranks.p50)
        &&& extended(self.p99@, after.p99@, r.samples@, ranks.p99)
        &&& extended(self.p999@, after.p999@, r.samples@, ranks.p999)
        &&& after.peaks@ == self.peaks@.push(report::peak(r.inflight@) as u64)
        &&& after.inflight_n@ == self.inflight_n@.push(r.inflight.len() as u64)
        &&& after.stalls_10ms == self.stalls_10ms + stalls(r.loopstats@)
        &&& after.worst_gap == worst_of(self.worst_gap, r.loopstats@)
        &&& after.full_total == self.full_total + r.full_events
    }

    /// The tally of no run.
    pub fn new() -> (t: Tally)
        ensures
            t.wf(),
            forall|i: int| 0 <= i < METRICS ==> (#[trigger] t.p50[i])@ == Seq::<u64>::empty(),
            forall|i: int| 0 <= i < METRICS ==> (#[trigger] t.p99[i])@ == Seq::<u64>::empty(),
            forall|i: int| 0 <= i < METRICS ==> (#[trigger] t.p999[i])@ == Seq::<u64>::empty(),
            t.peaks@ == Seq::<u64>::empty(),
            t.inflight_n@ == Seq::<u64>::empty(),
            t.stalls_10ms == 0,
            t.worst_gap == 0,
            t.full_total == 0,
    {
        Tally {
            p50: empty_lists(),
            p99: empty_lists(),
            p999: empty_lists(),
            peaks: Vec::new(),
            inflight_n: Vec::new(),
            stalls_10ms: 0,
            worst_gap: 0,
            full_total: 0,
        }
    }

    /// Notes one more run.
    pub fn note(&mut self, r: &RunResult, ranks: Ranks)
        requires
            old(self).wf(),
            r.samples.len() > 0 ==> ranks.p50 < r.samples.len() && ranks.p99 < r.samples.len()
                && ranks.p999 < r.samples.len(),
            old(self).stalls_10ms + stalls(r.loopstats@) <= u32::MAX,
            old(self).full_total + r.full_events <= u64::MAX,
        ensures
            final(self).wf(),
            old(self).noted(*final(self), *r, ranks),
    {
        let ghost before = *self;
        let mut i: usize = 0;
        while i < METRICS
            invariant
                i <= METRICS,
                r.samples.len() > 0 ==> ranks.p50 < r.samples.len() && ranks.p99
                    < r.samples.len() && ranks.p999 < r.samples.len(),
                before.wf(),
                self.wf(),
                forall|j: int|
                    0 <= j < METRICS ==> (#[trigger] self.p50[j])@ == if j < i {
                        before.p50[j]@.push(percentile(r.samples@, j, ranks.p50))
                    } else {
                        before.p50[j]@
                    },
                forall|j: int|
                    0 <= j < METRICS ==> (#[trigger] self.p99[j])@ == if j < i {
                        before.p99[j]@.push(percentile(r.samples@, j, ranks.p99))
                    } else {
                        before.p99[j]@
                    },
                forall|j: int|
                    0 <= j < METRICS ==> (#[trigger] self.p999[j])@ == if j < i {
                        before.p999[j]@.push(percentile(r.samples@, j, ranks.p999))
                    } else {
                        before.p999[j]@
                    },
                self.peaks == before.peaks,
                self.inflight_n == before.inflight_n,
                self.stalls_10ms == before.stalls_10ms,
                self.worst_gap == before.worst_gap,
                self.full_total == before.full_total,
            decreases METRICS - i,
        {
            let col = sorted_column(&r.samples, i);
            self.p50[i].push(report::pct(col.as_slice(), ranks.p50));
            self.p99[i].push(report::pct(col.as_slice(), ranks.p99));
            self.p999[i].push(report::pct(col.as_slice(), ranks.p999));
            i += 1;
        }
        self.peaks.push(report::peak_of(&r.inflight) as u64);
        self.inflight_n.push(r.inflight.len() as u64);
        let (stalls_10ms, worst_gap) = total_stats(&r.loopstats, self.stalls_10ms, self.worst_gap);
        self.stalls_10ms = stalls_10ms;
        self.worst_gap = worst_gap;
        self.full_total += r.full_events;
    }
}

/// Adds the stalls of all threads to `count`, and finds the largest of `worst`
/// and their gaps.
fn total_stats(stats: &Vec<(String, LoopStat)>, count: u32, worst: u64) -> (r: (u32, u64))
    requires
        count + stalls(stats@) <= u32::MAX,
    ensures
        r.0 == count + stalls(stats@),
        r.1 == worst_of(worst, stats@),
{
    let mut n = count;
    let mut w = worst;
    let mut k: usize = 0;
    while k < stats.len()
        invariant
            k <= stats.len(),
            count + stalls(stats@) <= u32::MAX,
            n == count + stalls(stats@.take(k as int)),
            w == worst_of(worst, stats@.take(k as int)),
        decreases stats.len() - k,
    {
        proof {
            assert(stats@.take(k + 1).drop_last() == stats@.take(k as int));
            lemma_stalls_grow(stats@, k + 1);
        }
        n += stats[k].1.over_10ms;
        if stats[k].1.max_gap_ns > w {
            w = stats[k].1.max_gap_ns;
        }
        k += 1;
    }
    assert(stats@.take(stats.len() as int) == stats@);
    (n, w)
}

/// One empty list for each metric.
fn empty_lists() -> (v: Vec<Vec<u64>>)
    ensures
        v.len() == METRICS,
        forall|i: int| 0 <= i < METRICS ==> (#[trigger] v[i])@ == Seq::<u64>::empty(),
{
    let mut v: Vec<Vec<u64>> = Vec::new();
    let mut i: usize = 0;
    while i < METRICS
        invariant
            i <= METRICS,
            v.len() == i,
            forall|j: int| 0 <= j < i ==> (#[trigger] v[j])@ == Seq::<u64>::empty(),
        decreases METRICS - i,
    {
        v.push(Vec::new());
        i += 1;
    }
    v
}

/// One line of a report: the medians, over the runs, of a metric's percentiles.
#[derive(Clone, Copy, Debug, PartialEq, Eq)]
pub struct Row {
    pub p50: u64,
    pub p99: u64,
    pub p999: u64,
}

/// The least and the largest of the runs' values.
#[derive(Clone, Copy, Debug, PartialEq, Eq)]
pub struct Spread {
    pub low: u64,
    pub high: u64,
}

/// What is reported of a technique.
#[derive(Debug, PartialEq, Eq)]
pub struct Summary {
    /// A row for each metric.
    pub rows: Vec<Row>,
    /// The median of the runs' in-flight peaks.
    pub peak_med: u64,
    /// The largest of the runs' in-flight peaks.
    pub peak_max: u64,
    /// The median number of in-flight counts.
    pub inflight_n: u64,
    /// How far the medians of the last metric are apart.
    pub spread_p50: Spread,
    pub spread_p99: Spread,
    pub stalls_10ms: u32,
    pub worst_gap: u64,
    pub full_total: u64,
}

/// The least number; zero where there is none.
pub open spec fn lowest(s: Seq<u64>) -> u64 {
    report::ranked(sorting::sorted(s), 0)
}

/// The largest number; zero where there is none.
pub open spec fn highest(s: Seq<u64>) -> u64 {
    report::ranked(sorting::sorted(s), s.len() - 1)
}

/// The spread of sorted numbers.
fn spread(v: &Vec<u64>) -> (r: Spread)
    ensures
        r.low == report::ranked(v@, 0),
        r.high == report::ranked(v@, v.len() - 1),
{
    if v.len() == 0 {
        Spread { low: 0, high: 0 }
    } else {
        Spread { low: v[0], high: v[v.len() - 1] }
    }
}

/// The median of each list; each list is left sorted.
fn medians(v: &mut Vec<Vec<u64>>) -> (r: Vec<u64>)
    requires
        old(v).len() == METRICS,
    ensures
        final(v).len() == METRICS,
        r.len() == METRICS,
        forall|i: int|
            0 <= i < METRICS ==> (#[trigger] final(v)[i])@ == sorting::sorted(old(v)[i]@),
        forall|i: int| 0 <= i < METRICS ==> #[trigger] r[i] == report::middle(old(v)[i]@),
{
    let ghost before = v@;
    let mut r: Vec<u64> = Vec::new();
    let mut i: usize = 0;
    while i < METRICS
        invariant
            i <= METRICS,
            before.len() == METRICS,
            v.len() == METRICS,
            r.len() == i,
            forall|j: int|
                0 <= j < METRICS ==> (#[trigger] v[j])@ == if j < i {
                    sorting::sorted(before[j]@)
                } else {
                    before[j]@
                },
            forall|j: int| 0 <= j < i ==> #[trigger] r[j] == report::middle(before[j]@),
        decreases METRICS - i,
    {
        let x = report::median(v[i].as_mut_slice());
        r.push(x);
        i += 1;
    }
    r
}

impl Tally {
    /// What is reported of the runs.
    pub fn summarize(self) -> (r: Summary)
        requires
            self.wf(),
        ensures
            r.rows.len() == METRICS,
            forall|i: int|
                0 <= i < METRICS ==> {
                    &&& (#[trigger] r.rows[i]).p50 == report::middle(self.p50[i]@)
                    &&& r.rows[i].p99 == report::middle(self.p99[i]@)
                    &&& r.rows[i].p999 == report::middle(self.p999[i]@)
                },
            r.peak_med == report::middle(self.peaks@),
            r.peak_max == highest(self.peaks@),
            r.inflight_n == report::middle(self.inflight_n@),
            r.spread_p50.low == lowest(self.p50[8]@),
            r.spread_p50.high == highest(self.p50[8]@),
            r.spread_p99.low == lowest(self.p99[8]@),
            r.spread_p99.high == highest(self.p99[8]@),
            r.stalls_10ms == self.stalls_10ms,
            r.worst_gap == self.worst_gap,
            r.full_total == self.full_total,
    {
        let mut t = self;
        proof {
            sorting::lemma_sorted(self.p50[8]@);
            sorting::lemma_sorted(self.p99[8]@);
            sorting::lemma_sorted(self.peaks@);
        }
        let p50 = medians(&mut t.p50);
        let p99 = medians(&mut t.p99);
        let p999 = medians(&mut t.p999);
        let mut rows: Vec<Row> = Vec::new();
        let mut i: usize = 0;
        while i < METRICS
            invariant
                i <= METRICS,
                p50.len() == METRICS,
                p99.len() == METRICS,
                p999.len() == METRICS,
                rows.len() == i,
                forall|j: int|
                    0 <= j < i ==> {
                        &&& (#[trigger] rows[j]).p50 == p50[j]
                        &&& rows[j].p99 == p99[j]
                        &&& rows[j].p999 == p999[j]
                    },
            decreases METRICS - i,
        {
            rows.push(Row { p50: p50[i], p99: p99[i], p999: p999[i] });
            i += 1;
        }
        let peak_med = report::median(t.peaks.as_mut_slice());
        let inflight_n = report::median(t.inflight_n.as_mut_slice());
        Summary {
            rows,
            peak_med,
            peak_max: spread(&t.peaks).high,
            inflight_n,
            spread_p50: spread(&t.p50[8]),
            spread_p99: spread(&t.p99[8]),
            stalls_10ms: t.stalls_10ms,
            worst_gap: t.worst_gap,
            full_total: t.full_total,
        }
    }
}

// ---- laws -------------------------------------------------------------------

/// A median lies in the middle: no number before its place in the sorted numbers
/// exceeds it, none from its place on is below it, and of an even count its
/// place is that of the upper of the two in the middle.
pub proof fn law_median_is_the_upper_middle(s: Seq<u64>)
    requires
        s.len() > 0,
    ensures
        sorting::sorted(s).len() == s.len(),
        forall|i: int|
            0 <= i < s.len() as int / 2 ==> #[trigger] sorting::sorted(s)[i] <= report::middle(s),
        forall|i: int|
            s.len() as int / 2 <= i < s.len() ==> report::middle(s) <= #[trigger] sorting::sorted(
                s,
            )[i],
        s.len() % 2 == 0 ==> report::middle(s) == sorting::sorted(s)[s.len() - s.len() as int / 2],
{
    sorting::lemma_sorted(s);
}

/// The spread bounds the runs: each run's value lies within it, and so does
/// their median.
pub proof fn law_spread_bounds_the_runs(s: Seq<u64>)
    ensures
        forall|i: int| 0 <= i < s.len() ==> lowest(s) <= #[trigger] s[i] <= highest(s),
        lowest(s) <= report::middle(s) <= highest(s),
{
    sorting::lemma_sorted(s);
    let t = sorting::sorted(s);
    assert forall|i: int| 0 <= i < s.len() implies lowest(s) <= #[trigger] s[i] <= highest(s) by {
        vstd::seq_lib::to_multiset_contains(s, s[i]);
        vstd::seq_lib::to_multiset_contains(t, s[i]);
        assert(s.contains(s[i]));
        let k = choose|k: int| 0 <= k < t.len() && t[k] == s[i];
        assert(t[0] <= t[k] <= t[t.len() - 1]);
    }
}

/// A higher percentile is never lower: the values of one metric in one run
/// ascend with the ranks.
pub proof fn law_percentiles_ascend(samples: Seq<Sample>, metric: int, low: usize, high: usize)
    requires
        low <= high,
        samples.len() > 0 ==> high < samples.len(),
    ensures
        percentile(samples, metric, low) <= percentile(samples, metric, high),
{
    sorting::lemma_sorted(column(samples, metric));
}

/// As many values of a metric pass as there are samples whose value passes.
proof fn lemma_column_counts(samples: Seq<Sample>, metric: int, f: spec_fn(u64) -> bool)
    ensures
        column(samples, metric).filter(f).len() == samples.filter(
            |s: Sample| f(s.vals[metric]),
        ).len(),
    decreases samples.len(),
{
    reveal_with_fuel(Seq::<_>::filter, 2);
    if samples.len() > 0 {
        lemma_column_counts(samples.drop_last(), metric, f);
        assert(column(samples, metric).drop_last() =~= column(samples.drop_last(), metric));
        assert(column(samples, metric).last() == samples.last().vals[metric]);
    }
}

/// `p` stands at `rank` among the latencies of one metric: some sample has it, at
/// least `rank + 1` samples do not exceed it, and at least as many as from `rank`
/// on are not below it.
pub open spec fn stands_at(samples: Seq<Sample>, metric: int, rank: int, p: u64) -> bool {
    &&& exists|j: int| 0 <= j < samples.len() && (#[trigger] samples[j]).vals[metric] == p
    &&& samples.filter(|s: Sample| s.vals[metric] <= p).len() >= rank + 1
    &&& samples.filter(|s: Sample| s.vals[metric] >= p).len() >= samples.len() - rank
}

/// A percentile of a metric is that metric's latency in some sample of the run. At
/// rank `k`, at least `k + 1` samples do not exceed it in that metric, and at least
/// as many as from rank `k` on are not below it.
pub proof fn law_percentile_has_its_rank(samples: Seq<Sample>, metric: int, rank: usize)
    requires
        0 <= metric < 9,
        rank < samples.len(),
    ensures
        exists|j: int|
            0 <= j < samples.len() && (#[trigger] samples[j]).vals[metric] == percentile(
                samples,
                metric,
                rank,
            ),
        samples.filter(
            |s: Sample| s.vals[metric] <= percentile(samples, metric, rank),
        ).len() >= rank + 1,
        samples.filter(
            |s: Sample| s.vals[metric] >= percentile(samples, metric, rank),
        ).len() >= samples.len() - rank,
{
    let c = column(samples, metric);
    let p = percentile(samples, metric, rank);
    sorting::lemma_sorted(c);
    sorting::law_sorted_numbers_have_ranks(c, rank as int);
    let le = |x: u64| x <= p;
    let ge = |x: u64| x >= p;
    lemma_column_counts(samples, metric, le);
    lemma_column_counts(samples, metric, ge);
    assert((|s: Sample| le(s.vals[metric])) =~= (|s: Sample| s.vals[metric] <= p));
    assert((|s: Sample| ge(s.vals[metric])) =~= (|s: Sample| s.vals[metric] >= p));
    assert(c.contains(p));
    let j = choose|j: int| 0 <= j < c.len() && c[j] == p;
    assert(samples[j].vals[metric] == p);
}

/// Where all samples of a run agree in a metric, each of its percentiles is what
/// they agree on; a run without samples has zeros.
pub proof fn law_percentile_of_equal_samples(
    samples: Seq<Sample>,
    metric: int,
    rank: usize,
    x: u64,
)
    requires
        0 <= metric < 9,
        samples.len() > 0 ==> rank < samples.len(),
        forall|j: int| 0 <= j < samples.len() ==> (#[trigger] samples[j]).vals[metric] == x,
    ensures
        samples.len() > 0 ==> percentile(samples, metric, rank) == x,
        samples.len() == 0 ==> percentile(samples, metric, rank) == 0,
{
    sorting::lemma_sorted(column(samples, metric));
    if samples.len() > 0 {
        law_percentile_has_its_rank(samples, metric, rank);
    }
}

/// Noting a run keeps what was noted of the runs before and adds, for each of the
/// nine metrics and each percentile, a value that stands at that percentile's rank
/// among the run's latencies of that metric; for a run without samples, a zero.
pub proof fn law_note_adds_each_percentile(
    a: Tally,
    b: Tally,
    r: RunResult,
    ranks: Ranks,
    i: int,
)
    requires
        a.noted(b, r, ranks),
        0 <= i < 9,
        r.samples.len() > 0 ==> ranks.p50 < r.samples.len() && ranks.p99 < r.samples.len()
            && ranks.p999 < r.samples.len(),
    ensures
        b.p50.len() == 9,
        b.p99.len() == 9,
        b.p999.len() == 9,
        b.p50[i]@.len() == a.p50[i]@.len() + 1,
        b.p99[i]@.len() == a.p99[i]@.len() + 1,
        b.p999[i]@.len() == a.p999[i]@.len() + 1,
        b.p50[i]@.drop_last() == a.p50[i]@,
        b.p99[i]@.drop_last() == a.p99[i]@,
        b.p999[i]@.drop_last() == a.p999[i]@,
        r.samples.len() > 0 ==> {
            &&& stands_at(r.samples@, i, ranks.p50 as int, b.p50[i]@.last())
            &&& stands_at(r.samples@, i, ranks.p99 as int, b.p99[i]@.last())
            &&& stands_at(r.samples@, i, ranks.p999 as int, b.p999[i]@.last())
        },
        r.samples.len() == 0 ==> b.p50[i]@.last() == 0 && b.p99[i]@.last() == 0
            && b.p999[i]@.last() == 0,
{
    assert(b.p50[i]@ == a.p50[i]@.push(percentile(r.samples@, i, ranks.p50)));
    assert(b.p99[i]@ == a.p99[i]@.push(percentile(r.samples@, i, ranks.p99)));
    assert(b.p999[i]@ == a.p999[i]@.push(percentile(r.samples@, i, ranks.p999)));
    assert(b.p50[i]@.drop_last() =~= a.p50[i]@);
    assert(b.p99[i]@.drop_last() =~= a.p99[i]@);
    assert(b.p999[i]@.drop_last() =~= a.p999[i]@);
    sorting::lemma_sorted(column(r.samples@, i));
    if r.samples.len() > 0 {
        law_percentile_has_its_rank(r.samples@, i, ranks.p50);
        law_percentile_has_its_rank(r.samples@, i, ranks.p99);
        law_percentile_has_its_rank(r.samples@, i, ranks.p999);
    }
}

/// Noting a run adds the largest of its in-flight counts and how many there are,
/// raises the stalls by those of each of its threads, and raises the worst gap to
/// the largest of the threads' gaps where that is larger; the full queues add up.
pub proof fn law_note_adds_the_run(a: Tally, b: Tally, r: RunResult, ranks: Ranks)
    requires
        a.noted(b, r, ranks),
    ensures
        b.peaks@.len() == a.peaks@.len() + 1,
        b.peaks@.drop_last() == a.peaks@,
        forall|j: int| 0 <= j < r.inflight.len() ==> #[trigger] r.inflight[j] <= b.peaks@.last(),
        r.inflight.len() > 0 ==> exists|j: int|
            0 <= j < r.inflight.len() && #[trigger] r.inflight[j] == b.peaks@.last(),
        r.inflight.len() == 0 ==> b.peaks@.last() == 0,
        b.inflight_n@.drop_last() == a.inflight_n@,
        b.inflight_n@.last() == r.inflight.len(),
        b.full_total - a.full_total == r.full_events,
        b.stalls_10ms - a.stalls_10ms == stalls(r.loopstats@),
        a.worst_gap <= b.worst_gap,
        forall|j: int|
            0 <= j < r.loopstats.len() ==> (#[trigger] r.loopstats[j]).1.max_gap_ns
                <= b.worst_gap,
        b.worst_gap == a.worst_gap || exists|j: int|
            0 <= j < r.loopstats.len() && (#[trigger] r.loopstats[j]).1.max_gap_ns
                == b.worst_gap,
{
    report::law_peak_is_the_largest(r.inflight@);
    law_worst_gap_is_the_largest(a.worst_gap, r.loopstats@);
    assert(b.peaks@.drop_last() =~= a.peaks@);
    assert(b.inflight_n@.drop_last() =~= a.inflight_n@);
    if r.inflight.len() > 0 {
        let j = choose|j: int|
            0 <= j < r.inflight@.len() && r.inflight@[j] == report::peak(r.inflight@);
        assert(r.inflight[j] == b.peaks@.last());
    }
}

/// The stalls of some threads and of some more add up, and those of one thread are
/// its gaps of more than ten milliseconds.
pub proof fn law_stalls_add_up(
    a: Seq<(String, LoopStat)>,
    b: Seq<(String, LoopStat)>,
    t: (String, LoopStat),
)
    ensures
        stalls(a + b) == stalls(a) + stalls(b),
        stalls(seq![t]) == t.1.over_10ms,
        stalls(Seq::empty()) == 0,
    decreases b.len(),
{
    reveal_with_fuel(stalls, 2);
    assert(seq![t].drop_last() =~= Seq::empty());
    if b.len() == 0 {
        assert(a + b =~= a);
    } else {
        law_stalls_add_up(a, b.drop_last(), t);
        assert((a + b).drop_last() =~= a + b.drop_last());
    }
}

/// The worst gap is what it was before or the gap of some thread, and it is below
/// none of these.
pub proof fn law_worst_gap_is_the_largest(worst: u64, stats: Seq<(String, LoopStat)>)
    ensures
        worst <= worst_of(worst, stats),
        forall|j: int|
            0 <= j < stats.len() ==> (#[trigger] stats[j]).1.max_gap_ns <= worst_of(worst, stats),
        worst_of(worst, stats) == worst || exists|j: int|
            0 <= j < stats.len() && (#[trigger] stats[j]).1.max_gap_ns == worst_of(worst, stats),
    decreases stats.len(),
{
    if stats.len() > 0 {
        let p = stats.drop_last();
        let w = worst_of(worst, stats);
        law_worst_gap_is_the_largest(worst, p);
        assert forall|j: int| 0 <= j < stats.len() implies (#[trigger] stats[j]).1.max_gap_ns
            <= w by {
            if j < p.len() {
                assert(p[j] == stats[j]);
            }
        }
        if w != worst {
            if w == worst_of(worst, p) {
                let j = choose|j: int|
                    0 <= j < p.len() && (#[trigger] p[j]).1.max_gap_ns == worst_of(worst, p);
                assert(stats[j] == p[j]);
            } else {
                assert(stats[stats.len() - 1].1.max_gap_ns == w);
            }
        }
    }
}

/// The least and the largest of some numbers are numbers of them.
pub proof fn law_spread_ends_are_values(s: Seq<u64>)
    ensures
        s.len() > 0 ==> s.contains(lowest(s)) && s.contains(highest(s)),
        s.len() == 0 ==> lowest(s) == 0 && highest(s) == 0,
{
    sorting::lemma_sorted(s);
    if s.len() > 0 {
        sorting::law_sorted_numbers_have_ranks(s, 0);
        sorting::law_sorted_numbers_have_ranks(s, s.len() - 1);
    }
}

} // verus!
