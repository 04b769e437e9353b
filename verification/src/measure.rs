//! What is measured: the latencies of a returned order, and how evenly a
//! thread's loop runs.

use crate::config;
use crate::order::Order;
use vstd::prelude::*;

verus! {

/// The names of the nine latencies of a [`Sample`].
pub const METRIC_NAMES: [&'static str; 9] = [
    "submit",
    "orch_pre",
    "dispatch",
    "venue_svc",
    "completion",
    "orch_post",
    "return",
    "round_trip",
    "rt-venue",
];

/// The nine latencies of one order, in nanoseconds.
#[derive(Clone, Copy, Debug, PartialEq, Eq)]
pub struct Sample {
    pub vals: [u64; 9],
}

/// The time from one instant to another, cut to a machine word; zero where the
/// second is before the first.
pub open spec fn elapsed(from: u128, to: u128) -> int {
    if to <= from {
        0
    } else {
        (to - from) % 0x1_0000_0000_0000_0000
    }
}

/// The time from one instant to another.
fn between(from: u128, to: u128) -> (d: u64)
    ensures
        d == elapsed(from, to),
{
    config::word(to.saturating_sub(from))
}

/// `s` holds the latencies of `o`: the seven segments of its way, the whole way,
/// and the whole way without the time at the venue.
pub open spec fn samples(o: Order, s: Sample) -> bool {
    &&& forall|i: int| 0 <= i < 7 ==> #[trigger] s.vals[i] == elapsed(o.ts[i], o.ts[i + 1])
    &&& s.vals[7] == elapsed(o.ts[0], o.ts[7])
    &&& s.vals[8] == (if s.vals[7] >= s.vals[3] {
        s.vals[7] - s.vals[3]
    } else {
        0
    })
}

/// The latencies of an order that is back: the seven segments of its way, the
/// whole way, and the whole way without the time at the venue.
pub fn make_sample(o: &Order) -> (s: Sample)
    ensures
        samples(*o, s),
{
    let venue_service = between(o.ts[3], o.ts[4]);
    let round_trip = between(o.ts[0], o.ts[7]);
    Sample {
        vals: [
            between(o.ts[0], o.ts[1]),
            between(o.ts[1], o.ts[2]),
            between(o.ts[2], o.ts[3]),
            venue_service,
            between(o.ts[4], o.ts[5]),
            between(o.ts[5], o.ts[6]),
            between(o.ts[6], o.ts[7]),
            round_trip,
            round_trip.saturating_sub(venue_service),
        ],
    }
}

/// Whether a sampling period that began at `since` is over at `now`.
pub fn period_over(since: u128, now: u128, period_us: u64) -> (b: bool)
    ensures
        b <==> now - since >= period_us * 1_000 || period_us == 0,
{
    now.saturating_sub(since) >= period_us as u128 * 1_000
}

/// A gap over this is a hiccup.
pub const GAP_1MS: u64 = 1_000_000;

/// A gap over this is a stall.
pub const GAP_10MS: u64 = 10_000_000;

/// Per-thread loop diagnostics. A gap is the wall time between the starts of
/// two consecutive loop iterations. No loop body does milliseconds of work, so
/// a gap over 10 ms means the thread was stalled.
#[derive(Clone, Copy, Debug, PartialEq, Eq)]
pub struct LoopStat {
    pub max_gap_ns: u64,
    pub over_1ms: u32,
    pub over_10ms: u32,
    pub iters: u64,
}

/// The largest of some gaps; zero where there is none.
pub open spec fn largest(gaps: Seq<u64>) -> u64
    decreases gaps.len(),
{
    if gaps.len() == 0 {
        0
    } else if gaps.last() > largest(gaps.drop_last()) {
        gaps.last()
    } else {
        largest(gaps.drop_last())
    }
}

/// How many gaps exceed `limit`.
pub open spec fn exceeding(gaps: Seq<u64>, limit: u64) -> nat {
    gaps.filter(|g: u64| g > limit).len()
}

impl LoopStat {
    /// These are the diagnostics of a loop with the given gaps.
    pub open spec fn describes(self, gaps: Seq<u64>) -> bool {
        &&& self.max_gap_ns == largest(gaps)
        &&& self.over_1ms == exceeding(gaps, GAP_1MS)
        &&& self.over_10ms == exceeding(gaps, GAP_10MS)
        &&& self.iters == gaps.len()
    }

    /// These diagnostics after one more gap.
    pub open spec fn ticked(self, after: LoopStat, gap: int) -> bool {
        &&& after.max_gap_ns == (if gap > self.max_gap_ns {
            gap
        } else {
            self.max_gap_ns as int
        })
        &&& after.over_1ms == self.over_1ms + (if gap > GAP_1MS {
            1int
        } else {
            0
        })
        &&& after.over_10ms == self.over_10ms + (if gap > GAP_10MS {
            1int
        } else {
            0
        })
        &&& after.iters == self.iters + 1
    }

    /// There is room to count one more gap.
    pub open spec fn has_room(self, gap: int) -> bool {
        &&& gap > GAP_1MS ==> self.over_1ms < u32::MAX
        &&& gap > GAP_10MS ==> self.over_10ms < u32::MAX
        &&& self.iters < u64::MAX
    }

    /// The diagnostics of a loop that has not run.
    pub open spec fn unused() -> LoopStat {
        LoopStat { max_gap_ns: 0, over_1ms: 0, over_10ms: 0, iters: 0 }
    }

    /// The diagnostics of a loop that has not run.
    pub fn new() -> (s: LoopStat)
        ensures
            s == LoopStat::unused(),
            s.describes(Seq::empty()),
    {
        LoopStat { max_gap_ns: 0, over_1ms: 0, over_10ms: 0, iters: 0 }
    }

    /// Counts the gap between two iterations that began at `last` and `now`.
    pub fn tick(&mut self, last: u128, now: u128)
        requires
            old(self).has_room(elapsed(last, now)),
        ensures
            old(self).ticked(*final(self), elapsed(last, now)),
    {
        let g = between(last, now);
        if g > self.max_gap_ns {
            self.max_gap_ns = g;
        }
        if g > GAP_1MS {
            self.over_1ms += 1;
        }
        if g > GAP_10MS {
            self.over_10ms += 1;
        }
        self.iters += 1;
    }
}

/// The diagnostics of a loop that is running, and when its current iteration
/// began.
#[derive(Clone, Copy, Debug, PartialEq, Eq)]
pub struct LoopTimer {
    pub stat: LoopStat,
    pub last: u128,
}

impl LoopTimer {
    /// A loop that is about to start.
    pub fn new(now: u128) -> (t: LoopTimer)
        ensures
            t.stat == LoopStat::unused(),
            t.last == now,
    {
        LoopTimer { stat: LoopStat::new(), last: now }
    }

    /// An iteration begins at `now`.
    pub fn mark(&mut self, now: u128)
        requires
            old(self).stat.has_room(elapsed(old(self).last, now)),
        ensures
            old(self).stat.ticked(final(self).stat, elapsed(old(self).last, now)),
            final(self).last == now,
    {
        self.stat.tick(self.last, now);
        self.last = now;
    }
}

// ---- laws -------------------------------------------------------------------

/// The segments make up the way: where the stamps are in order and the way took
/// less than a machine word of nanoseconds, the seven segments add up to the
/// round trip, and the last latency is the round trip less the venue's part.
pub proof fn law_segments_make_up_the_round_trip(o: Order, s: Sample)
    requires
        samples(o, s),
        forall|i: int, j: int| 0 <= i <= j < 8 ==> o.ts[i] <= o.ts[j],
        o.ts[7] - o.ts[0] < 0x1_0000_0000_0000_0000,
    ensures
        s.vals[0] + s.vals[1] + s.vals[2] + s.vals[3] + s.vals[4] + s.vals[5] + s.vals[6]
            == s.vals[7],
        s.vals[8] == s.vals[7] - s.vals[3],
{
    assert forall|i: int, j: int| 0 <= i <= j < 8 implies #[trigger] elapsed(o.ts[i], o.ts[j])
        == o.ts[j] - o.ts[i] by {}
    assert(s.vals[0] == elapsed(o.ts[0], o.ts[1]));
    assert(s.vals[1] == elapsed(o.ts[1], o.ts[2]));
    assert(s.vals[2] == elapsed(o.ts[2], o.ts[3]));
    assert(s.vals[3] == elapsed(o.ts[3], o.ts[4]));
    assert(s.vals[4] == elapsed(o.ts[4], o.ts[5]));
    assert(s.vals[5] == elapsed(o.ts[5], o.ts[6]));
    assert(s.vals[6] == elapsed(o.ts[6], o.ts[7]));
}

/// Each tick adds its gap to those that the diagnostics describe.
pub proof fn law_ticks_describe_the_gaps(a: LoopStat, b: LoopStat, gaps: Seq<u64>, gap: u64)
    requires
        a.describes(gaps),
        a.ticked(b, gap as int),
    ensures
        b.describes(gaps.push(gap)),
{
    assert(gaps.push(gap).drop_last() =~= gaps);
    gaps.lemma_filter_push(gap, |g: u64| g > GAP_1MS);
    gaps.lemma_filter_push(gap, |g: u64| g > GAP_10MS);
}

/// A stall is a hiccup too, and neither is counted without an iteration; the
/// largest gap tells whether there was one at all.
pub proof fn law_stalls_are_counted_once(s: LoopStat, gaps: Seq<u64>)
    requires
        s.describes(gaps),
    ensures
        s.over_10ms <= s.over_1ms <= s.iters,
        s.over_1ms > 0 <==> s.max_gap_ns > GAP_1MS,
        s.over_10ms > 0 <==> s.max_gap_ns > GAP_10MS,
    decreases gaps.len(),
{
    lemma_exceeding(gaps);
}

/// How the counts and the largest of some gaps go together.
proof fn lemma_exceeding(gaps: Seq<u64>)
    ensures
        exceeding(gaps, GAP_10MS) <= exceeding(gaps, GAP_1MS) <= gaps.len(),
        exceeding(gaps, GAP_1MS) > 0 <==> largest(gaps) > GAP_1MS,
        exceeding(gaps, GAP_10MS) > 0 <==> largest(gaps) > GAP_10MS,
    decreases gaps.len(),
{
    reveal_with_fuel(Seq::<_>::filter, 2);
    if gaps.len() > 0 {
        lemma_exceeding(gaps.drop_last());
    }
}

/// Each latency is the time between its two stations, in nanoseconds: the first
/// seven between a station and the next one, the eighth between the first station
/// and the last, and the ninth the eighth without the fourth, which is the time at
/// the venue. A station that is stamped before the one it follows counts as
/// stamped at the same time.
pub proof fn law_latencies_are_times_between_stations(o: Order, s: Sample)
    requires
        samples(o, s),
    ensures
        forall|i: int|
            0 <= i < 7 && o.ts[i] <= o.ts[i + 1] && o.ts[i + 1] - o.ts[i]
                < 0x1_0000_0000_0000_0000 ==> #[trigger] s.vals[i] == o.ts[i + 1] - o.ts[i],
        forall|i: int| 0 <= i < 7 && o.ts[i] > o.ts[i + 1] ==> #[trigger] s.vals[i] == 0,
        o.ts[0] <= o.ts[7] && o.ts[7] - o.ts[0] < 0x1_0000_0000_0000_0000 ==> s.vals[7]
            == o.ts[7] - o.ts[0],
        o.ts[0] > o.ts[7] ==> s.vals[7] == 0,
        s.vals[7] >= s.vals[3] ==> s.vals[8] + s.vals[3] == s.vals[7],
        s.vals[7] < s.vals[3] ==> s.vals[8] == 0,
{
}

/// Only the differences count: orders whose stamps are apart by the same time
/// throughout have the same latencies.
pub proof fn law_latencies_do_not_depend_on_the_start(
    o: Order,
    p: Order,
    s: Sample,
    t: Sample,
    d: int,
)
    requires
        samples(o, s),
        samples(p, t),
        forall|i: int| 0 <= i < 8 ==> #[trigger] p.ts[i] == o.ts[i] + d,
    ensures
        forall|i: int| 0 <= i < 9 ==> #[trigger] s.vals[i] == t.vals[i],
{
    assert forall|i: int, j: int| 0 <= i < 8 && 0 <= j < 8 implies elapsed(
        #[trigger] p.ts[i],
        #[trigger] p.ts[j],
    ) == elapsed(o.ts[i], o.ts[j]) by {
        assert(p.ts[j] - p.ts[i] == o.ts[j] - o.ts[i]);
    }
    assert(p.ts[0] == o.ts[0] + d && p.ts[7] == o.ts[7] + d);
    assert(s.vals[7] == t.vals[7]);
    assert forall|i: int| 0 <= i < 7 implies #[trigger] s.vals[i] == t.vals[i] by {
        assert(p.ts[i] == o.ts[i] + d && p.ts[i + 1] == o.ts[i + 1] + d);
        assert(s.vals[i] == elapsed(o.ts[i], o.ts[i + 1]));
        assert(t.vals[i] == elapsed(p.ts[i], p.ts[i + 1]));
    }
    assert(s.vals[3] == t.vals[3]);
    assert(s.vals[8] == t.vals[8]);
}

/// A gap counts as a hiccup if it is over one millisecond, and as a stall if it is
/// over ten; the largest gap is the larger of the gap and what it was before, and
/// each gap is one iteration. What was counted before stays.
pub proof fn law_a_gap_is_counted(a: LoopStat, b: LoopStat, gap: u64)
    requires
        a.ticked(b, gap as int),
    ensures
        gap <= 1_000_000 ==> b.over_1ms == a.over_1ms,
        gap > 1_000_000 ==> b.over_1ms == a.over_1ms + 1,
        gap <= 10_000_000 ==> b.over_10ms == a.over_10ms,
        gap > 10_000_000 ==> b.over_10ms == a.over_10ms + 1,
        b.max_gap_ns >= gap,
        b.max_gap_ns >= a.max_gap_ns,
        b.max_gap_ns == gap || b.max_gap_ns == a.max_gap_ns,
        b.iters == a.iters + 1,
{
}

/// The gap between two iterations is the time between their starts; a clock that
/// goes back makes no gap.
pub proof fn law_gap_is_the_time_between_starts(last: u128, now: u128)
    ensures
        last <= now && now - last < 0x1_0000_0000_0000_0000 ==> elapsed(last, now) == now - last,
        now <= last ==> elapsed(last, now) == 0,
        0 <= elapsed(last, now) < 0x1_0000_0000_0000_0000,
{
}

/// The largest of some gaps is one of them, and none exceeds it; a loop that has
/// not run has none.
pub proof fn law_largest_gap(gaps: Seq<u64>)
    ensures
        gaps.len() == 0 ==> largest(gaps) == 0,
        gaps.len() > 0 ==> gaps.contains(largest(gaps)),
        forall|i: int| 0 <= i < gaps.len() ==> #[trigger] gaps[i] <= largest(gaps),
    decreases gaps.len(),
{
    if gaps.len() > 0 {
        let p = gaps.drop_last();
        law_largest_gap(p);
        assert(gaps[gaps.len() - 1] == gaps.last());
        assert forall|i: int| 0 <= i < gaps.len() implies #[trigger] gaps[i] <= largest(gaps) by {
            if i < p.len() {
                assert(p[i] == gaps[i]);
            }
        }
        if p.len() > 0 {
            let k = choose|k: int| 0 <= k < p.len() && p[k] == largest(p);
            assert(gaps[k] == largest(p));
        }
    }
}

/// How many gaps exceed a limit adds up, and one gap counts if it is larger.
pub proof fn law_counts_of_gaps_add_up(a: Seq<u64>, b: Seq<u64>, g: u64, limit: u64)
    ensures
        exceeding(a + b, limit) == exceeding(a, limit) + exceeding(b, limit),
        g > limit ==> exceeding(seq![g], limit) == 1,
        g <= limit ==> exceeding(seq![g], limit) == 0,
        exceeding(Seq::empty(), limit) == 0,
{
    reveal_with_fuel(Seq::<_>::filter, 2);
    Seq::filter_distributes_over_add(a, b, |g: u64| g > limit);
    assert(seq![g].drop_last() =~= Seq::empty());
}

/// The latencies are reported under the names of their segments.
pub proof fn law_metrics_go_by_their_names()
    ensures
        METRIC_NAMES@[0]@ == "submit"@,
        METRIC_NAMES@[1]@ == "orch_pre"@,
        METRIC_NAMES@[2]@ == "dispatch"@,
        METRIC_NAMES@[3]@ == "venue_svc"@,
        METRIC_NAMES@[4]@ == "completion"@,
        METRIC_NAMES@[5]@ == "orch_post"@,
        METRIC_NAMES@[6]@ == "return"@,
        METRIC_NAMES@[7]@ == "round_trip"@,
        METRIC_NAMES@[8]@ == "rt-venue"@,
{
}

/// A time of more than a machine word of nanoseconds is cut to one: only whole
/// machine words are lost.
pub proof fn law_long_times_go_round(from: u128, to: u128)
    requires
        from <= to,
    ensures
        (to - from - elapsed(from, to)) % 0x1_0000_0000_0000_0000 == 0,
        0 <= elapsed(from, to) < 0x1_0000_0000_0000_0000,
{
    let w = 0x1_0000_0000_0000_0000int;
    let d = to - from;
    vstd::arithmetic::div_mod::lemma_mod_bound(d, w);
    vstd::arithmetic::div_mod::lemma_mod_twice(d, w);
    vstd::arithmetic::div_mod::lemma_mod_equivalence(d, d % w, w);
}

} // verus!
