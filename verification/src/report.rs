//! What a run gives, and what is reported of the runs of a technique.

use crate::measure::{LoopStat, Sample};
use crate::sorting;
use crate::text;
use vstd::prelude::*;

verus! {

// ---- statistics -------------------------------------------------------------

/// The number at `rank`; zero where there is none.
pub open spec fn ranked(s: Seq<u64>, rank: int) -> u64 {
    if s.len() == 0 {
        0
    } else {
        s[rank]
    }
}

/// The middle of some numbers, the upper one where there are two; zero where
/// there is no number.
pub open spec fn middle(s: Seq<u64>) -> u64 {
    ranked(sorting::sorted(s), s.len() as int / 2)
}

/// The percentile of sorted numbers that stands at `rank`; zero where there is
/// no number.
pub fn pct(sorted: &[u64], rank: usize) -> (x: u64)
    requires
        sorted@.len() > 0 ==> rank < sorted@.len(),
    ensures
        x == ranked(sorted@, rank as int),
        sorted@.len() > 0 ==> x == sorted@[rank as int],
        sorted@.len() == 0 ==> x == 0,
{
    if sorted.len() == 0 {
        return 0;
    }
    sorted[rank]
}

/// Median of per-run values (sorts in place); for an even count this returns
/// the upper of the two middle values.
pub fn median(v: &mut [u64]) -> (x: u64)
    ensures
        final(v)@ == sorting::sorted(old(v)@),
        x == middle(old(v)@),
{
    proof {
        sorting::lemma_sorted(v@);
    }
    if v.len() == 0 {
        assert(v@ =~= sorting::sorted(v@));
        return 0;
    }
    sorting::sort_unstable(v);
    v[v.len() / 2]
}

/// The largest of some counts; zero where there is none.
pub open spec fn peak(s: Seq<usize>) -> usize
    decreases s.len(),
{
    if s.len() == 0 {
        0
    } else if s.last() > peak(s.drop_last()) {
        s.last()
    } else {
        peak(s.drop_last())
    }
}

/// The largest of some counts.
pub fn peak_of(v: &Vec<usize>) -> (x: usize)
    ensures
        x == peak(v@),
        forall|i: int| 0 <= i < v.len() ==> #[trigger] v[i] <= x,
        v.len() > 0 ==> v@.contains(x),
        v.len() == 0 ==> x == 0,
{
    let mut x: usize = 0;
    let mut i: usize = 0;
    while i < v.len()
        invariant
            i <= v.len(),
            x == peak(v@.take(i as int)),
        decreases v.len() - i,
    {
        assert(v@.take(i + 1).drop_last() == v@.take(i as int));
        if v[i] > x {
            x = v[i];
        }
        i += 1;
    }
    assert(v@.take(v.len() as int) == v@);
    proof {
        law_peak_is_the_largest(v@);
    }
    x
}

// ---- durations --------------------------------------------------------------

/// How a duration is written: divided, with so many decimals, before a suffix.
#[derive(Clone, Copy, Debug, PartialEq, Eq)]
pub struct NsFormat {
    pub divisor: u64,
    pub decimals: usize,
    pub suffix: &'static str,
}

/// How `v` nanoseconds are written: compact and human-readable, which keeps
/// console lines narrow.
pub fn fmt_ns(v: u64) -> (f: NsFormat)
    ensures
        v < 1_000 ==> f.divisor == 1 && f.decimals == 0 && f.suffix@ == "ns"@,
        1_000 <= v < 1_000_000 ==> f.divisor == 1_000 && f.decimals == 1 && f.suffix@ == "us"@,
        1_000_000 <= v < 1_000_000_000 ==> f.divisor == 1_000_000 && f.decimals == 1 && f.suffix@
            == "ms"@,
        1_000_000_000 <= v ==> f.divisor == 1_000_000_000 && f.decimals == 2 && f.suffix@ == "s"@,
        v < 1_000_000_000_000 ==> v / f.divisor < 1_000,
        v > 0 ==> v / f.divisor > 0,
{
    if v < 1_000 {
        NsFormat { divisor: 1, decimals: 0, suffix: "ns" }
    } else if v < 1_000_000 {
        NsFormat { divisor: 1_000, decimals: 1, suffix: "us" }
    } else if v < 1_000_000_000 {
        NsFormat { divisor: 1_000_000, decimals: 1, suffix: "ms" }
    } else {
        NsFormat { divisor: 1_000_000_000, decimals: 2, suffix: "s" }
    }
}

// ---- one run ----------------------------------------------------------------

/// What one run gives.
pub struct RunResult {
    /// The latencies of every order, strategy by strategy.
    pub samples: Vec<Sample>,
    /// The in-flight counts that the sampler read.
    pub inflight: Vec<usize>,
    /// Each thread's name and loop diagnostics.
    pub loopstats: Vec<(String, LoopStat)>,
    /// How often a bounded queue was full when an order was first offered to it;
    /// zero means no backpressure.
    pub full_events: u64,
}

/// What a strategy's thread ends with; none where it did not end well.
pub type StrategyEnd = Option<(Vec<Sample>, LoopStat)>;

/// A thread's name: its role and its number.
pub open spec fn label(role: Seq<char>, i: int) -> Seq<char> {
    role + text::decimal_text(i as nat)
}

/// The samples of the strategies that ended well, one after the other.
pub open spec fn joined(ends: Seq<StrategyEnd>) -> Seq<Sample>
    decreases ends.len(),
{
    if ends.len() == 0 {
        Seq::empty()
    } else {
        let rest = joined(ends.drop_last());
        match ends.last() {
            Some(e) => rest + e.0@,
            None => rest,
        }
    }
}

/// The names and diagnostics of the strategies that ended well.
pub open spec fn strategy_stats(ends: Seq<StrategyEnd>) -> Seq<(Seq<char>, LoopStat)>
    decreases ends.len(),
{
    if ends.len() == 0 {
        Seq::empty()
    } else {
        let rest = strategy_stats(ends.drop_last());
        match ends.last() {
            Some(e) => rest.push((label("strategy"@, ends.len() - 1), e.1)),
            None => rest,
        }
    }
}

/// The names and diagnostics of the gateways that ended well.
pub open spec fn gateway_stats(ends: Seq<Option<LoopStat>>) -> Seq<(Seq<char>, LoopStat)>
    decreases ends.len(),
{
    if ends.len() == 0 {
        Seq::empty()
    } else {
        let rest = gateway_stats(ends.drop_last());
        match ends.last() {
            Some(e) => rest.push((label("gateway"@, ends.len() - 1), e)),
            None => rest,
        }
    }
}

/// Names and diagnostics, the names by what they hold.
pub open spec fn named(v: Seq<(String, LoopStat)>) -> Seq<(Seq<char>, LoopStat)> {
    v.map_values(|p: (String, LoopStat)| (p.0@, p.1))
}

/// The name of thread `i` of a role.
fn labelled(role: &str, i: usize) -> (s: String)
    ensures
        s@ == label(role@, i as int),
{
    let mut s = String::new();
    s.append(role);
    s.append(text::decimal(i as u64).as_str());
    s
}

/// Adds a name and diagnostics.
fn add_stat(v: &mut Vec<(String, LoopStat)>, name: String, s: LoopStat)
    ensures
        named(final(v)@) == named(old(v)@).push((name@, s)),
{
    let ghost before = v@;
    v.push((name, s));
    assert(named(v@) =~= named(before).push((name@, s)));
}

impl RunResult {
    /// Puts together what the threads of a run ended with. The result has the
    /// strategies first, then the orchestrator, the gateways and the sampler; a
    /// thread that did not end well is left out, but for the sampler, which then
    /// counts as one that never ran.
    pub fn collect(
        strategies: Vec<StrategyEnd>,
        orchestrator: Option<LoopStat>,
        gateways: Vec<Option<LoopStat>>,
        sampler: Option<(Vec<usize>, LoopStat)>,
        full_events: u64,
    ) -> (r: RunResult)
        ensures
            r.samples@ == joined(strategies@),
            r.full_events == full_events,
            r.inflight@ == match sampler {
                Some(e) => e.0@,
                None => Seq::empty(),
            },
            named(r.loopstats@) == strategy_stats(strategies@) + (match orchestrator {
                Some(s) => seq![("orchestrator"@, s)],
                None => Seq::empty(),
            }) + gateway_stats(gateways@) + seq![
                (
                    "sampler"@,
                    match sampler {
                        Some(e) => e.1,
                        None => LoopStat::unused(),
                    },
                ),
            ],
    {
        let mut samples: Vec<Sample> = Vec::new();
        let mut stats: Vec<(String, LoopStat)> = Vec::new();
        let ghost ends = strategies@;
        let mut s: usize = 0;
        assert(named(stats@) =~= Seq::empty());
        assert(strategies.len() == ends.len());
        for end in it: strategies
            invariant
                it.seq() == ends,
                ends.len() <= usize::MAX,
                s == it.index(),
                samples@ == joined(ends.take(s as int)),
                named(stats@) == strategy_stats(ends.take(s as int)),
        {
            assert(ends.take(s + 1).drop_last() == ends.take(s as int));
            assert(end == ends[s as int]);
            if let Some((mut v, ls)) = end {
                samples.append(&mut v);
                add_stat(&mut stats, labelled("strategy", s), ls);
            }
            s += 1;
        }
        assert(ends.take(ends.len() as int) == ends);
        let ghost first = named(stats@);
        if let Some(ls) = orchestrator {
            add_stat(&mut stats, "orchestrator".to_string(), ls);
        }
        let ghost second = named(stats@);
        let ghost gends = gateways@;
        let mut v: usize = 0;
        assert(gateways.len() == gends.len());
        assert(second + gateway_stats(gends.take(0)) =~= second);
        for end in it: gateways
            invariant
                it.seq() == gends,
                gends.len() <= usize::MAX,
                v == it.index(),
                named(stats@) == second + gateway_stats(gends.take(v as int)),
        {
            assert(gends.take(v + 1).drop_last() == gends.take(v as int));
            assert(end == gends[v as int]);
            if let Some(ls) = end {
                add_stat(&mut stats, labelled("gateway", v), ls);
            }
            v += 1;
        }
        assert(gends.take(gends.len() as int) == gends);
        let (inflight, ls) = match sampler {
            Some(e) => e,
            None => (Vec::new(), LoopStat::new()),
        };
        add_stat(&mut stats, "sampler".to_string(), ls);
        RunResult { samples, inflight, loopstats: stats, full_events }
    }
}

// ---- laws -------------------------------------------------------------------

/// The peak of some counts is one of them, and none exceeds it.
pub proof fn law_peak_is_the_largest(s: Seq<usize>)
    ensures
        s.len() == 0 ==> peak(s) == 0,
        s.len() > 0 ==> s.contains(peak(s)),
        forall|i: int| 0 <= i < s.len() ==> #[trigger] s[i] <= peak(s),
    decreases s.len(),
{
    if s.len() > 0 {
        let p = s.drop_last();
        law_peak_is_the_largest(p);
        assert(s[s.len() - 1] == s.last());
        assert forall|i: int| 0 <= i < s.len() implies #[trigger] s[i] <= peak(s) by {
            if i < p.len() {
                assert(p[i] == s[i]);
            }
        }
        if p.len() > 0 {
            let k = choose|k: int| 0 <= k < p.len() && p[k] == peak(p);
            assert(s[k] == peak(p));
        }
    }
}

/// The median is one of the numbers. At least half of them, and one more, do not
/// exceed it, and at least half of them, the odd one included, are not below it.
pub proof fn law_median_splits_the_numbers(s: Seq<u64>)
    ensures
        s.len() == 0 ==> middle(s) == 0,
        s.len() > 0 ==> {
            &&& s.contains(middle(s))
            &&& s.filter(|x: u64| x <= middle(s)).len() >= s.len() as int / 2 + 1
            &&& s.filter(|x: u64| x >= middle(s)).len() >= s.len() - s.len() as int / 2
        },
{
    sorting::lemma_sorted(s);
    if s.len() > 0 {
        sorting::law_sorted_numbers_have_ranks(s, s.len() as int / 2);
    }
}

/// The name of a thread is its role followed by its number, and the number can be
/// read back: no two threads of a role have the same name.
pub proof fn law_names_tell_threads_apart(role: Seq<char>, i: u64, j: u64)
    ensures
        label(role, i as int).take(role.len() as int) == role,
        text::number(label(role, i as int).skip(role.len() as int)) == Some(i),
        i != j ==> label(role, i as int) != label(role, j as int),
{
    text::law_numbers_read_back(i);
    text::law_numbers_read_back(j);
    let a = label(role, i as int);
    let b = label(role, j as int);
    assert(a.take(role.len() as int) =~= role);
    assert(a.skip(role.len() as int) =~= text::decimal_text(i as nat));
    assert(b.skip(role.len() as int) =~= text::decimal_text(j as nat));
}

/// The samples of some strategies are those of the first ones, followed by those
/// of the others; a strategy that ended well gives all of its samples in their
/// order, and one that did not gives none.
pub proof fn law_samples_are_joined(
    a: Seq<StrategyEnd>,
    b: Seq<StrategyEnd>,
    v: Vec<Sample>,
    s: LoopStat,
)
    ensures
        joined(a + b) == joined(a) + joined(b),
        joined(seq![Some((v, s))]) == v@,
        joined(seq![None]) == Seq::<Sample>::empty(),
        joined(Seq::empty()) == Seq::<Sample>::empty(),
    decreases b.len(),
{
    reveal_with_fuel(joined, 2);
    let one: Seq<StrategyEnd> = seq![Some((v, s))];
    let none: Seq<StrategyEnd> = seq![None];
    assert(one.drop_last() =~= Seq::empty());
    assert(none.drop_last() =~= Seq::empty());
    assert(joined(one) =~= v@);
    if b.len() == 0 {
        assert(a + b =~= a);
        assert(joined(a) + joined(b) =~= joined(a));
    } else {
        law_samples_are_joined(a, b.drop_last(), v, s);
        assert((a + b).drop_last() =~= a + b.drop_last());
        assert(joined(a + b) =~= joined(a) + joined(b));
    }
}

/// Each strategy that ended well has its diagnostics under its own name, in the
/// order of the strategies; one that did not has none.
pub proof fn law_strategies_are_named(ends: Seq<StrategyEnd>, end: StrategyEnd, i: int)
    requires
        0 <= i < ends.len(),
    ensures
        ends[i] matches Some(e) ==> strategy_stats(ends).contains((label("strategy"@, i), e.1)),
        (forall|k: int| 0 <= k < ends.len() ==> #[trigger] ends[k] is Some) ==> {
            &&& strategy_stats(ends).len() == ends.len()
            &&& strategy_stats(ends)[i] == (label("strategy"@, i), (ends[i]->0).1)
        },
        end is None ==> strategy_stats(ends.push(end)) == strategy_stats(ends),
        strategy_stats(ends).len() <= ends.len(),
    decreases ends.len(),
{
    let p = ends.drop_last();
    assert(ends.push(end).drop_last() =~= ends);
    let all = strategy_stats(ends);
    let rest = strategy_stats(p);
    if i < p.len() {
        law_strategies_are_named(p, end, i);
        assert(p[i] == ends[i]);
        if let Some(e) = ends[i] {
            let k = choose|k: int|
                0 <= k < rest.len() && rest[k] == (label("strategy"@, i), e.1);
            assert(all[k] == rest[k]);
        }
    } else if p.len() > 0 {
        law_strategies_are_named(p, end, 0);
    }
    if ends[i] is Some && i == p.len() {
        assert(all[all.len() - 1] == (label("strategy"@, i), (ends[i]->0).1));
    }
    if forall|k: int| 0 <= k < ends.len() ==> #[trigger] ends[k] is Some {
        assert forall|k: int| 0 <= k < p.len() implies #[trigger] p[k] is Some by {
            assert(p[k] == ends[k]);
        }
        assert(ends[ends.len() - 1] is Some);
    }
}

/// Each gateway that ended well has its diagnostics under its own name, in the
/// order of the gateways; one that did not has none.
pub proof fn law_gateways_are_named(ends: Seq<Option<LoopStat>>, end: Option<LoopStat>, i: int)
    requires
        0 <= i < ends.len(),
    ensures
        ends[i] matches Some(e) ==> gateway_stats(ends).contains((label("gateway"@, i), e)),
        (forall|k: int| 0 <= k < ends.len() ==> #[trigger] ends[k] is Some) ==> {
            &&& gateway_stats(ends).len() == ends.len()
            &&& gateway_stats(ends)[i] == (label("gateway"@, i), ends[i]->0)
        },
        end is None ==> gateway_stats(ends.push(end)) == gateway_stats(ends),
        gateway_stats(ends).len() <= ends.len(),
    decreases ends.len(),
{
    let p = ends.drop_last();
    assert(ends.push(end).drop_last() =~= ends);
    let all = gateway_stats(ends);
    let rest = gateway_stats(p);
    if i < p.len() {
        law_gateways_are_named(p, end, i);
        assert(p[i] == ends[i]);
        if let Some(e) = ends[i] {
            let k = choose|k: int| 0 <= k < rest.len() && rest[k] == (label("gateway"@, i), e);
            assert(all[k] == rest[k]);
        }
    } else if p.len() > 0 {
        law_gateways_are_named(p, end, 0);
    }
    if ends[i] is Some && i == p.len() {
        assert(all[all.len() - 1] == (label("gateway"@, i), ends[i]->0));
    }
    if forall|k: int| 0 <= k < ends.len() ==> #[trigger] ends[k] is Some {
        assert forall|k: int| 0 <= k < p.len() implies #[trigger] p[k] is Some by {
            assert(p[k] == ends[k]);
        }
        assert(ends[ends.len() - 1] is Some);
    }
}

/// Each thread keeps its diagnostics, under its name, in its place.
pub proof fn law_names_stay_with_their_diagnostics(v: Seq<(String, LoopStat)>, i: int)
    requires
        0 <= i < v.len(),
    ensures
        named(v).len() == v.len(),
        named(v)[i].0 == v[i].0@,
        named(v)[i].1 == v[i].1,
{
}

} // verus!
