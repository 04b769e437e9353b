use dispatch_bench::config::Config;
use dispatch_bench::measure::{
    make_sample, period_over, LoopStat, LoopTimer, Sample, METRIC_NAMES,
};
use dispatch_bench::order::Order;
use dispatch_bench::report::{fmt_ns, median, pct, peak_of, RunResult};
use dispatch_bench::rng::Rng;
use dispatch_bench::schedule::gen_schedules;
use dispatch_bench::tally::{Ranks, Row, Spread, Tally};
use dispatch_bench::work::simulate_work;

#[test]
fn rng_is_splitmix64() {
    let mut g = Rng::new(0);
    assert_eq!(g.next(), 0xe220a8397b1dcdaf);
    assert_eq!(g.next(), 0x6e789e6aa1b965f4);
    assert_eq!(g.next(), 0x06c45d188009454f);
    assert_eq!(g, Rng(0xdaa66d2c7ddf743f));
}

#[test]
fn uniform_stays_in_range() {
    assert_eq!(Rng::new(7).uniform(10, 20), 17);
    let mut g = Rng::new(7);
    for _ in 0..1000 {
        let x = g.uniform(3, 9);
        assert!(3 <= x && x < 9);
    }
    let before = g;
    assert_eq!(g.uniform(5, 5), 5);
    assert_eq!(g.uniform(6, 5), 6);
    assert_eq!(g, before);
}

#[test]
fn schedules_are_sorted_draws() {
    let mut c = Config::default();
    c.n = 2;
    c.q = 5;
    let r = gen_schedules(&c);
    assert_eq!(
        r,
        vec![
            vec![161912712, 661624349, 1069366013, 1578592423, 1938068466],
            vec![79232099, 417773407, 730971993, 1153898902, 1758860143],
        ]
    );
    assert_eq!(gen_schedules(&c), r);
    c.window = 0;
    assert_eq!(gen_schedules(&c), vec![vec![0; 5]; 2]);
    c.n = 0;
    assert!(gen_schedules(&c).is_empty());
}

#[test]
fn work_is_spread_over_the_scratch() {
    let mut a = [0u64; 4];
    simulate_work(10, &mut a);
    assert_eq!(a, [15, 15, 10, 10]);
    let mut b = [u64::MAX; 8];
    simulate_work(3, &mut b);
    assert_eq!(b[0..4], [0, 0, 2, u64::MAX]);
    let mut none: [u64; 0] = [];
    simulate_work(0, &mut none);
}

#[test]
fn samples_hold_segments() {
    let mut o = Order::at(0, 0, 0);
    o.ts = [100, 103, 110, 125, 225, 230, 236, 250];
    let s = make_sample(&o);
    assert_eq!(s.vals, [3, 7, 15, 100, 5, 6, 14, 150, 50]);
    assert_eq!(s.vals[0..7].iter().sum::<u64>(), s.vals[7]);
}

#[test]
fn samples_saturate_and_wrap() {
    let mut o = Order::at(0, 0, 50);
    o.ts[1] = 40;
    o.ts[4] = 50 + (1u128 << 64) + 9;
    let s = make_sample(&o);
    assert_eq!(s.vals, [0, 10, 0, 9, 0, 0, 0, 0, 0]);
}

#[test]
fn metrics_have_names() {
    assert_eq!(METRIC_NAMES[0], "submit");
    assert_eq!(METRIC_NAMES[3], "venue_svc");
    assert_eq!(METRIC_NAMES[7], "round_trip");
    assert_eq!(METRIC_NAMES[8], "rt-venue");
}

#[test]
fn loop_stat_counts_gaps() {
    let mut s = LoopStat::new();
    s.tick(0, 1_000_000);
    s.tick(0, 1_000_001);
    s.tick(5, 10_000_005);
    s.tick(5, 10_000_006);
    s.tick(9, 3);
    assert_eq!(s, LoopStat { max_gap_ns: 10_000_001, over_1ms: 3, over_10ms: 1, iters: 5 });
}

#[test]
fn loop_timer_measures_between_marks() {
    let mut t = LoopTimer::new(10);
    t.mark(30);
    t.mark(35);
    assert_eq!(t.stat, LoopStat { max_gap_ns: 20, over_1ms: 0, over_10ms: 0, iters: 2 });
    assert_eq!(t.last, 35);
}

#[test]
fn periods_end() {
    assert!(!period_over(100, 50_099, 50));
    assert!(period_over(100, 50_100, 50));
    assert!(!period_over(100, 50, 50));
    assert!(period_over(100, 50, 0));
}

#[test]
fn percentiles_by_rank() {
    assert_eq!(pct(&[], 0), 0);
    assert_eq!(pct(&[3, 5, 8], 0), 3);
    assert_eq!(pct(&[3, 5, 8], 2), 8);
}

#[test]
fn median_is_the_upper_middle() {
    assert_eq!(median(&mut []), 0);
    assert_eq!(median(&mut [7]), 7);
    let mut v = [9, 1, 5];
    assert_eq!(median(&mut v), 5);
    assert_eq!(v, [1, 5, 9]);
    assert_eq!(median(&mut [4, 1, 3, 2]), 3);
}

#[test]
fn peaks() {
    assert_eq!(peak_of(&vec![]), 0);
    assert_eq!(peak_of(&vec![2, 9, 4]), 9);
}

#[test]
fn durations_choose_a_unit() {
    for (v, divisor, decimals, suffix) in [
        (0u64, 1u64, 0usize, "ns"),
        (999, 1, 0, "ns"),
        (1_000, 1_000, 1, "us"),
        (999_999, 1_000, 1, "us"),
        (1_000_000, 1_000_000, 1, "ms"),
        (999_999_999, 1_000_000, 1, "ms"),
        (1_000_000_000, 1_000_000_000, 2, "s"),
        (u64::MAX, 1_000_000_000, 2, "s"),
    ] {
        let f = fmt_ns(v);
        assert_eq!((f.divisor, f.decimals, f.suffix), (divisor, decimals, suffix), "{v}");
    }
}

fn sample(x: u64) -> Sample {
    Sample { vals: [x, x + 1, x + 2, x + 3, x + 4, x + 5, x + 6, x + 7, x + 8] }
}

fn stat(max_gap_ns: u64, over_10ms: u32) -> LoopStat {
    LoopStat { max_gap_ns, over_1ms: over_10ms, over_10ms, iters: 1 }
}

#[test]
fn run_results_are_put_together() {
    let r = RunResult::collect(
        vec![Some((vec![sample(1)], stat(1, 0))), None, Some((vec![sample(2), sample(3)], stat(3, 0)))],
        Some(stat(4, 0)),
        vec![None, Some(stat(6, 0))],
        Some((vec![5, 6], stat(7, 0))),
        8,
    );
    assert_eq!(r.samples, vec![sample(1), sample(2), sample(3)]);
    assert_eq!(r.inflight, vec![5, 6]);
    let names: Vec<&str> = r.loopstats.iter().map(|p| p.0.as_str()).collect();
    assert_eq!(names, vec!["strategy0", "strategy2", "orchestrator", "gateway1", "sampler"]);
    let gaps: Vec<u64> = r.loopstats.iter().map(|p| p.1.max_gap_ns).collect();
    assert_eq!(gaps, vec![1, 3, 4, 6, 7]);
    assert_eq!(r.full_events, 8);
}

#[test]
fn lost_threads_are_left_out() {
    let r = RunResult::collect(vec![None], None, vec![None], None, 0);
    assert!(r.samples.is_empty() && r.inflight.is_empty());
    assert_eq!(r.loopstats.len(), 1);
    assert_eq!(r.loopstats[0], ("sampler".to_string(), LoopStat::new()));
}

fn run(xs: &[u64], inflight: Vec<usize>, gap: u64, stalls: u32, full: u64) -> RunResult {
    let samples: Vec<Sample> = xs.iter().map(|x| sample(*x)).collect();
    RunResult::collect(
        vec![Some((samples, stat(gap, stalls)))],
        Some(stat(1, 1)),
        vec![],
        Some((inflight, stat(2, 0))),
        full,
    )
}

#[test]
fn tally_of_two_runs() {
    let mut t = Tally::new();
    let ranks = Ranks { p50: 1, p99: 2, p999: 2 };
    t.note(&run(&[30, 10, 20], vec![3, 7, 1], 50, 2, 4), ranks);
    t.note(&run(&[5, 6, 7], vec![2], 40, 0, 1), ranks);
    assert_eq!(t.p50[0], vec![20, 6]);
    assert_eq!(t.p99[8], vec![38, 15]);
    let s = t.summarize();
    assert_eq!(s.rows.len(), 9);
    assert_eq!(s.rows[0], Row { p50: 20, p99: 30, p999: 30 });
    assert_eq!(s.rows[8], Row { p50: 28, p99: 38, p999: 38 });
    assert_eq!((s.peak_med, s.peak_max, s.inflight_n), (7, 7, 3));
    assert_eq!(s.spread_p50, Spread { low: 14, high: 28 });
    assert_eq!(s.spread_p99, Spread { low: 15, high: 38 });
    assert_eq!((s.stalls_10ms, s.worst_gap, s.full_total), (4, 50, 5));
}

#[test]
fn tally_of_no_run() {
    let s = Tally::new().summarize();
    assert_eq!(s.rows[3], Row { p50: 0, p99: 0, p999: 0 });
    assert_eq!((s.peak_med, s.peak_max, s.inflight_n), (0, 0, 0));
    assert_eq!(s.spread_p50, Spread { low: 0, high: 0 });
}

#[test]
fn run_without_samples() {
    let mut t = Tally::new();
    t.note(&run(&[], vec![], 0, 0, 0), Ranks { p50: 0, p99: 0, p999: 0 });
    assert_eq!(t.p50[4], vec![0]);
    assert_eq!(t.peaks, vec![0]);
}

#[test]
fn percentiles_ascend_with_their_ranks() {
    let sorted: Vec<u64> = vec![1, 4, 4, 9, 30];
    for a in 0..5 {
        for b in a..5 {
            assert!(pct(&sorted, a) <= pct(&sorted, b));
        }
    }
}
