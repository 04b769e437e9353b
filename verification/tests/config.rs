use dispatch_bench::config::{load_config, parse_config, word, Config, Role};
use dispatch_bench::text::{decimal, is_white, parse_u64, split, trim};

fn chars(s: &str) -> Vec<char> {
    s.chars().collect()
}

#[test]
fn white_space_is_that_of_std() {
    for x in 0..=0x10FFFFu32 {
        if let Some(c) = char::from_u32(x) {
            assert_eq!(is_white(c), c.is_whitespace(), "{x:x}");
        }
    }
}

#[test]
fn trim_is_that_of_std() {
    for s in ["", " ", "a", " a", "a ", "\t a b \r\n", "\u{2003}x\u{3000}", "\u{85}"] {
        let v = chars(s);
        assert_eq!(trim(&v).iter().collect::<String>(), s.trim(), "{s:?}");
    }
}

#[test]
fn numbers_parse_as_in_std() {
    for s in [
        "", "0", "7", "007", "+5", "+", "++5", "-1", "-0", "5x", " 5", "1_000", "0x10", "٣",
        "18446744073709551615", "18446744073709551616", "99999999999999999999999",
        "00000000000000000000000000018446744073709551615",
    ] {
        assert_eq!(parse_u64(&chars(s)), s.parse::<u64>().ok(), "{s:?}");
    }
}

#[test]
fn split_is_that_of_std() {
    for s in ["", ",", "a", "a,b", ",a,,b,", "a,b,c"] {
        let v = chars(s);
        let got: Vec<String> = split(&v, ',').iter().map(|f| f.iter().collect()).collect();
        let want: Vec<String> = s.split(',').map(|f| f.to_string()).collect();
        assert_eq!(got, want, "{s:?}");
    }
}

#[test]
fn decimal_numbers_read_back() {
    for n in [0u64, 9, 10, 99, 100, 1234567890, u64::MAX] {
        let s = decimal(n);
        assert_eq!(s, n.to_string());
        assert_eq!(parse_u64(&chars(&s)), Some(n));
    }
}

#[test]
fn default_configuration() {
    let c = Config::default();
    assert_eq!((c.n, c.m, c.q), (3, 4, 80_000));
    assert_eq!(c.window, 2_000_000_000);
    assert_eq!(c.d_min, 5_000_000);
    assert_eq!(c.d_max, 500_000_000);
    assert_eq!(c.repeats, 3);
    assert_eq!((c.shared_cap, c.spsc_cap), (8192, 8192));
    assert_eq!(c.sample_us, 50);
    assert_eq!(c.orch_work_sweep, vec![0]);
}

#[test]
fn missing_file_falls_back_to_defaults() {
    assert_eq!(load_config(None), Config::default());
    assert_eq!(load_config(Some("")), Config::default());
    assert_eq!(load_config(Some("repeats: 9")).repeats, 9);
}

#[test]
fn every_key_is_read() {
    let c = parse_config(
        "n_strategies: 1\nm_venues: 2\norders_per_strategy: 3\nwindow_ms: 4\nd_min_us: 5\n\
         d_max_us: 6\nrepeats: 7\nshared_cap: 8\nspsc_cap: 9\nsample_us: 10\norch_work_sweep: 11,12\n",
    );
    assert_eq!((c.n, c.m, c.q), (1, 2, 3));
    assert_eq!(c.window, 4_000_000);
    assert_eq!((c.d_min, c.d_max), (5_000, 6_000));
    assert_eq!((c.repeats, c.shared_cap, c.spsc_cap, c.sample_us), (7, 8, 9, 10));
    assert_eq!(c.orch_work_sweep, vec![11, 12]);
}

#[test]
fn comments_blanks_and_nonsense_are_passed_over() {
    let c = parse_config(
        "# n_strategies: 9\r\n\r\n   \nno colon here\nm_venues : 6 # venues: six\nrepeats: -1\n\
         repeats: many\nunknown: 3\n\t spsc_cap:\t+16\t\r\nsample_us: 5: 6\n",
    );
    assert_eq!(c.n, 3);
    assert_eq!(c.m, 6);
    assert_eq!(c.repeats, 3);
    assert_eq!(c.spsc_cap, 16);
    assert_eq!(c.sample_us, 50);
}

#[test]
fn last_valid_line_wins() {
    let c = parse_config("repeats: 5\nrepeats: 6\nrepeats: x\n");
    assert_eq!(c.repeats, 6);
}

#[test]
fn sweep_keeps_the_numbers_of_the_list() {
    assert_eq!(parse_config("orch_work_sweep: 0, 500 ,x,,2000 # ns").orch_work_sweep, vec![0, 500, 2000]);
    assert_eq!(parse_config("orch_work_sweep: x, y").orch_work_sweep, vec![0]);
    assert_eq!(parse_config("orch_work_sweep: 7\norch_work_sweep:").orch_work_sweep, vec![7]);
}

#[test]
fn huge_durations_do_not_overflow() {
    let c = parse_config("window_ms: 18446744073709551615");
    assert_eq!(c.window, u64::MAX as u128 * 1_000_000);
    assert_eq!(word(c.window), c.window as u64);
    assert_eq!(word(u64::MAX as u128 + 6), 5);
}

#[test]
fn cores_are_distinct() {
    let c = Config::default();
    let mut cores: Vec<usize> = Vec::new();
    for s in 0..c.n {
        cores.push(c.core_of(Role::Strategy(s)));
    }
    cores.push(c.core_of(Role::Orchestrator));
    for v in 0..c.m {
        cores.push(c.core_of(Role::Gateway(v)));
    }
    cores.push(c.core_of(Role::Sampler));
    assert_eq!(cores, (0..9).collect::<Vec<usize>>());
    assert_eq!(c.need(), 9);
    assert_eq!(c.total(), 240_000);
    assert!(!c.over_subscribed(0));
    assert!(c.over_subscribed(8));
    assert!(!c.over_subscribed(9));
}

#[test]
fn futile_lines_change_nothing_anywhere() {
    let want = parse_config("n_strategies: 7\nm_venues: 2\norch_work_sweep: 1,2");
    let futile = ["", "# m_venues: 9", "m_venues 9", "venues: 9", "m_venues: x", "m_venues: -1",
        "orch_work_sweep: a,b"];
    for line in futile {
        for place in 0..4 {
            let mut lines = vec!["n_strategies: 7", "m_venues: 2", "orch_work_sweep: 1,2"];
            lines.insert(place, line);
            assert!(parse_config(&lines.join("\n")) == want, "{line}");
        }
    }
}
