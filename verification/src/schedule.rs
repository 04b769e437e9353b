//! When the strategies fire.

use crate::config;
use crate::config::Config;
use crate::rng;
use crate::rng::Rng;
use crate::sorting;
use vstd::prelude::*;

verus! {

/// The seed of a strategy's schedule.
pub open spec fn schedule_seed(strategy: usize) -> u64 {
    0x5C4E_D000u64 ^ (strategy as u64)
}

/// The window of a configuration, in nanoseconds, cut to a machine word.
pub open spec fn window_ns(c: Config) -> u64 {
    (c.window % 0x1_0000_0000_0000_0000) as u64
}

/// The first `q` numbers below `window` that a generator draws from `seed` on.
pub open spec fn draws(seed: u64, q: nat, window: u64) -> Seq<u64> {
    Seq::new(q, |i: int| rng::scaled(rng::mixed(rng::state_after(seed, i + 1)), 0, window))
}

/// `v` is a strategy's schedule: `q` draws from the window, in ascending order.
pub open spec fn scheduled(v: Seq<u64>, strategy: usize, q: nat, window: u64) -> bool {
    sorting::sorts(draws(schedule_seed(strategy), q, window), v)
}

/// The schedule of one strategy.
fn gen_schedule(strategy: usize, q: usize, window: u64) -> (v: Vec<u64>)
    ensures
        scheduled(v@, strategy, q as nat, window),
{
    let seed: u64 = 0x5C4E_D000 ^ strategy as u64;
    let mut g = Rng::new(seed);
    let mut v: Vec<u64> = Vec::new();
    let mut i: usize = 0;
    proof {
        rng::law_states_are_regular(seed, 0);
    }
    while i < q
        invariant
            i <= q,
            window > 0 ==> g.0 == rng::state_after(seed, i as int),
            v@ == draws(seed, i as nat, window),
        decreases q - i,
    {
        proof {
            rng::law_states_are_regular(seed, i as int);
        }
        let x = g.uniform(0, window);
        v.push(x);
        assert(v@ == draws(seed, (i + 1) as nat, window));
        i += 1;
    }
    sorting::sort_unstable(v.as_mut_slice());
    v
}

/// Per-strategy fire-time offsets in nanoseconds: as many as the strategy has
/// orders, drawn uniformly from the window, sorted.
pub fn gen_schedules(c: &Config) -> (r: Vec<Vec<u64>>)
    ensures
        r.len() == c.n,
        forall|s: int|
            0 <= s < c.n ==> scheduled(#[trigger] r[s]@, s as usize, c.q as nat, window_ns(*c)),
{
    let window = config::word(c.window);
    let mut r: Vec<Vec<u64>> = Vec::new();
    let mut s: usize = 0;
    while s < c.n
        invariant
            s <= c.n,
            window == window_ns(*c),
            r.len() == s,
            forall|t: int|
                0 <= t < s ==> scheduled(#[trigger] r[t]@, t as usize, c.q as nat, window),
        decreases c.n - s,
    {
        r.push(gen_schedule(s, c.q, window));
        s += 1;
    }
    r
}

/// The instants at which a strategy fires: its offsets, counted from `start`.
pub fn fire_times(offsets: &[u64], start: u128) -> (v: Vec<u128>)
    requires
        forall|i: int| 0 <= i < offsets.len() ==> start + #[trigger] offsets[i] <= u128::MAX,
    ensures
        v.len() == offsets.len(),
        forall|i: int| 0 <= i < v.len() ==> #[trigger] v[i] == start + offsets[i],
{
    let mut v: Vec<u128> = Vec::new();
    let mut i: usize = 0;
    while i < offsets.len()
        invariant
            forall|j: int| 0 <= j < offsets.len() ==> start + #[trigger] offsets[j] <= u128::MAX,
            i <= offsets.len(),
            v.len() == i,
            forall|j: int| 0 <= j < i ==> #[trigger] v[j] == start + offsets[j],
        decreases offsets.len() - i,
    {
        v.push(start + offsets[i] as u128);
        i += 1;
    }
    v
}

// ---- laws -------------------------------------------------------------------

/// A schedule has one offset for each order, and every offset lies within the
/// window; an empty window puts them all at its start.
pub proof fn law_offsets_lie_in_the_window(v: Seq<u64>, strategy: usize, q: nat, window: u64)
    requires
        scheduled(v, strategy, q, window),
    ensures
        v.len() == q,
        sorting::ascending(v),
        forall|i: int| 0 <= i < v.len() ==> (#[trigger] v[i] < window || window == 0 && v[i] == 0),
{
    let d = draws(schedule_seed(strategy), q, window);
    sorting::lemma_sorted_members(d, v);
    assert forall|i: int| 0 <= i < v.len() implies (#[trigger] v[i] < window || window == 0 && v[i]
        == 0) by {
        assert(d.contains(v[i]));
        let k = choose|k: int| 0 <= k < d.len() && d[k] == v[i];
        let x = rng::mixed(rng::state_after(schedule_seed(strategy), k + 1));
        assert(d[k] == rng::scaled(x, 0, window));
        if window > 0 {
            assert(x % window < window) by (nonlinear_arith)
                requires
                    window > 0,
            ;
        }
    }
}

/// Schedules are deterministic: that of a strategy depends on its number, on how
/// many orders it has and on the window alone.
pub proof fn law_schedules_are_deterministic(
    v: Seq<u64>,
    w: Seq<u64>,
    strategy: usize,
    q: nat,
    window: u64,
)
    requires
        scheduled(v, strategy, q, window),
        scheduled(w, strategy, q, window),
    ensures
        v == w,
{
    sorting::lemma_sorted_is_unique(draws(schedule_seed(strategy), q, window), v, w);
}

/// Each strategy draws from a seed of its own: seeds differ where strategies do,
/// and in just the bits in which their numbers do.
pub proof fn law_strategies_have_their_own_seeds(s: usize, t: usize)
    ensures
        s != t ==> schedule_seed(s) != schedule_seed(t),
        schedule_seed(s) ^ schedule_seed(t) == (s as u64) ^ (t as u64),
        schedule_seed(s) ^ schedule_seed(0) == s as u64,
{
    let a = s as u64;
    let b = t as u64;
    assert(a != b ==> 0x5C4E_D000u64 ^ a != 0x5C4E_D000u64 ^ b) by (bit_vector);
    assert((0x5C4E_D000u64 ^ a) ^ (0x5C4E_D000u64 ^ b) == a ^ b) by (bit_vector);
    assert((0x5C4E_D000u64 ^ a) ^ (0x5C4E_D000u64 ^ 0u64) == a) by (bit_vector);
}

/// One order more is one draw more: a schedule for one more order has the offsets
/// of the shorter one, each as often, and the next output of the generator in
/// addition, brought into the window.
pub proof fn law_one_more_order_is_one_more_draw(
    v: Seq<u64>,
    u: Seq<u64>,
    strategy: usize,
    q: nat,
    window: u64,
)
    requires
        scheduled(v, strategy, q, window),
        scheduled(u, strategy, q + 1, window),
    ensures
        u.to_multiset() == v.to_multiset().insert(
            rng::scaled(
                rng::mixed(rng::state_after(0x5C4E_D000u64 ^ (strategy as u64), q as int + 1)),
                0,
                window,
            ),
        ),
{
    let seed = schedule_seed(strategy);
    let d = draws(seed, q, window);
    let e = draws(seed, q + 1, window);
    assert(e =~= d.push(e[q as int]));
    vstd::seq_lib::to_multiset_build(d, e[q as int]);
}

/// A window that fits into a machine word is the window of the schedule, and a
/// strategy without orders has an empty schedule.
pub proof fn law_window_is_that_of_the_configuration(
    c: Config,
    v: Seq<u64>,
    strategy: usize,
    window: u64,
)
    requires
        scheduled(v, strategy, 0, window),
    ensures
        c.window < 0x1_0000_0000_0000_0000 ==> window_ns(c) == c.window,
        v.len() == 0,
{
    law_offsets_lie_in_the_window(v, strategy, 0, window);
}

/// A longer window is cut to a machine word: only whole machine words are lost.
pub proof fn law_long_windows_go_round(c: Config)
    ensures
        (c.window - window_ns(c)) % 0x1_0000_0000_0000_0000 == 0,
{
    let w = 0x1_0000_0000_0000_0000int;
    let d = c.window as int;
    vstd::arithmetic::div_mod::lemma_mod_bound(d, w);
    vstd::arithmetic::div_mod::lemma_mod_twice(d, w);
    vstd::arithmetic::div_mod::lemma_mod_equivalence(d, d % w, w);
}

} // verus!
