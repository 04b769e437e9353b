//! The benchmark's hyperparameters, and the text they are read from: flat
//! `key: value` lines.

use crate::text;
use vstd::prelude::*;

verus! {

/// The hyperparameters. Durations are in nanoseconds.
#[derive(Debug, PartialEq, Eq)]
pub struct Config {
    /// Strategy threads.
    pub n: usize,
    /// Gateway threads (one per venue).
    pub m: usize,
    /// Orders per strategy.
    pub q: usize,
    /// Orders are scheduled uniformly over this time.
    pub window: u128,
    /// The least venue delay.
    pub d_min: u128,
    /// The bound on the venue delay.
    pub d_max: u128,
    /// Runs per technique.
    pub repeats: usize,
    /// Capacity of the contended rings: submission and completion.
    pub shared_cap: usize,
    /// Capacity of the rings with one producer and one consumer.
    pub spsc_cap: usize,
    /// In-flight sampling period, in microseconds.
    pub sample_us: u64,
    /// Orchestrator per-order work (ns), values to sweep.
    pub orch_work_sweep: Vec<u64>,
}

impl Default for Config {
    fn default() -> (c: Config)
        ensures
            configured(c, Seq::empty()),
            c.n == 3,
            c.m == 4,
            c.q == 80_000,
            c.window == 2_000 * MILLI,
            c.d_min == 5_000 * MICRO,
            c.d_max == 500_000 * MICRO,
            c.repeats == 3,
            c.shared_cap == 8192,
            c.spsc_cap == 8192,
            c.sample_us == 50,
            c.orch_work_sweep@ == seq![0u64],
    {
        let c = Config {
            n: 3,
            m: 4,
            q: 80_000,
            window: 2_000 * MILLI,
            d_min: 5_000 * MICRO,
            d_max: 500_000 * MICRO,
            repeats: 3,
            shared_cap: 8192,
            spsc_cap: 8192,
            sample_us: 50,
            orch_work_sweep: vec![0],
        };
        assert(c.orch_work_sweep@ =~= seq![0u64]);
        c
    }
}

/// Nanoseconds of a millisecond.
pub const MILLI: u128 = 1_000_000;

/// Nanoseconds of a microsecond.
pub const MICRO: u128 = 1_000;

/// The key and the value that a line sets, both without the white space around
/// them. A line that is empty, that is a comment or that has no colon sets
/// nothing. The value ends where a comment begins.
pub open spec fn setting(line: Seq<char>) -> Option<(Seq<char>, Seq<char>)> {
    let l = text::trimmed(line);
    if l.len() == 0 || l[0] == '#' || text::first(l, ':') >= l.len() {
        None
    } else {
        Some(
            (
                text::trimmed(text::before(l, ':')),
                text::trimmed(text::before(text::after(l, ':'), '#')),
            ),
        )
    }
}

/// The number that a line sets `key` to.
pub open spec fn number_set(line: Seq<char>, key: Seq<char>) -> Option<u64> {
    match setting(line) {
        Some((k, v)) => if k == key {
            text::number(v)
        } else {
            None
        },
        None => None,
    }
}

/// The numbers among the fields of a comma-separated list.
pub open spec fn numbers(fields: Seq<Seq<char>>) -> Seq<u64>
    decreases fields.len(),
{
    if fields.len() == 0 {
        Seq::empty()
    } else {
        let rest = numbers(fields.drop_last());
        match text::number(text::trimmed(fields.last())) {
            Some(x) => rest.push(x),
            None => rest,
        }
    }
}

/// The list that a line sets the work sweep to.
pub open spec fn sweep_set(line: Seq<char>) -> Option<Seq<u64>> {
    match setting(line) {
        Some((k, v)) => {
            let list = numbers(text::fields(v, ','));
            if k == "orch_work_sweep"@ && list.len() > 0 {
                Some(list)
            } else {
                None
            }
        },
        None => None,
    }
}

/// The number that the last line that sets `key` sets it to.
pub open spec fn last_number(lines: Seq<Seq<char>>, key: Seq<char>) -> Option<u64>
    decreases lines.len(),
{
    if lines.len() == 0 {
        None
    } else {
        match number_set(lines.last(), key) {
            Some(x) => Some(x),
            None => last_number(lines.drop_last(), key),
        }
    }
}

/// The list that the last line that sets the work sweep sets it to.
pub open spec fn last_sweep(lines: Seq<Seq<char>>) -> Option<Seq<u64>>
    decreases lines.len(),
{
    if lines.len() == 0 {
        None
    } else {
        match sweep_set(lines.last()) {
            Some(x) => Some(x),
            None => last_sweep(lines.drop_last()),
        }
    }
}

/// A size that the lines set, or its default.
pub open spec fn size(lines: Seq<Seq<char>>, key: Seq<char>, default: usize) -> usize {
    match last_number(lines, key) {
        Some(x) => x as usize,
        None => default,
    }
}

/// A duration that the lines set in a unit, or its default in that unit.
pub open spec fn duration(
    lines: Seq<Seq<char>>,
    key: Seq<char>,
    unit: u128,
    default: int,
) -> int {
    match last_number(lines, key) {
        Some(x) => x * unit,
        None => default * unit,
    }
}

/// `c` is what the lines set, and what they leave unset is at its default.
pub open spec fn configured(c: Config, lines: Seq<Seq<char>>) -> bool {
    &&& c.n == size(lines, "n_strategies"@, 3)
    &&& c.m == size(lines, "m_venues"@, 4)
    &&& c.q == size(lines, "orders_per_strategy"@, 80_000)
    &&& c.window == duration(lines, "window_ms"@, MILLI, 2_000)
    &&& c.d_min == duration(lines, "d_min_us"@, MICRO, 5_000)
    &&& c.d_max == duration(lines, "d_max_us"@, MICRO, 500_000)
    &&& c.repeats == size(lines, "repeats"@, 3)
    &&& c.shared_cap == size(lines, "shared_cap"@, 8192)
    &&& c.spsc_cap == size(lines, "spsc_cap"@, 8192)
    &&& c.sample_us == match last_number(lines, "sample_us"@) {
        Some(x) => x,
        None => 50,
    }
    &&& c.orch_work_sweep@ == match last_sweep(lines) {
        Some(list) => list,
        None => seq![0u64],
    }
}

/// The key and the value that a line sets.
fn parse_setting(line: &[char]) -> (r: Option<(&[char], &[char])>)
    ensures
        match r {
            Some(kv) => setting(line@) == Some((kv.0@, kv.1@)),
            None => setting(line@) is None,
        },
{
    let l = text::trim(line);
    if l.len() == 0 || l[0] == '#' {
        return None;
    }
    let i = text::find(l, ':');
    if i >= l.len() {
        return None;
    }
    let k = vstd::slice::slice_subrange(l, 0, i);
    let v = vstd::slice::slice_subrange(l, i + 1, l.len());
    let j = text::find(v, '#');
    let v = vstd::slice::slice_subrange(v, 0, j);
    Some((text::trim(k), text::trim(v)))
}

/// The numbers of a comma-separated list; what is no number is left out.
fn parse_numbers(v: &[char]) -> (r: Vec<u64>)
    ensures
        r@ == numbers(text::fields(v@, ',')),
{
    let fields = text::split(v, ',');
    let ghost all = text::contents(fields@);
    let mut r: Vec<u64> = Vec::new();
    let mut i: usize = 0;
    while i < fields.len()
        invariant
            i <= fields.len(),
            all == text::contents(fields@),
            r@ == numbers(all.take(i as int)),
        decreases fields.len() - i,
    {
        assert(all.take(i + 1).drop_last() == all.take(i as int));
        if let Some(x) = text::parse_u64(text::trim(fields[i])) {
            r.push(x);
        }
        i += 1;
    }
    assert(all.take(all.len() as int) == all);
    r
}

/// A line of the configuration, taken apart.
struct Entry<'a> {
    key: &'a [char],
    value: &'a [char],
    number: Option<u64>,
}

impl<'a> Entry<'a> {
    /// This is what `line` sets.
    spec fn of(self, line: Seq<char>) -> bool {
        &&& setting(line) == Some((self.key@, self.value@))
        &&& self.number == text::number(self.value@)
    }

    /// The number that this entry sets `key` to; `current` where it does not.
    fn number(&self, key: &str, current: u64, Ghost(line): Ghost<Seq<char>>) -> (r: u64)
        requires
            self.of(line),
        ensures
            r == match number_set(line, key@) {
                Some(x) => x,
                None => current,
            },
    {
        match self.number {
            Some(x) if text::is_word(self.key, key) => x,
            _ => current,
        }
    }

    /// The size that this entry sets `key` to; `current` where it does not.
    fn size(&self, key: &str, current: usize, Ghost(line): Ghost<Seq<char>>) -> (r: usize)
        requires
            self.of(line),
        ensures
            r == match number_set(line, key@) {
                Some(x) => x as usize,
                None => current,
            },
    {
        match self.number {
            Some(x) if text::is_word(self.key, key) => x as usize,
            _ => current,
        }
    }

    /// The duration that this entry sets `key` to; `current` where it does not.
    fn duration(
        &self,
        key: &str,
        unit: u128,
        current: u128,
        Ghost(line): Ghost<Seq<char>>,
    ) -> (r: u128)
        requires
            self.of(line),
            unit <= MILLI,
        ensures
            r == match number_set(line, key@) {
                Some(x) => x * unit,
                None => current as int,
            },
    {
        match self.number {
            Some(x) if text::is_word(self.key, key) => {
                assert(x * unit <= u64::MAX * MILLI) by (nonlinear_arith)
                    requires
                        x <= u64::MAX,
                        unit <= MILLI,
                ;
                x as u128 * unit
            },
            _ => current,
        }
    }
}

impl Config {
    /// Takes in what one more line sets.
    fn apply(&mut self, line: &[char], Ghost(lines): Ghost<Seq<Seq<char>>>)
        requires
            configured(*old(self), lines),
        ensures
            configured(*final(self), lines.push(line@)),
    {
        assert(lines.push(line@).drop_last() == lines);
        let (key, value) = match parse_setting(line) {
            Some(kv) => kv,
            None => {
                return;
            },
        };
        if text::is_word(key, "orch_work_sweep") {
            let list = parse_numbers(value);
            if list.len() > 0 {
                self.orch_work_sweep = list;
            }
        }
        let e = Entry { key, value, number: text::parse_u64(value) };
        let l: Ghost<Seq<char>> = Ghost(line@);
        self.n = e.size("n_strategies", self.n, l);
        self.m = e.size("m_venues", self.m, l);
        self.q = e.size("orders_per_strategy", self.q, l);
        self.window = e.duration("window_ms", MILLI, self.window, l);
        self.d_min = e.duration("d_min_us", MICRO, self.d_min, l);
        self.d_max = e.duration("d_max_us", MICRO, self.d_max, l);
        self.repeats = e.size("repeats", self.repeats, l);
        self.shared_cap = e.size("shared_cap", self.shared_cap, l);
        self.spsc_cap = e.size("spsc_cap", self.spsc_cap, l);
        self.sample_us = e.number("sample_us", self.sample_us, l);
    }
}

/// Parses the text of a configuration. A later line takes precedence over an
/// earlier one; a line that makes no sense is passed over.
pub fn parse_config(source: &str) -> (c: Config)
    ensures
        configured(c, text::fields(source@, '\n')),
{
    let chars = text::chars(source);
    let lines = text::split(chars.as_slice(), '\n');
    let ghost all = text::contents(lines@);
    let mut c = Config::default();
    assert(all.take(0) == Seq::<Seq<char>>::empty());
    let mut i: usize = 0;
    while i < lines.len()
        invariant
            i <= lines.len(),
            all == text::contents(lines@),
            configured(c, all.take(i as int)),
        decreases lines.len() - i,
    {
        assert(all.take(i + 1) == all.take(i as int).push(lines[i as int]@));
        c.apply(lines[i], Ghost(all.take(i as int)));
        i += 1;
    }
    assert(all.take(all.len() as int) == all);
    c
}

/// The configuration that a file gives; the defaults where there is no file.
pub fn load_config(file: Option<&str>) -> (c: Config)
    ensures
        match file {
            Some(source) => configured(c, text::fields(source@, '\n')),
            None => configured(c, Seq::empty()),
        },
{
    match file {
        Some(source) => parse_config(source),
        None => Config::default(),
    }
}

// ---- threads and cores ------------------------------------------------------

/// The threads of a run.
#[derive(Clone, Copy, Debug, PartialEq, Eq)]
pub enum Role {
    Strategy(usize),
    Orchestrator,
    Gateway(usize),
    Sampler,
}

impl Config {
    /// The number of threads of a run: the strategies, the gateways, the
    /// orchestrator and the sampler.
    pub open spec fn threads(self) -> int {
        self.n + self.m + 2
    }

    /// Whether a run has this thread.
    pub open spec fn has(self, role: Role) -> bool {
        match role {
            Role::Strategy(s) => s < self.n,
            Role::Gateway(v) => v < self.m,
            _ => true,
        }
    }

    /// The core that a thread is pinned to: the strategies come first, then the
    /// orchestrator, then the gateways, and the sampler last.
    pub open spec fn pinned_core(self, role: Role) -> int {
        match role {
            Role::Strategy(s) => s as int,
            Role::Orchestrator => self.n as int,
            Role::Gateway(v) => self.n + 1 + v,
            Role::Sampler => self.n + 1 + self.m,
        }
    }

    /// The number of threads of a run.
    pub fn need(&self) -> (k: usize)
        requires
            self.threads() <= usize::MAX,
        ensures
            k == self.threads(),
    {
        self.n + self.m + 2
    }

    /// The core that a thread is pinned to.
    pub fn core_of(&self, role: Role) -> (k: usize)
        requires
            self.threads() <= usize::MAX,
            self.has(role),
        ensures
            k == self.pinned_core(role),
    {
        match role {
            Role::Strategy(s) => s,
            Role::Orchestrator => self.n,
            Role::Gateway(v) => self.n + 1 + v,
            Role::Sampler => self.n + 1 + self.m,
        }
    }

    /// Whether a run has more threads than there are cores; a core count of zero
    /// is an unknown one.
    pub fn over_subscribed(&self, cores: usize) -> (b: bool)
        requires
            self.threads() <= usize::MAX,
        ensures
            b <==> 0 < cores < self.threads(),
    {
        cores != 0 && cores < self.need()
    }

    /// The number of orders of a run.
    pub fn total(&self) -> (k: usize)
        requires
            self.n * self.q <= usize::MAX,
        ensures
            k == self.n * self.q,
    {
        self.n * self.q
    }
}

/// A duration in nanoseconds, cut to a machine word.
pub fn word(ns: u128) -> (w: u64)
    ensures
        w == ns % 0x1_0000_0000_0000_0000,
{
    let w = #[verifier::truncate] (ns as u64);
    assert(ns as u64 == ns % 0x1_0000_0000_0000_0000) by (bit_vector);
    w
}

// ---- laws -------------------------------------------------------------------

/// Each thread of a run has a core of its own, and no more cores are used than
/// there are threads.
pub proof fn law_cores_are_distinct(c: Config, a: Role, b: Role)
    requires
        c.has(a),
        c.has(b),
    ensures
        0 <= c.pinned_core(a) < c.threads(),
        a != b ==> c.pinned_core(a) != c.pinned_core(b),
{
}

/// The last line that sets a number wins over all lines before it, and a line
/// that does not set it leaves it alone.
pub proof fn law_last_line_wins(lines: Seq<Seq<char>>, line: Seq<char>, key: Seq<char>)
    ensures
        last_number(lines.push(line), key) == match number_set(line, key) {
            Some(x) => Some(x),
            None => last_number(lines, key),
        },
{
    assert(lines.push(line).drop_last() =~= lines);
}

/// The keys that a number is set under.
pub open spec fn known(key: Seq<char>) -> bool {
    ||| key == "n_strategies"@
    ||| key == "m_venues"@
    ||| key == "orders_per_strategy"@
    ||| key == "window_ms"@
    ||| key == "d_min_us"@
    ||| key == "d_max_us"@
    ||| key == "repeats"@
    ||| key == "shared_cap"@
    ||| key == "spsc_cap"@
    ||| key == "sample_us"@
}

/// A line with a key and a value that sets nothing all the same: the key is
/// unknown, or the value is no number, or no list with a number in it.
pub open spec fn futile(line: Seq<char>) -> bool {
    setting(line) matches Some((k, v)) && {
        &&& known(k) ==> text::number(v) is None
        &&& k == "orch_work_sweep"@ ==> numbers(text::fields(v, ',')).len() == 0
    }
}

/// A line that does not set `key` can be put anywhere.
proof fn lemma_last_number_insert(
    lines: Seq<Seq<char>>,
    i: int,
    line: Seq<char>,
    key: Seq<char>,
)
    requires
        0 <= i <= lines.len(),
        number_set(line, key) is None,
    ensures
        last_number(lines.insert(i, line), key) == last_number(lines, key),
    decreases lines.len(),
{
    let all = lines.insert(i, line);
    if i == lines.len() {
        assert(all.drop_last() =~= lines);
    } else {
        lemma_last_number_insert(lines.drop_last(), i, line, key);
        assert(all.drop_last() =~= lines.drop_last().insert(i, line));
        assert(all.last() == lines.last());
    }
}

/// A line that does not set the work sweep can be put anywhere.
proof fn lemma_last_sweep_insert(lines: Seq<Seq<char>>, i: int, line: Seq<char>)
    requires
        0 <= i <= lines.len(),
        sweep_set(line) is None,
    ensures
        last_sweep(lines.insert(i, line)) == last_sweep(lines),
    decreases lines.len(),
{
    let all = lines.insert(i, line);
    if i == lines.len() {
        assert(all.drop_last() =~= lines);
    } else {
        lemma_last_sweep_insert(lines.drop_last(), i, line);
        assert(all.drop_last() =~= lines.drop_last().insert(i, line));
        assert(all.last() == lines.last());
    }
}

/// Empty lines, comment lines, lines without a colon, lines with an unknown key
/// and lines whose value does not parse change nothing, wherever they stand.
pub proof fn law_lines_that_set_nothing(
    c: Config,
    lines: Seq<Seq<char>>,
    i: int,
    line: Seq<char>,
)
    requires
        0 <= i <= lines.len(),
        ({
            let l = text::trimmed(line);
            l.len() == 0 || l[0] == '#' || !l.contains(':') || futile(line)
        }),
    ensures
        configured(c, lines.insert(i, line)) <==> configured(c, lines),
{
    let l = text::trimmed(line);
    text::lemma_first(l, ':');
    assert(setting(line) is None || futile(line));
    assert forall|key: Seq<char>| #[trigger] known(key) implies last_number(
        lines.insert(i, line),
        key,
    ) == last_number(lines, key) by {
        lemma_last_number_insert(lines, i, line, key);
    }
    lemma_last_sweep_insert(lines, i, line);
    assert(known("n_strategies"@) && known("m_venues"@) && known("orders_per_strategy"@));
    assert(known("window_ms"@) && known("d_min_us"@) && known("d_max_us"@) && known("repeats"@));
    assert(known("shared_cap"@) && known("spsc_cap"@) && known("sample_us"@));
}

/// Lines may end in a carriage return.
pub proof fn law_carriage_return_is_ignored(line: Seq<char>)
    ensures
        setting(line.push('\r')) == setting(line),
{
    text::lemma_trimmed_push(line, '\r');
}

/// An inline comment is stripped: what follows a number sign in a line that sets
/// something does not change what it sets.
pub proof fn law_inline_comment_is_stripped(line: Seq<char>, comment: Seq<char>)
    requires
        setting(line) is Some,
    ensures
        setting(line.push('#') + comment) == setting(line),
{
    let p = text::trimmed_start(line);
    let l = text::trimmed_end(p);
    let w = text::lemma_trimmed_end_prefix(p);
    text::lemma_trimmed_start_append(line, seq!['#'] + comment);
    assert(line.push('#') + comment =~= line + (seq!['#'] + comment));
    assert(p + (seq!['#'] + comment) =~= p.push('#') + comment);
    let c = text::lemma_trimmed_end_append(p.push('#'), comment);
    let rest = w.push('#') + c;
    let l2 = text::trimmed(line.push('#') + comment);
    assert(l2 =~= l + rest);
    text::lemma_first(l, ':');
    let i = text::first(l, ':');
    text::lemma_first_is(l2, ':', i);
    assert(text::before(l2, ':') =~= text::before(l, ':'));
    let a = text::after(l, ':');
    let a2 = text::after(l2, ':');
    assert(a2 =~= a + rest);
    text::lemma_first(a, '#');
    let j = text::first(a, '#');
    if j < a.len() {
        text::lemma_first_is(a2, '#', j);
        assert(text::before(a2, '#') =~= text::before(a, '#'));
    } else {
        assert forall|k: int| 0 <= k < j + w.len() implies a2[k] != '#' by {
            if k >= j {
                assert(text::white(w[k - j]));
                assert(a2[k] == w[k - j]);
            }
        }
        text::lemma_first_is(a2, '#', j + w.len());
        assert(text::before(a2, '#') =~= a + w);
        assert(text::before(a, '#') =~= a);
        text::lemma_trimmed_append(a, w);
    }
}

/// A configuration without any line is the default one.
pub proof fn law_empty_text_is_default(c: Config)
    requires
        configured(c, text::fields(Seq::empty(), '\n')),
    ensures
        configured(c, Seq::empty()),
{
    let lines = text::fields(Seq::empty(), '\n');
    let line = Seq::<char>::empty();
    assert(lines =~= Seq::<Seq<char>>::empty().insert(0, line));
    law_lines_that_set_nothing(c, Seq::empty(), 0, line);
}

/// A line that sets a key changes the field of that key alone, to the number that
/// the value stands for, in the key's unit; a value that is no number changes none.
/// `c` is what the lines before set, and `d` what they set with the line.
pub proof fn law_a_line_sets_the_field_of_its_key(
    c: Config,
    d: Config,
    lines: Seq<Seq<char>>,
    line: Seq<char>,
    k: Seq<char>,
    v: Seq<char>,
)
    requires
        configured(c, lines),
        configured(d, lines.push(line)),
        setting(line) == Some((k, v)),
    ensures
        d.n == (match text::number(v) {
            Some(x) if k == "n_strategies"@ => x as usize,
            _ => c.n,
        }),
        d.m == (match text::number(v) {
            Some(x) if k == "m_venues"@ => x as usize,
            _ => c.m,
        }),
        d.q == (match text::number(v) {
            Some(x) if k == "orders_per_strategy"@ => x as usize,
            _ => c.q,
        }),
        d.window == (match text::number(v) {
            Some(x) if k == "window_ms"@ => x * 1_000_000,
            _ => c.window as int,
        }),
        d.d_min == (match text::number(v) {
            Some(x) if k == "d_min_us"@ => x * 1_000,
            _ => c.d_min as int,
        }),
        d.d_max == (match text::number(v) {
            Some(x) if k == "d_max_us"@ => x * 1_000,
            _ => c.d_max as int,
        }),
        d.repeats == (match text::number(v) {
            Some(x) if k == "repeats"@ => x as usize,
            _ => c.repeats,
        }),
        d.shared_cap == (match text::number(v) {
            Some(x) if k == "shared_cap"@ => x as usize,
            _ => c.shared_cap,
        }),
        d.spsc_cap == (match text::number(v) {
            Some(x) if k == "spsc_cap"@ => x as usize,
            _ => c.spsc_cap,
        }),
        d.sample_us == (match text::number(v) {
            Some(x) if k == "sample_us"@ => x,
            _ => c.sample_us,
        }),
        d.orch_work_sweep@ == (if k == "orch_work_sweep"@ && numbers(
            text::fields(v, ','),
        ).len() > 0 {
            numbers(text::fields(v, ','))
        } else {
            c.orch_work_sweep@
        }),
{
    assert(lines.push(line).drop_last() =~= lines);
}

/// Without any line, each field has its default.
pub proof fn law_defaults(c: Config)
    requires
        configured(c, Seq::empty()),
    ensures
        c.n == 3,
        c.m == 4,
        c.q == 80_000,
        c.window == 2_000_000_000,
        c.d_min == 5_000_000,
        c.d_max == 500_000_000,
        c.repeats == 3,
        c.shared_cap == 8192,
        c.spsc_cap == 8192,
        c.sample_us == 50,
        c.orch_work_sweep@ == seq![0u64],
{
}

/// The same lines set the same: a configuration is all that its lines say, and no
/// more.
pub proof fn law_lines_determine_the_configuration(c: Config, d: Config, lines: Seq<Seq<char>>)
    requires
        configured(c, lines),
        configured(d, lines),
    ensures
        c.n == d.n && c.m == d.m && c.q == d.q && c.repeats == d.repeats,
        c.window == d.window && c.d_min == d.d_min && c.d_max == d.d_max,
        c.shared_cap == d.shared_cap && c.spsc_cap == d.spsc_cap && c.sample_us == d.sample_us,
        c.orch_work_sweep@ == d.orch_work_sweep@,
{
}

/// A line has a key before its first colon and a value after it, both without the
/// white space around them.
pub proof fn law_a_line_is_a_key_and_a_value(k: Seq<char>, v: Seq<char>)
    requires
        !k.contains(':'),
        !v.contains('#'),
        text::trimmed(k).len() > 0,
        text::trimmed(k)[0] != '#',
    ensures
        setting(k.push(':') + v) == Some((text::trimmed(k), text::trimmed(v))),
{
    text::lemma_trimmed_pair(k, ':', v);
    let l = text::trimmed(k.push(':') + v);
    let u = text::after(l, ':');
    let w = choose|w: Seq<char>|
        {
            &&& v == #[trigger] (u + w)
            &&& forall|i: int| 0 <= i < w.len() ==> text::white(#[trigger] w[i])
        };
    text::lemma_trimmed_append(u, w);
    assert forall|i: int| 0 <= i < u.len() implies u[i] != '#' by {
        assert(v[i] == u[i]);
    }
    text::lemma_first_is(u, '#', u.len() as int);
    assert(text::before(u, '#') =~= u);
}

/// A list of values is read field by field: the numbers of some fields and of some
/// more are one after the other, and one field gives the number that it stands for,
/// if it does, and nothing otherwise.
pub proof fn law_lists_are_read_field_by_field(
    a: Seq<Seq<char>>,
    b: Seq<Seq<char>>,
    f: Seq<char>,
)
    ensures
        numbers(a + b) == numbers(a) + numbers(b),
        numbers(Seq::empty()) == Seq::<u64>::empty(),
        text::number(text::trimmed(f)) matches Some(x) ==> numbers(seq![f]) == seq![x],
        text::number(text::trimmed(f)) is None ==> numbers(seq![f]) == Seq::<u64>::empty(),
    decreases b.len(),
{
    reveal_with_fuel(numbers, 2);
    assert(seq![f].drop_last() =~= Seq::empty());
    if let Some(x) = text::number(text::trimmed(f)) {
        assert(numbers(seq![f]) =~= seq![x]);
    }
    if b.len() == 0 {
        assert(a + b =~= a);
        assert(numbers(a) + numbers(b) =~= numbers(a));
    } else {
        law_lists_are_read_field_by_field(a, b.drop_last(), f);
        assert((a + b).drop_last() =~= a + b.drop_last());
        assert(numbers(a + b) =~= numbers(a) + numbers(b));
    }
}

/// Where every field is a number, the list has one value for each field, in the
/// order of the fields.
pub proof fn law_lists_of_numbers_keep_all_values(fields: Seq<Seq<char>>)
    requires
        forall|i: int|
            0 <= i < fields.len() ==> text::number(text::trimmed(#[trigger] fields[i])) is Some,
    ensures
        numbers(fields).len() == fields.len(),
        forall|i: int|
            0 <= i < fields.len() ==> text::number(text::trimmed(#[trigger] fields[i])) == Some(
                numbers(fields)[i],
            ),
    decreases fields.len(),
{
    if fields.len() > 0 {
        let p = fields.drop_last();
        assert forall|i: int| 0 <= i < p.len() implies text::number(
            text::trimmed(#[trigger] p[i]),
        ) is Some by {
            assert(p[i] == fields[i]);
        }
        law_lists_of_numbers_keep_all_values(p);
        assert(fields[fields.len() - 1] == fields.last());
        assert forall|i: int| 0 <= i < fields.len() implies text::number(
            text::trimmed(#[trigger] fields[i]),
        ) == Some(numbers(fields)[i]) by {
            if i < p.len() {
                assert(p[i] == fields[i]);
            }
        }
    }
}

/// The cores are used in the order strategies, orchestrator, gateways, sampler, one
/// for each thread and none left out in between.
pub proof fn law_cores_are_used_in_order(c: Config, s: usize, v: usize, core: int)
    requires
        s < c.n,
        v < c.m,
    ensures
        c.threads() == c.n + c.m + 2,
        c.pinned_core(Role::Strategy(s)) == s,
        c.pinned_core(Role::Orchestrator) == c.n,
        c.pinned_core(Role::Gateway(v)) == c.n + 1 + v,
        c.pinned_core(Role::Sampler) == c.n + c.m + 1,
        0 <= core < c.n ==> c.pinned_core(Role::Strategy(core as usize)) == core,
        c.n < core <= c.n + c.m ==> c.pinned_core(Role::Gateway((core - c.n - 1) as usize))
            == core,
{
}

/// A run has its strategies, its gateways, the orchestrator and the sampler, and no
/// other thread.
pub proof fn law_threads_of_a_run(c: Config, i: usize)
    ensures
        c.has(Role::Strategy(i)) <==> i < c.n,
        c.has(Role::Gateway(i)) <==> i < c.m,
        c.has(Role::Orchestrator),
        c.has(Role::Sampler),
{
}

} // verus!
