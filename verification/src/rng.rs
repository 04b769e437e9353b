//! A deterministic random number generator (splitmix64).

use vstd::prelude::*;

verus! {

/// The step between two states.
pub const GAMMA: u64 = 0x9E37_79B9_7F4A_7C15;

const MUL_A: u64 = 0xBF58_476D_1CE4_E5B9;

const MUL_B: u64 = 0x94D0_49BB_1331_11EB;

/// Addition of machine words.
pub open spec fn word_sum(x: int, y: int) -> u64 {
    ((x + y) % 0x1_0000_0000_0000_0000) as u64
}

/// Multiplication of machine words.
pub open spec fn word_product(x: int, y: int) -> u64 {
    ((x * y) % 0x1_0000_0000_0000_0000) as u64
}

/// The output that belongs to the state `s`.
pub open spec fn mixed(s: u64) -> u64 {
    let a = word_product((s ^ (s >> 30)) as int, 0xBF58_476D_1CE4_E5B9);
    let b = word_product((a ^ (a >> 27)) as int, 0x94D0_49BB_1331_11EB);
    b ^ (b >> 31)
}

/// The state `k` steps after `seed`.
pub open spec fn state_after(seed: u64, k: int) -> u64 {
    word_sum(seed as int, k * GAMMA)
}

/// The output `x`, brought into the range from `lo` up to, but not including,
/// `hi`; `lo` where there is no such range.
pub open spec fn scaled(x: u64, lo: u64, hi: u64) -> u64 {
    if hi <= lo {
        lo
    } else {
        (lo + x % ((hi - lo) as u64)) as u64
    }
}

/// The generator: its state is one machine word.
#[derive(Clone, Copy, Debug, PartialEq, Eq)]
pub struct Rng(pub u64);

impl Rng {
    /// The generator that starts at `seed`.
    pub fn new(seed: u64) -> (r: Rng)
        ensures
            r.0 == seed,
    {
        Rng(seed)
    }

    /// The next output.
    pub fn next(&mut self) -> (x: u64)
        ensures
            final(self).0 == word_sum(old(self).0 as int, GAMMA as int),
            x == mixed(final(self).0),
    {
        self.0 = self.0.wrapping_add(GAMMA);
        let mut z: u64 = self.0;
        z = (z ^ (z >> 30)).wrapping_mul(MUL_A);
        z = (z ^ (z >> 27)).wrapping_mul(MUL_B);
        z ^ (z >> 31)
    }

    /// A number from `lo` up to, but not including, `hi`. Where there is none it
    /// is `lo`, and the generator stays as it is.
    pub fn uniform(&mut self, lo: u64, hi: u64) -> (x: u64)
        ensures
            final(self).0 == (if hi <= lo {
                old(self).0
            } else {
                word_sum(old(self).0 as int, GAMMA as int)
            }),
            x == scaled(mixed(final(self).0), lo, hi),
            lo < hi ==> lo <= x < hi,
            hi <= lo ==> x == lo,
    {
        if hi <= lo {
            return lo;
        }
        let d = hi - lo;
        let y = self.next();
        assert(y % d < d) by (nonlinear_arith)
            requires
                d > 0,
        ;
        lo + y % d
    }
}

// ---- laws -------------------------------------------------------------------

/// The generator is deterministic, and its outputs can be told without stepping
/// through them: one step from the state after `k` steps leads to the state
/// after `k + 1`.
pub proof fn law_states_are_regular(seed: u64, k: int)
    requires
        0 <= k,
    ensures
        state_after(seed, 0) == seed,
        state_after(seed, k + 1) == word_sum(state_after(seed, k) as int, GAMMA as int),
{
    let w = 0x1_0000_0000_0000_0000int;
    let x = seed + k * GAMMA;
    assert((k + 1) * GAMMA == k * GAMMA + GAMMA) by (nonlinear_arith);
    assert(0 * GAMMA == 0);
    vstd::arithmetic::div_mod::lemma_add_mod_noop(x, GAMMA as int, w);
    vstd::arithmetic::div_mod::lemma_mod_bound(x, w);
    vstd::arithmetic::div_mod::lemma_small_mod(GAMMA as nat, w as nat);
}

/// Multiplication by a number that has an inverse can be undone.
proof fn lemma_undo(x: int, a: int, b: int)
    requires
        0 <= x < 0x1_0000_0000_0000_0000,
        (a * b) % 0x1_0000_0000_0000_0000 == 1,
    ensures
        (((x * a) % 0x1_0000_0000_0000_0000) * b) % 0x1_0000_0000_0000_0000 == x,
{
    let w = 0x1_0000_0000_0000_0000int;
    vstd::arithmetic::div_mod::lemma_mul_mod_noop(x * a, b, w);
    vstd::arithmetic::div_mod::lemma_mul_mod_noop_left(x * a, b, w);
    assert(x * a * b == x * (a * b)) by (nonlinear_arith);
    vstd::arithmetic::div_mod::lemma_mul_mod_noop_right(x, a * b, w);
    assert(x * 1 == x);
    vstd::arithmetic::div_mod::lemma_small_mod(x as nat, w as nat);
}

/// Different states have different outputs: none of the outputs comes up twice
/// before all have come up.
pub proof fn law_outputs_tell_states_apart(s: u64, t: u64)
    requires
        s != t,
    ensures
        mixed(s) != mixed(t),
{
    let w = 0x1_0000_0000_0000_0000int;
    if mixed(s) == mixed(t) {
        let x = s ^ (s >> 30);
        let y = t ^ (t >> 30);
        let a = word_product(x as int, 0xBF58_476D_1CE4_E5B9);
        let b = word_product(y as int, 0xBF58_476D_1CE4_E5B9);
        let p = a ^ (a >> 27);
        let q = b ^ (b >> 27);
        let c = word_product(p as int, 0x94D0_49BB_1331_11EB);
        let d = word_product(q as int, 0x94D0_49BB_1331_11EB);
        assert(c ^ (c >> 31) == d ^ (d >> 31) ==> c == d) by (bit_vector);
        vstd::arithmetic::div_mod::lemma_mod_bound(p * 0x94D0_49BB_1331_11EB, w);
        vstd::arithmetic::div_mod::lemma_mod_bound(q * 0x94D0_49BB_1331_11EB, w);
        vstd::arithmetic::div_mod::lemma_mod_bound(x * 0xBF58_476D_1CE4_E5B9, w);
        vstd::arithmetic::div_mod::lemma_mod_bound(y * 0xBF58_476D_1CE4_E5B9, w);
        lemma_undo(p as int, 0x94D0_49BB_1331_11EB, 0x3196_42B2_D24D_8EC3);
        lemma_undo(q as int, 0x94D0_49BB_1331_11EB, 0x3196_42B2_D24D_8EC3);
        assert(a ^ (a >> 27) == b ^ (b >> 27) ==> a == b) by (bit_vector);
        lemma_undo(x as int, 0xBF58_476D_1CE4_E5B9, 0x96DE_1B17_3F11_9089);
        lemma_undo(y as int, 0xBF58_476D_1CE4_E5B9, 0x96DE_1B17_3F11_9089);
        assert(s ^ (s >> 30) == t ^ (t >> 30) ==> s == t) by (bit_vector);
    }
}

/// The generator has a full period: no state comes up again within as many steps
/// as there are machine words.
pub proof fn law_states_do_not_repeat(seed: u64, i: int, j: int)
    requires
        0 <= i < j,
        j - i < 0x1_0000_0000_0000_0000,
    ensures
        state_after(seed, i) != state_after(seed, j),
{
    let w = 0x1_0000_0000_0000_0000int;
    if state_after(seed, i) == state_after(seed, j) {
        let g = GAMMA as int;
        let x = seed + i * g;
        let y = seed + j * g;
        vstd::arithmetic::div_mod::lemma_mod_bound(x, w);
        vstd::arithmetic::div_mod::lemma_mod_bound(y, w);
        vstd::arithmetic::div_mod::lemma_mod_equivalence(y, x, w);
        assert(y - x == (j - i) * g) by (nonlinear_arith)
            requires
                y == seed + j * g,
                x == seed + i * g,
        ;
        lemma_undo(j - i, g, 0xF1DE_83E1_9937_733D);
    }
}

/// Steps add up: so many steps after so many steps.
pub proof fn law_steps_add_up(seed: u64, i: int, j: int)
    requires
        0 <= i,
        0 <= j,
    ensures
        state_after(state_after(seed, i), j) == state_after(seed, i + j),
{
    let w = 0x1_0000_0000_0000_0000int;
    let g = GAMMA as int;
    let x = seed + i * g;
    vstd::arithmetic::div_mod::lemma_mod_bound(x, w);
    vstd::arithmetic::div_mod::lemma_add_mod_noop(x, j * g, w);
    vstd::arithmetic::div_mod::lemma_add_mod_noop(x % w, j * g, w);
    vstd::arithmetic::div_mod::lemma_mod_twice(x, w);
    assert((i + j) * g == i * g + j * g) by (nonlinear_arith);
}

/// An output is brought into a range without a gap and without moving what is in
/// it already: an output below the range's length stands for itself, counted from
/// the range's lower end, and outputs that are apart by the length are the same.
pub proof fn law_range_is_filled_evenly(x: u64, lo: u64, hi: u64)
    ensures
        lo < hi ==> lo <= scaled(x, lo, hi) < hi,
        lo < hi && x < hi - lo ==> scaled(x, lo, hi) == lo + x,
        lo < hi && x >= hi - lo ==> scaled(x, lo, hi) == scaled((x - (hi - lo)) as u64, lo, hi),
        hi <= lo ==> scaled(x, lo, hi) == lo,
{
    if lo < hi {
        let d = hi - lo;
        vstd::arithmetic::div_mod::lemma_mod_bound(x as int, d);
        if x < d {
            vstd::arithmetic::div_mod::lemma_small_mod(x as nat, d as nat);
        } else {
            vstd::arithmetic::div_mod::lemma_mod_bound(x - d, d);
            vstd::arithmetic::div_mod::lemma_mod_sub_multiples_vanish(x as int, d);
        }
    }
}

/// An output can be undone: the state that it belongs to is had back by undoing the
/// last shift, the two multiplications, which have inverses, and the shifts before
/// them.
pub proof fn law_outputs_can_be_undone(s: u64)
    ensures
        ({
            let z = mixed(s);
            let b = z ^ (z >> 31) ^ (z >> 62);
            let p = word_product(b as int, 0x3196_42B2_D24D_8EC3);
            let a = p ^ (p >> 27) ^ (p >> 54);
            let q = word_product(a as int, 0x96DE_1B17_3F11_9089);
            q ^ (q >> 30) ^ (q >> 60) == s
        }),
{
    let x = s ^ (s >> 30);
    let a = word_product(x as int, 0xBF58_476D_1CE4_E5B9);
    let p = a ^ (a >> 27);
    let b = word_product(p as int, 0x94D0_49BB_1331_11EB);
    let z = b ^ (b >> 31);
    vstd::arithmetic::div_mod::lemma_mod_bound(x * 0xBF58_476D_1CE4_E5B9, 0x1_0000_0000_0000_0000);
    vstd::arithmetic::div_mod::lemma_mod_bound(p * 0x94D0_49BB_1331_11EB, 0x1_0000_0000_0000_0000);
    assert((b ^ (b >> 31)) ^ ((b ^ (b >> 31)) >> 31) ^ ((b ^ (b >> 31)) >> 62) == b)
        by (bit_vector);
    lemma_undo(p as int, 0x94D0_49BB_1331_11EB, 0x3196_42B2_D24D_8EC3);
    assert((a ^ (a >> 27)) ^ ((a ^ (a >> 27)) >> 27) ^ ((a ^ (a >> 27)) >> 54) == a)
        by (bit_vector);
    lemma_undo(x as int, 0xBF58_476D_1CE4_E5B9, 0x96DE_1B17_3F11_9089);
    assert((s ^ (s >> 30)) ^ ((s ^ (s >> 30)) >> 30) ^ ((s ^ (s >> 30)) >> 60) == s)
        by (bit_vector);
}

/// Machine words are added and multiplied as numbers are, as long as the result is
/// a machine word, and go round otherwise.
pub proof fn law_machine_words_go_round(x: u64, y: u64)
    ensures
        x + y <= u64::MAX ==> word_sum(x as int, y as int) == x + y,
        x + y > u64::MAX ==> word_sum(x as int, y as int) == x + y - 0x1_0000_0000_0000_0000,
        x * y <= u64::MAX ==> word_product(x as int, y as int) == x * y,
        (x * y - word_product(x as int, y as int)) % 0x1_0000_0000_0000_0000 == 0,
{
    let w = 0x1_0000_0000_0000_0000int;
    let p = x * y;
    assert(0 <= p) by (nonlinear_arith)
        requires
            p == x * y,
            0 <= x,
            0 <= y,
    ;
    vstd::arithmetic::div_mod::lemma_mod_bound(p, w);
    vstd::arithmetic::div_mod::lemma_mod_twice(p, w);
    vstd::arithmetic::div_mod::lemma_mod_equivalence(p, p % w, w);
    if x + y <= u64::MAX {
        vstd::arithmetic::div_mod::lemma_small_mod((x + y) as nat, w as nat);
    } else {
        vstd::arithmetic::div_mod::lemma_small_mod((x + y - w) as nat, w as nat);
        vstd::arithmetic::div_mod::lemma_mod_sub_multiples_vanish(x + y, w);
    }
    if p <= u64::MAX {
        vstd::arithmetic::div_mod::lemma_small_mod(p as nat, w as nat);
    }
}

} // verus!
