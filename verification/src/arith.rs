//! Facts about remainders.

use vstd::prelude::*;

verus! {

/// The remainder of the next number is one more, or zero at the end of a round.
pub proof fn lemma_next_remainder(x: int, n: int)
    requires
        n > 0,
    ensures
        (x + 1) % n == (if x % n + 1 == n {
            0
        } else {
            x % n + 1
        }),
{
    vstd::arithmetic::div_mod::lemma_fundamental_div_mod(x, n);
    vstd::arithmetic::div_mod::lemma_mod_bound(x, n);
    let q = x / n;
    let r = x % n;
    assert(n * q == q * n) by (nonlinear_arith);
    if r + 1 < n {
        vstd::arithmetic::div_mod::lemma_fundamental_div_mod_converse_mod(x + 1, n, q, r + 1);
    } else {
        assert((q + 1) * n == q * n + n) by (nonlinear_arith);
        vstd::arithmetic::div_mod::lemma_fundamental_div_mod_converse_mod(x + 1, n, q + 1, 0);
    }
}

} // verus!
