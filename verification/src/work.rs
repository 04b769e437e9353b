//! The work that the orchestrator does for each order.

use crate::arith;
use vstd::prelude::*;

verus! {

/// `std::hint::black_box`: the identity; it keeps the optimiser from seeing that
/// nobody reads what it is given.
pub assume_specification<T>[ std::hint::black_box::<T> ](dummy: T) -> (r: T)
    ensures
        r == dummy,
;

/// What the first `iters` iterations add to cell `i` of `len`: iteration `k`
/// works on cell `k % len` and adds `k` with its lowest bit set.
pub open spec fn added(iters: int, len: int, i: int) -> int
    decreases iters,
{
    if iters <= 0 {
        0
    } else {
        added(iters - 1, len, i) + (if (iters - 1) % len == i {
            ((iters - 1) as u64 | 1) as int
        } else {
            0
        })
    }
}

/// `b` is `a` after `iters` iterations: each cell has what they add to it, in
/// machine words.
pub open spec fn worked(a: Seq<u64>, b: Seq<u64>, iters: int) -> bool {
    &&& b.len() == a.len()
    &&& forall|i: int|
        0 <= i < a.len() ==> #[trigger] b[i] == (a[i] + added(iters, a.len() as int, i))
            % 0x1_0000_0000_0000_0000
}

/// Simulates per-order work: `iters` read-modify-writes over `scratch`. It
/// models an engine that does real work per order; it burns CPU and perturbs
/// the thread's own cache, so the next handoff finds colder lines. A fixed
/// iteration count (not a wall-clock deadline) keeps this a CPU cost.
pub fn simulate_work(iters: u64, scratch: &mut [u64])
    requires
        iters > 0 ==> old(scratch)@.len() > 0,
    ensures
        worked(old(scratch)@, final(scratch)@, iters as int),
{
    let len = scratch.len();
    let mut i: usize = 0;
    let mut k: u64 = 0;
    while k < iters
        invariant
            k <= iters,
            iters > 0 ==> len > 0,
            len == scratch@.len() == old(scratch)@.len(),
            iters > 0 ==> i == k as int % len as int,
            forall|j: int|
                0 <= j < len ==> #[trigger] scratch@[j] == (old(scratch)@[j] + added(
                    k as int,
                    len as int,
                    j,
                )) % 0x1_0000_0000_0000_0000,
        decreases iters - k,
    {
        proof {
            arith::lemma_next_remainder(k as int, len as int);
        }
        scratch[i] = scratch[i].wrapping_add(k | 1);
        i += 1;
        if i == len {
            i = 0;
        }
        k += 1;
    }
    std::hint::black_box(scratch);
}

// ---- laws -------------------------------------------------------------------

/// One iteration more changes one cell: iterations go round the cells from the
/// first on, and iteration `k` adds `k` with its lowest bit set, in machine words.
pub proof fn law_one_more_iteration_changes_one_cell(
    a: Seq<u64>,
    b: Seq<u64>,
    c: Seq<u64>,
    k: u64,
)
    requires
        a.len() > 0,
        worked(a, b, k as int),
        worked(a, c, k + 1),
    ensures
        ({
            let i = k as int % a.len() as int;
            &&& b.len() == a.len()
            &&& c.len() == a.len()
            &&& c[i] == (b[i] + (k | 1u64)) % 0x1_0000_0000_0000_0000
            &&& forall|j: int| 0 <= j < a.len() && j != i ==> #[trigger] c[j] == b[j]
        }),
{
    let w = 0x1_0000_0000_0000_0000int;
    let n = a.len() as int;
    let i = k as int % n;
    vstd::arithmetic::div_mod::lemma_mod_bound(k as int, n);
    let x = a[i] + added(k as int, n, i);
    vstd::arithmetic::div_mod::lemma_add_mod_noop(x, (k | 1u64) as int, w);
    vstd::arithmetic::div_mod::lemma_add_mod_noop(x % w, (k | 1u64) as int, w);
    vstd::arithmetic::div_mod::lemma_mod_twice(x, w);
    assert(b[i] == x % w);
    assert(c[i] == (a[i] + added(k + 1, n, i)) % w);
    assert forall|j: int| 0 <= j < n && j != i implies #[trigger] c[j] == b[j] by {
        assert(b[j] == (a[j] + added(k as int, n, j)) % w);
    }
}

/// Without an iteration nothing changes.
pub proof fn law_no_iteration_changes_nothing(a: Seq<u64>, b: Seq<u64>)
    requires
        worked(a, b, 0),
    ensures
        b == a,
{
    assert forall|i: int| 0 <= i < a.len() implies #[trigger] b[i] == a[i] by {
        vstd::arithmetic::div_mod::lemma_small_mod(a[i] as nat, 0x1_0000_0000_0000_0000nat);
    }
    assert(b =~= a);
}

} // verus!
