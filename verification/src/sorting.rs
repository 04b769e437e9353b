//! Sorted sequences of numbers.

use vstd::prelude::*;

verus! {

/// In ascending order.
pub open spec fn ascending(s: Seq<u64>) -> bool {
    forall|i: int, j: int| 0 <= i <= j < s.len() ==> s[i] <= s[j]
}

/// `t` holds the numbers of `s`, in ascending order.
pub open spec fn sorts(s: Seq<u64>, t: Seq<u64>) -> bool {
    &&& ascending(t)
    &&& t.to_multiset() == s.to_multiset()
}

/// The numbers of `s`, in ascending order.
pub open spec fn sorted(s: Seq<u64>) -> Seq<u64> {
    s.sort_by(|x: u64, y: u64| x <= y)
}

/// `slice::sort_unstable`: the same numbers, in ascending order.
#[verifier::external_body]
pub(crate) fn sort_unstable(v: &mut [u64])
    ensures
        sorts(old(v)@, final(v)@),
{
    v.sort_unstable()
}

/// There is one way to sort.
pub proof fn lemma_sorted_is_unique(s: Seq<u64>, t: Seq<u64>, u: Seq<u64>)
    requires
        sorts(s, t),
        sorts(s, u),
    ensures
        t == u,
{
    let leq = |x: u64, y: u64| x <= y;
    assert(vstd::relations::sorted_by(t, leq));
    assert(vstd::relations::sorted_by(u, leq));
    assert(vstd::relations::total_ordering(leq));
    vstd::seq_lib::lemma_sorted_unique(t, u, leq);
}

/// Sorting keeps the length, and each number after it was there before.
pub proof fn lemma_sorted_members(s: Seq<u64>, t: Seq<u64>)
    requires
        sorts(s, t),
    ensures
        t.len() == s.len(),
        forall|i: int| 0 <= i < t.len() ==> s.contains(#[trigger] t[i]),
{
    vstd::seq_lib::to_multiset_len(s);
    vstd::seq_lib::to_multiset_len(t);
    assert forall|i: int| 0 <= i < t.len() implies s.contains(#[trigger] t[i]) by {
        vstd::seq_lib::to_multiset_contains(t, t[i]);
        vstd::seq_lib::to_multiset_contains(s, t[i]);
    }
}

/// The sorted numbers are the one sequence that sorts them.
pub proof fn lemma_sorted(s: Seq<u64>)
    ensures
        sorts(s, sorted(s)),
        sorted(s).len() == s.len(),
        forall|t: Seq<u64>| #[trigger] sorts(s, t) ==> t == sorted(s),
{
    let leq = |x: u64, y: u64| x <= y;
    s.lemma_sort_by_ensures(leq);
    let t = sorted(s);
    assert forall|i: int, j: int| 0 <= i <= j < t.len() implies t[i] <= t[j] by {
        if i < j {
            assert(leq(t[i], t[j]));
        }
    }
    lemma_sorted_members(s, t);
    assert forall|u: Seq<u64>| #[trigger] sorts(s, u) implies u == t by {
        lemma_sorted_is_unique(s, t, u);
    }
}

/// Where every number passes, none is filtered out.
proof fn lemma_all_pass(s: Seq<u64>, f: spec_fn(u64) -> bool)
    requires
        forall|i: int| 0 <= i < s.len() ==> f(#[trigger] s[i]),
    ensures
        s.filter(f).len() == s.len(),
    decreases s.len(),
{
    reveal_with_fuel(Seq::<_>::filter, 2);
    if s.len() > 0 {
        let p = s.drop_last();
        assert forall|i: int| 0 <= i < p.len() implies f(#[trigger] p[i]) by {
            assert(p[i] == s[i]);
        }
        lemma_all_pass(p, f);
        assert(f(s[s.len() - 1]));
    }
}

/// What passes of some numbers, as a multiset.
proof fn lemma_filter_multiset(s: Seq<u64>, f: spec_fn(u64) -> bool)
    ensures
        s.filter(f).len() == s.to_multiset().filter(f).len(),
    decreases s.len(),
{
    broadcast use vstd::seq_lib::group_to_multiset_ensures;
    broadcast use vstd::multiset::group_multiset_axioms;

    reveal_with_fuel(Seq::<_>::filter, 2);
    if s.len() == 0 {
        assert(s.to_multiset().filter(f) =~= vstd::multiset::Multiset::empty());
    } else {
        let p = s.drop_last();
        let x = s.last();
        lemma_filter_multiset(p, f);
        assert(p.push(x) =~= s);
        vstd::seq_lib::to_multiset_build(p, x);
        let m = p.to_multiset();
        if f(x) {
            assert(m.insert(x).filter(f) =~= m.filter(f).insert(x));
        } else {
            assert(m.insert(x).filter(f) =~= m.filter(f));
        }
    }
}

/// Sorting does not change how many numbers pass.
pub proof fn lemma_sorting_keeps_counts(s: Seq<u64>, t: Seq<u64>, f: spec_fn(u64) -> bool)
    requires
        sorts(s, t),
    ensures
        s.filter(f).len() == t.filter(f).len(),
{
    lemma_filter_multiset(s, f);
    lemma_filter_multiset(t, f);
}

/// The number at a place of ascending numbers has at least so many numbers up to
/// it, and at least so many from it on.
pub proof fn lemma_rank(t: Seq<u64>, k: int)
    requires
        ascending(t),
        0 <= k < t.len(),
    ensures
        t.filter(|x: u64| x <= t[k]).len() >= k + 1,
        t.filter(|x: u64| x >= t[k]).len() >= t.len() - k,
{
    let le = |x: u64| x <= t[k];
    let ge = |x: u64| x >= t[k];
    let a = t.take(k + 1);
    let b = t.skip(k + 1);
    assert(a + b =~= t);
    Seq::filter_distributes_over_add(a, b, le);
    lemma_all_pass(a, le);
    let c = t.take(k);
    let d = t.skip(k);
    assert(c + d =~= t);
    Seq::filter_distributes_over_add(c, d, ge);
    lemma_all_pass(d, ge);
}

// ---- laws -------------------------------------------------------------------

/// The number at rank `k` of sorted numbers is one of the numbers; at least
/// `k + 1` of them do not exceed it, and at least as many as from rank `k` on are
/// not below it.
pub proof fn law_sorted_numbers_have_ranks(s: Seq<u64>, k: int)
    requires
        0 <= k < s.len(),
    ensures
        sorted(s).len() == s.len(),
        s.contains(sorted(s)[k]),
        s.filter(|x: u64| x <= sorted(s)[k]).len() >= k + 1,
        s.filter(|x: u64| x >= sorted(s)[k]).len() >= s.len() - k,
{
    lemma_sorted(s);
    let t = sorted(s);
    lemma_sorted_members(s, t);
    lemma_rank(t, k);
    lemma_sorting_keeps_counts(s, t, |x: u64| x <= t[k]);
    lemma_sorting_keeps_counts(s, t, |x: u64| x >= t[k]);
}

/// Sorted numbers are the numbers, each as often as before, and none is followed
/// by a smaller one.
pub proof fn law_sorted_numbers_ascend(s: Seq<u64>)
    ensures
        sorted(s).to_multiset() == s.to_multiset(),
        forall|i: int, j: int| 0 <= i <= j < sorted(s).len() ==> sorted(s)[i] <= sorted(s)[j],
{
    lemma_sorted(s);
}

} // verus!
