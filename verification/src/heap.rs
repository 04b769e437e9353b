//! The due-heap of a gateway: the orders it holds, the earliest due on top.

use crate::order::Order;
use std::cmp::Ordering;
use vstd::multiset::Multiset;
use vstd::prelude::*;

verus! {

/// Heap wrapper: orders are compared by their due instants, reversed, so that
/// the greatest of them is the one that is due first.
#[derive(Debug)]
pub struct ByDue(pub Order);

impl ByDue {
    /// How `self` compares with `o`: the later due, the lesser.
    pub open spec fn reversed(self, o: ByDue) -> Ordering {
        if self.0.due > o.0.due {
            Ordering::Less
        } else if self.0.due == o.0.due {
            Ordering::Equal
        } else {
            Ordering::Greater
        }
    }

    /// Compares by due instant, reversed: the earliest due is the greatest.
    pub fn cmp(&self, o: &ByDue) -> (r: Ordering)
        ensures
            r == self.reversed(*o),
    {
        if self.0.due > o.0.due {
            Ordering::Less
        } else if self.0.due == o.0.due {
            Ordering::Equal
        } else {
            Ordering::Greater
        }
    }
}

impl PartialEq for ByDue {
    fn eq(&self, o: &ByDue) -> (r: bool) {
        self.0.due == o.0.due
    }
}

impl vstd::std_specs::cmp::PartialEqSpecImpl for ByDue {
    open spec fn obeys_eq_spec() -> bool {
        true
    }

    open spec fn eq_spec(&self, o: &ByDue) -> bool {
        self.0.due == o.0.due
    }
}

impl Eq for ByDue {

}

impl PartialOrd for ByDue {
    fn partial_cmp(&self, o: &ByDue) -> (r: Option<Ordering>) {
        Some(self.cmp(o))
    }
}

impl vstd::std_specs::cmp::PartialOrdSpecImpl for ByDue {
    open spec fn obeys_partial_cmp_spec() -> bool {
        true
    }

    open spec fn partial_cmp_spec(&self, o: &ByDue) -> Option<Ordering> {
        Some(self.reversed(*o))
    }
}

/// A min-heap of orders, keyed on their due instants.
pub struct DueHeap {
    items: Vec<ByDue>,
}

/// The orders of a heap's buffer.
spec fn orders(s: Seq<ByDue>) -> Seq<Order> {
    s.map_values(|b: ByDue| b.0)
}

/// The order at `i` is not due before the one above it.
spec fn settled(s: Seq<ByDue>, i: int) -> bool {
    s[(i - 1) / 2].0.due <= s[i].0.due
}

/// Every order but the top one is settled.
spec fn heap_ordered(s: Seq<ByDue>) -> bool {
    forall|i: int| 0 < i < s.len() ==> #[trigger] settled(s, i)
}

/// `o` is an order of `m`, and none in `m` is due before it.
pub open spec fn due_first(m: Multiset<Order>, o: Order) -> bool {
    &&& m.contains(o)
    &&& forall|x: Order| #[trigger] m.contains(x) ==> o.due <= x.due
}

impl View for DueHeap {
    type V = Multiset<Order>;

    closed spec fn view(&self) -> Multiset<Order> {
        orders(self.items@).to_multiset()
    }
}

/// Every order but the top one and the one at `k` is settled, and the orders
/// below `k` are not due before the one above `k`.
spec fn ordered_but_up(s: Seq<ByDue>, k: int) -> bool {
    &&& forall|i: int| 0 < i < s.len() && i != k ==> #[trigger] settled(s, i)
    &&& forall|i: int|
        0 < i < s.len() && k > 0 && (i - 1) / 2 == k ==> s[(k - 1) / 2].0.due <= (
        #[trigger] s[i]).0.due
}

/// Every order but the top one and those below `k` is settled, and the orders
/// below `k` are not due before the one above `k`.
spec fn ordered_but_down(s: Seq<ByDue>, k: int) -> bool {
    &&& forall|i: int| 0 < i < s.len() && (i - 1) / 2 != k ==> #[trigger] settled(s, i)
    &&& forall|i: int|
        0 < i < s.len() && k > 0 && (i - 1) / 2 == k ==> s[(k - 1) / 2].0.due <= (
        #[trigger] s[i]).0.due
}

/// The top of an ordered heap is due no later than any order in it.
proof fn lemma_top_is_first(s: Seq<ByDue>, i: int)
    requires
        heap_ordered(s),
        0 <= i < s.len(),
    ensures
        s[0].0.due <= s[i].0.due,
    decreases i,
{
    if i > 0 {
        assert(settled(s, i));
        lemma_top_is_first(s, (i - 1) / 2);
    }
}

/// Exchanging two orders keeps the multiset of orders.
proof fn lemma_swap_keeps_orders(s: Seq<ByDue>, i: int, j: int)
    requires
        0 <= i < s.len(),
        0 <= j < s.len(),
        i != j,
    ensures
        orders(s.update(i, s[j]).update(j, s[i])).to_multiset() == orders(s).to_multiset(),
{
    let o = orders(s);
    let p = o.update(i, o[j]);
    assert(orders(s.update(i, s[j]).update(j, s[i])) =~= p.update(j, o[i]));
    vstd::seq_lib::to_multiset_update(o, i, o[j]);
    vstd::seq_lib::to_multiset_update(p, j, o[i]);
    vstd::seq_lib::to_multiset_contains(o, o[i]);
    assert(o.contains(o[i]));
    assert(o.to_multiset().insert(o[j]).remove(o[i]).insert(o[i]).remove(o[j]) =~= o.to_multiset());
}

/// Exchanges the orders at `i` and `j`.
fn swap(v: &mut Vec<ByDue>, i: usize, j: usize)
    requires
        i < j < old(v).len(),
    ensures
        final(v)@ == old(v)@.update(i as int, old(v)@[j as int]).update(
            j as int,
            old(v)@[i as int],
        ),
        orders(final(v)@).to_multiset() == orders(old(v)@).to_multiset(),
{
    proof {
        lemma_swap_keeps_orders(v@, i as int, j as int);
    }
    let ghost s = v@;
    let (a, b) = v.as_mut_slice().split_at_mut(j);
    std::mem::swap(&mut a[i], &mut b[0]);
    assert(v@ =~= s.update(i as int, s[j as int]).update(j as int, s[i as int]));
}

/// Moves the order at `at` up to where it is settled.
fn sift_up(v: &mut Vec<ByDue>, at: usize)
    requires
        at < old(v).len(),
        ordered_but_up(old(v)@, at as int),
    ensures
        heap_ordered(final(v)@),
        final(v).len() == old(v).len(),
        orders(final(v)@).to_multiset() == orders(old(v)@).to_multiset(),
{
    let mut k = at;
    while k > 0
        invariant
            k < v.len(),
            v.len() == old(v).len(),
            ordered_but_up(v@, k as int),
            orders(v@).to_multiset() == orders(old(v)@).to_multiset(),
        decreases k,
    {
        let p = (k - 1) / 2;
        if v[k] <= v[p] {
            assert(settled(v@, k as int));
            return;
        }
        let ghost s = v@;
        swap(v, p, k);
        proof {
            assert forall|i: int| 0 < i < v.len() && i != p implies #[trigger] settled(v@, i) by {
                if (i - 1) / 2 == k {
                    assert(s[i].0.due >= s[p as int].0.due);
                } else if i != k {
                    assert(settled(s, i));
                }
            }
            assert forall|i: int| 0 < i < v.len() && p > 0 && (i - 1) / 2 == p implies v@[(p - 1)
                / 2].0.due <= (#[trigger] v@[i]).0.due by {
                assert(settled(s, p as int));
                if i != k {
                    assert(settled(s, i));
                }
            }
        }
        k = p;
    }
}

/// Moves the order at `at` down to where those below it are settled.
fn sift_down(v: &mut Vec<ByDue>, at: usize)
    requires
        at < old(v).len(),
        ordered_but_down(old(v)@, at as int),
    ensures
        heap_ordered(final(v)@),
        final(v).len() == old(v).len(),
        orders(final(v)@).to_multiset() == orders(old(v)@).to_multiset(),
{
    let n = v.len();
    let mut k = at;
    while k < n / 2
        invariant
            n == v.len(),
            k < n,
            v.len() == old(v).len(),
            ordered_but_down(v@, k as int),
            orders(v@).to_multiset() == orders(old(v)@).to_multiset(),
        decreases n - k,
    {
        let mut c = 2 * k + 1;
        if c + 1 < n && v[c] < v[c + 1] {
            c = c + 1;
        }
        if v[c] <= v[k] {
            proof {
                assert forall|i: int| 0 < i < v.len() implies #[trigger] settled(v@, i) by {
                    if (i - 1) / 2 == k {
                        assert(i == 2 * k + 1 || i == 2 * k + 2);
                    }
                }
            }
            return;
        }
        let ghost s = v@;
        swap(v, k, c);
        proof {
            assert forall|i: int| 0 < i < v.len() && (i - 1) / 2 != c implies #[trigger] settled(
                v@,
                i,
            ) by {
                if (i - 1) / 2 == k {
                    assert(i == 2 * k + 1 || i == 2 * k + 2);
                } else if i == k {
                    assert(s[(k - 1) / 2].0.due <= s[c as int].0.due);
                } else {
                    assert(settled(s, i));
                }
            }
            assert forall|i: int| 0 < i < v.len() && c > 0 && (i - 1) / 2 == c implies v@[(c - 1)
                / 2].0.due <= (#[trigger] v@[i]).0.due by {
                assert(settled(s, i));
            }
        }
        k = c;
    }
    assert forall|i: int| 0 < i < v.len() implies #[trigger] settled(v@, i) by {
        assert((i - 1) / 2 != k);
    }
}

impl DueHeap {
    /// No order is due before the one above it.
    pub closed spec fn wf(self) -> bool {
        heap_ordered(self.items@)
    }

    /// A heap without orders.
    pub fn new() -> (h: DueHeap)
        ensures
            h.wf(),
            h@ == Multiset::<Order>::empty(),
    {
        let h = DueHeap { items: Vec::new() };
        proof {
            assert(orders(h.items@) =~= Seq::empty());
            broadcast use vstd::seq_lib::group_to_multiset_ensures;
            assert(h@.len() == 0);
        }
        h
    }

    /// The number of orders.
    pub fn len(&self) -> (n: usize)
        ensures
            n == self@.len(),
    {
        proof {
            vstd::seq_lib::to_multiset_len(orders(self.items@));
        }
        self.items.len()
    }

    /// Whether there is no order.
    pub fn is_empty(&self) -> (b: bool)
        ensures
            b <==> self@.len() == 0,
    {
        self.len() == 0
    }

    /// Adds an order.
    pub fn push(&mut self, o: Order)
        requires
            old(self).wf(),
        ensures
            final(self).wf(),
            final(self)@ == old(self)@.insert(o),
    {
        let k = self.items.len();
        let ghost s = self.items@;
        self.items.push(ByDue(o));
        proof {
            assert(orders(self.items@) =~= orders(s).push(o));
            vstd::seq_lib::to_multiset_build(orders(s), o);
            assert forall|i: int| 0 < i < self.items.len() && i != k implies #[trigger] settled(
                self.items@,
                i,
            ) by {
                assert(settled(s, i));
            }
        }
        sift_up(&mut self.items, k);
    }

    /// The order on top: one that is due first. None if there is no order.
    pub fn peek(&self) -> (r: Option<&Order>)
        requires
            self.wf(),
        ensures
            r is None <==> self@.len() == 0,
            r matches Some(o) ==> due_first(self@, *o),
    {
        proof {
            lemma_first(self.items@);
            vstd::seq_lib::to_multiset_len(orders(self.items@));
        }
        if self.items.len() == 0 {
            None
        } else {
            Some(&self.items[0].0)
        }
    }

    /// Takes the order on top: one that is due first. None if there is no order.
    pub fn pop(&mut self) -> (r: Option<Order>)
        requires
            old(self).wf(),
        ensures
            final(self).wf(),
            match r {
                None => old(self)@.len() == 0 && *final(self) == *old(self),
                Some(o) => due_first(old(self)@, o) && final(self)@ == old(self)@.remove(o),
            },
    {
        let ghost s = self.items@;
        proof {
            lemma_first(s);
            vstd::seq_lib::to_multiset_len(orders(s));
        }
        if self.items.len() == 0 {
            return None;
        }
        let top = self.items.swap_remove(0);
        proof {
            lemma_swap_remove_keeps_orders(s, self.items@);
        }
        if self.items.len() > 0 {
            proof {
                assert forall|i: int|
                    0 < i < self.items.len() && (i - 1) / 2 != 0 implies #[trigger] settled(
                    self.items@,
                    i,
                ) by {
                    assert(settled(s, i));
                }
            }
            sift_down(&mut self.items, 0);
        }
        Some(top.0)
    }
}

/// The top of an ordered heap is one of its orders, due no later than any.
proof fn lemma_first(s: Seq<ByDue>)
    requires
        heap_ordered(s),
    ensures
        s.len() > 0 ==> due_first(orders(s).to_multiset(), s[0].0),
{
    if s.len() > 0 {
        let o = orders(s);
        assert(o[0] == s[0].0);
        vstd::seq_lib::to_multiset_contains(o, o[0]);
        assert forall|x: Order| #[trigger] o.to_multiset().contains(x) implies s[0].0.due
            <= x.due by {
            vstd::seq_lib::to_multiset_contains(o, x);
            let i = choose|i: int| 0 <= i < o.len() && o[i] == x;
            lemma_top_is_first(s, i);
        }
    }
}

/// Filling the place of the top order with the last one removes the top order.
proof fn lemma_swap_remove_keeps_orders(s: Seq<ByDue>, t: Seq<ByDue>)
    requires
        s.len() > 0,
        t == s.update(0, s.last()).drop_last(),
    ensures
        orders(t).to_multiset() == orders(s).to_multiset().remove(s[0].0),
{
    let o = orders(s);
    let p = o.update(0, o.last());
    assert(orders(t) =~= p.drop_last());
    assert(p.remove(p.len() - 1) =~= p.drop_last());
    vstd::seq_lib::to_multiset_update(o, 0, o.last());
    vstd::seq_lib::to_multiset_remove(p, p.len() - 1);
    vstd::seq_lib::to_multiset_contains(o, o[0]);
    assert(o.contains(o[0]));
    let all = o.to_multiset();
    assert(all.insert(o.last()).remove(o[0]).remove(o.last()) =~= all.remove(o[0]));
}

// ---- laws -------------------------------------------------------------------

/// Orders leave a heap in the order of their due instants: of two that are
/// taken one after the other, the second is not due before the first.
pub proof fn law_taken_in_due_order(m: Multiset<Order>, a: Order, b: Order)
    requires
        due_first(m, a),
        due_first(m.remove(a), b),
    ensures
        a.due <= b.due,
{
    assert(m.contains(b));
}

/// The comparison is a total order whose equality is `==`, and it ranks the
/// earlier due the greater.
pub proof fn law_by_due_is_an_order(a: ByDue, b: ByDue, c: ByDue)
    ensures
        a.reversed(b) == Ordering::Less <==> b.reversed(a) == Ordering::Greater,
        a.reversed(b) == Ordering::Equal <==> vstd::std_specs::cmp::PartialEqSpec::eq_spec(&a, &b),
        a.reversed(b) == Ordering::Greater && b.reversed(c) == Ordering::Greater ==> a.reversed(c)
            == Ordering::Greater,
        a.reversed(b) == Ordering::Greater <==> a.0.due < b.0.due,
{
}

/// The order that is due first is one of the orders, and no order is due before it;
/// any order that this holds of is due at the same instant.
pub proof fn law_first_is_the_earliest_due(m: Multiset<Order>, a: Order, b: Order)
    requires
        due_first(m, a),
    ensures
        m.contains(a),
        m.contains(b) ==> a.due <= b.due,
        due_first(m, b) ==> a.due == b.due,
{
}

} // verus!
