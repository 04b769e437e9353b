//! A gateway models one venue: it delays every order that it is sent by a
//! random time, which stands in for the network round trip and the exchange's
//! processing, and then completes it.

use crate::clock::Clock;
use crate::config;
use crate::config::Config;
use crate::flush;
use crate::handoff;
use crate::handoff::{Rx, Tx};
use crate::heap;
use crate::heap::DueHeap;
use crate::order::Order;
use crate::rng;
use crate::rng::Rng;
use vstd::multiset::Multiset;
use vstd::prelude::*;

verus! {

/// The state of one gateway.
pub struct Gateway {
    /// The orders that are under way at the venue.
    pub heap: DueHeap,
    /// Completed orders that did not fit into the completion queue.
    pub pending: Vec<Order>,
    pub rng: Rng,
    /// The least delay, in nanoseconds.
    pub d_min: u64,
    /// The bound on the delay, in nanoseconds.
    pub d_max: u64,
}

/// The seed of a venue's delays.
pub open spec fn venue_seed(venue: usize) -> u64 {
    0xD1CE_0000u64 ^ (venue as u64)
}

/// `h` is `o` as the venue holds it: received at `now`, due after `delay`.
pub open spec fn held(o: Order, now: u128, delay: u64, h: Order) -> bool {
    &&& h.strategy == o.strategy
    &&& h.venue == o.venue
    &&& h.due == now + delay
    &&& h.ts[3] == now
    &&& forall|i: int| 0 <= i < 8 && i != 3 ==> #[trigger] h.ts[i] == o.ts[i]
}

/// In the order of their due instants.
pub open spec fn by_due(s: Seq<Order>) -> bool {
    forall|i: int, j: int| 0 <= i <= j < s.len() ==> (#[trigger] s[i]).due <= (#[trigger] s[j]).due
}

impl Gateway {
    /// Every order under way is due within the bounds of the delay.
    pub open spec fn wf(self) -> bool {
        &&& self.heap.wf()
        &&& forall|h: Order| #[trigger] self.heap@.contains(h) ==> self.in_bounds(h)
    }

    /// `h` is due after at least the least delay and before the bound on it,
    /// or, where the bound leaves no choice, after exactly the least delay.
    pub open spec fn in_bounds(self, h: Order) -> bool {
        &&& h.ts[3] + self.d_min <= h.due
        &&& self.d_min < self.d_max ==> h.due < h.ts[3] + self.d_max
        &&& self.d_max <= self.d_min ==> h.due == h.ts[3] + self.d_min
    }

    /// The state of the generator after the next delay is drawn.
    pub open spec fn next_state(self) -> u64 {
        if self.d_max <= self.d_min {
            self.rng.0
        } else {
            rng::word_sum(self.rng.0 as int, rng::GAMMA as int)
        }
    }

    /// The next delay.
    pub open spec fn next_delay(self) -> u64 {
        rng::scaled(rng::mixed(self.next_state()), self.d_min, self.d_max)
    }

    /// This gateway after it has received `o` at `now`.
    pub open spec fn received(self, after: Gateway, o: Order, now: u128) -> bool {
        &&& exists|h: Order|
            held(o, now, self.next_delay(), h) && after.heap@ == #[trigger] self.heap@.insert(h)
        &&& after.pending == self.pending
        &&& after.rng.0 == self.next_state()
        &&& after.d_min == self.d_min
        &&& after.d_max == self.d_max
    }

    /// This gateway after it has completed the orders of `done`, in that order,
    /// and offered each once to the completion queue, where they came out as
    /// `outcomes`: those that were given back are held. The handle to the queue
    /// went through the states of `trail`.
    pub open spec fn emitted(
        self,
        after: Gateway,
        clock: Clock,
        trail: Seq<Seq<Tx>>,
        done: Seq<Order>,
        outcomes: Seq<Result<(), Order>>,
    ) -> bool {
        &&& self.heap@ == after.heap@.add(done.to_multiset())
        &&& flush::routed(done, flush::to_first(), clock, trail, 4, outcomes)
        &&& after.pending@ == self.pending@ + flush::given_back(outcomes)
        &&& after.rng == self.rng
        &&& after.d_min == self.d_min
        &&& after.d_max == self.d_max
    }

    /// The gateway of a venue, without orders.
    pub fn new(venue: usize, c: &Config) -> (g: Gateway)
        ensures
            g.wf(),
            g.heap@ == Multiset::<Order>::empty(),
            g.pending@ == Seq::<Order>::empty(),
            g.rng.0 == venue_seed(venue),
            g.rng.0 == 0xD1CE_0000u64 ^ (venue as u64),
            g.d_min == c.d_min % 0x1_0000_0000_0000_0000,
            g.d_max == c.d_max % 0x1_0000_0000_0000_0000,
    {
        Gateway {
            heap: DueHeap::new(),
            pending: Vec::new(),
            rng: Rng::new(0xD1CE_0000 ^ venue as u64),
            d_min: config::word(c.d_min),
            d_max: config::word(c.d_max),
        }
    }

    /// Receives an order at `now` and draws the delay until it is due.
    pub fn receive(&mut self, o: Order, now: u128)
        requires
            old(self).wf(),
            now + old(self).next_delay() <= u128::MAX,
        ensures
            final(self).wf(),
            old(self).received(*final(self), o, now),
    {
        let mut h = o;
        h.stamp(3, now);
        let d = self.rng.uniform(self.d_min, self.d_max);
        h.due = now + d as u128;
        let ghost g = h;
        self.heap.push(h);
        assert(held(o, now, d, g));
        proof {
            assert(self.heap@ == old(self).heap@.insert(g));
            assert forall|x: Order| #[trigger] self.heap@.contains(x) implies self.in_bounds(x) by {
                if x != g {
                    assert(old(self).heap@.contains(x));
                }
            }
        }
    }

    /// Receives one order from the inbox, if there is one. Returns whether there
    /// was.
    pub fn accept(&mut self, clock: &Clock, inbox: &mut Rx) -> (b: bool)
        requires
            old(self).wf(),
        ensures
            final(self).wf(),
            if b {
                exists|o: Order, now: u128|
                    {
                        &&& old(inbox).polled(*final(inbox), Some(o))
                        &&& clock.reads(now)
                        &&& #[trigger] old(self).received(*final(self), o, now)
                    }
            } else {
                *final(self) == *old(self) && old(inbox).polled(*final(inbox), None)
            },
    {
        match inbox.try_pop() {
            Some(o) => {
                self.receive(o, clock.now());
                true
            },
            None => false,
        }
    }

    /// Takes an order that is due at `now`, one that is due first; none if no
    /// order is due.
    pub fn take_due(&mut self, now: u128) -> (r: Option<Order>)
        requires
            old(self).wf(),
        ensures
            final(self).wf(),
            match r {
                Some(o) => {
                    &&& heap::due_first(old(self).heap@, o)
                    &&& o.due <= now
                    &&& final(self).heap@ == old(self).heap@.remove(o)
                    &&& final(self).pending == old(self).pending
                    &&& final(self).rng == old(self).rng
                    &&& final(self).d_min == old(self).d_min
                    &&& final(self).d_max == old(self).d_max
                },
                None => {
                    &&& *final(self) == *old(self)
                    &&& forall|h: Order| #[trigger] old(self).heap@.contains(h) ==> h.due > now
                },
            },
    {
        let due = match self.heap.peek() {
            Some(o) => o.due <= now,
            None => false,
        };
        if !due {
            return None;
        }
        let r = self.heap.pop();
        proof {
            if r is Some {
                lemma_completed(old(self).heap@, self.heap@, Seq::empty(), r->0);
            }
        }
        r
    }

    /// Takes in how a completed order came out of its handoff: one that was
    /// given back is held. Returns whether the completion queue was full.
    pub fn settle(&mut self, outcome: Result<(), Order>) -> (full: bool)
        ensures
            full == (outcome is Err),
            final(self).pending@ == match outcome {
                Ok(()) => old(self).pending@,
                Err(x) => old(self).pending@.push(x),
            },
            final(self).heap == old(self).heap,
            final(self).rng == old(self).rng,
            final(self).d_min == old(self).d_min,
            final(self).d_max == old(self).d_max,
    {
        match outcome {
            Ok(()) => false,
            Err(x) => {
                self.pending.push(x);
                true
            },
        }
    }

    /// Completes every order that is due at `now`, the earliest due first, and
    /// hands each to the completion queue; what does not fit is held back.
    /// Returns how many did not fit.
    pub fn emit(&mut self, now: u128, clock: &Clock, tx: &mut Tx) -> (full: usize)
        requires
            old(self).wf(),
        ensures
            final(self).wf(),
            full == final(self).pending.len() - old(self).pending.len(),
            forall|h: Order| #[trigger] final(self).heap@.contains(h) ==> h.due > now,
            exists|trail: Seq<Seq<Tx>>, done: Seq<Order>, outcomes: Seq<Result<(), Order>>|
                {
                    &&& #[trigger] old(self).emitted(*final(self), *clock, trail, done, outcomes)
                    &&& flush::leads(trail, seq![*old(tx)], seq![*final(tx)])
                    &&& by_due(done)
                    &&& forall|i: int| 0 <= i < done.len() ==> (#[trigger] done[i]).due <= now
                },
    {
        let mut full: usize = 0;
        let ghost mut trail: Seq<Seq<Tx>> = seq![seq![*tx]];
        let ghost mut done: Seq<Order> = Seq::empty();
        let ghost mut outcomes: Seq<Result<(), Order>> = Seq::empty();
        proof {
            broadcast use vstd::seq_lib::group_to_multiset_ensures;

            assert(done.to_multiset() =~= Multiset::empty());
            assert(self.heap@ =~= self.heap@.add(done.to_multiset()));
            assert(self.pending@ =~= self.pending@ + flush::given_back(outcomes));
        }
        loop
            invariant_except_break
                self.wf(),
                full == self.pending.len() - old(self).pending.len(),
                old(self).emitted(*self, *clock, trail, done, outcomes),
                flush::leads(trail, seq![*old(tx)], seq![*tx]),
                by_due(done),
                forall|i: int| 0 <= i < done.len() ==> (#[trigger] done[i]).due <= now,
                forall|i: int, h: Order|
                    0 <= i < done.len() && #[trigger] self.heap@.contains(h) ==> (
                    #[trigger] done[i]).due <= h.due,
            ensures
                self.wf(),
                full == self.pending.len() - old(self).pending.len(),
                forall|h: Order| #[trigger] self.heap@.contains(h) ==> h.due > now,
                old(self).emitted(*self, *clock, trail, done, outcomes),
                flush::leads(trail, seq![*old(tx)], seq![*tx]),
                by_due(done),
                forall|i: int| 0 <= i < done.len() ==> (#[trigger] done[i]).due <= now,
            decreases self.heap@.len(),
        {
            let ghost before = *self;
            let o = match self.take_due(now) {
                Some(o) => o,
                None => {
                    break;
                },
            };
            let ghost off = o;
            let outcome = tx.try_push(clock, o, 4);
            proof {
                lemma_completed(before.heap@, self.heap@, done, off);
                let b = seq![*tx];
                assert(b =~= trail.last().update(0, b[0]));
                assert(flush::handed(0, trail.last(), b, *clock, off, 4, outcome));
                flush::lemma_routed_push(
                    done,
                    flush::to_first(),
                    *clock,
                    trail,
                    4,
                    outcomes,
                    off,
                    b,
                    outcome,
                );
                trail = trail.push(b);
                done = done.push(off);
                outcomes = outcomes.push(outcome);
            }
            if self.settle(outcome) {
                assert(full < self.pending.len());
                full += 1;
            }
            assert(self.pending@ =~= old(self).pending@ + flush::given_back(outcomes));
        }
        full
    }
}

impl Gateway {
    /// Offers the orders held back to the completion queue again. Returns how
    /// many were sent.
    pub fn retry(&mut self, clock: &Clock, tx: &mut [Tx]) -> (sent: usize)
        requires
            old(self).wf(),
            old(tx)@.len() > 0,
        ensures
            final(self).wf(),
            final(self).heap == old(self).heap,
            final(self).rng == old(self).rng,
            final(self).d_min == old(self).d_min,
            final(self).d_max == old(self).d_max,
            sent + final(self).pending.len() == old(self).pending.len(),
            flush::retried(
                old(self).pending@,
                flush::to_first(),
                *clock,
                old(tx)@,
                final(tx)@,
                4,
                final(self).pending@,
            ),
    {
        flush::flush_to_first(&mut self.pending, clock, tx, 4)
    }

    /// Whether the gateway may stop: it was told to, and it holds no order.
    pub fn may_stop(&self, shutdown: bool) -> (b: bool)
        ensures
            b <==> shutdown && self.heap@.len() == 0 && self.pending.len() == 0,
    {
        shutdown && self.heap.is_empty() && self.pending.is_empty()
    }
}

// ---- laws -------------------------------------------------------------------

/// The venue's delay is kept: an order that is due at `now` was received at
/// least the least delay ago, and it fell due before the bound on the delay had
/// passed.
pub proof fn law_venue_delay_is_kept(g: Gateway, h: Order, now: u128)
    requires
        g.wf(),
        g.heap@.contains(h),
        h.due <= now,
    ensures
        h.ts[3] + g.d_min <= now,
        g.d_min < g.d_max ==> h.due < h.ts[3] + g.d_max,
{
}

/// A gateway holds each order exactly once until it is taken off its hands:
/// completing orders conserves those under way, those held back and those taken.
pub proof fn law_emit_conserves(
    a: Gateway,
    b: Gateway,
    clock: Clock,
    trail: Seq<Seq<Tx>>,
    done: Seq<Order>,
    outcomes: Seq<Result<(), Order>>,
)
    requires
        a.emitted(b, clock, trail, done, outcomes),
    ensures
        a.heap@.len() + a.pending.len() == b.heap@.len() + b.pending.len() + flush::gone(
            done,
            outcomes,
        ).len(),
{
    flush::law_flush_conserves(done, flush::to_first(), clock, trail, 4, outcomes);
    vstd::seq_lib::to_multiset_len(done);
    vstd::seq_lib::to_multiset_len(flush::left_over(done, outcomes));
    vstd::seq_lib::to_multiset_len(flush::gone(done, outcomes));
}

/// Taking the order that is due first moves it from those under way to those
/// completed.
proof fn lemma_completed(
    before: Multiset<Order>,
    after: Multiset<Order>,
    done: Seq<Order>,
    o: Order,
)
    requires
        heap::due_first(before, o),
        after == before.remove(o),
    ensures
        before.add(done.to_multiset()) == after.add(done.push(o).to_multiset()),
        after.len() < before.len(),
        forall|h: Order| #[trigger] after.contains(h) ==> before.contains(h) && o.due <= h.due,
{
    vstd::seq_lib::to_multiset_build(done, o);
    assert(before.add(done.to_multiset()) =~= after.add(done.to_multiset().insert(o)));
    assert forall|h: Order| #[trigger] after.contains(h) implies before.contains(h) && o.due
        <= h.due by {
        assert(before.contains(h));
    }
}

/// Each venue draws its delays from a seed of its own: seeds differ where venues do,
/// and in just the bits in which their numbers do.
pub proof fn law_venues_have_their_own_seeds(v: usize, w: usize)
    ensures
        v != w ==> venue_seed(v) != venue_seed(w),
        venue_seed(v) ^ venue_seed(w) == (v as u64) ^ (w as u64),
        venue_seed(v) ^ venue_seed(0) == v as u64,
{
    let a = v as u64;
    let b = w as u64;
    assert(a != b ==> 0xD1CE_0000u64 ^ a != 0xD1CE_0000u64 ^ b) by (bit_vector);
    assert((0xD1CE_0000u64 ^ a) ^ (0xD1CE_0000u64 ^ b) == a ^ b) by (bit_vector);
    assert((0xD1CE_0000u64 ^ a) ^ (0xD1CE_0000u64 ^ 0u64) == a) by (bit_vector);
}

/// A delay is at least the least one and below the bound; where the bound leaves no
/// choice it is the least one, and the generator is not asked.
pub proof fn law_delays_lie_in_the_range(g: Gateway)
    ensures
        g.d_min < g.d_max ==> g.d_min <= g.next_delay() < g.d_max,
        g.d_min < g.d_max ==> g.next_state() == rng::state_after(g.rng.0, 1),
        g.d_max <= g.d_min ==> g.next_delay() == g.d_min,
        g.d_max <= g.d_min ==> g.next_state() == g.rng.0,
{
    rng::law_range_is_filled_evenly(rng::mixed(g.next_state()), g.d_min, g.d_max);
}

/// A received order is under way from then on, with its receipt stamped and its due
/// instant within the range of the delay; it is otherwise the order that came, and
/// the others stay as they are.
pub proof fn law_received_order_is_under_way(a: Gateway, b: Gateway, o: Order, now: u128)
    requires
        a.received(b, o, now),
    ensures
        b.heap@.len() == a.heap@.len() + 1,
        b.pending@ == a.pending@,
        b.d_min == a.d_min,
        b.d_max == a.d_max,
        exists|h: Order|
            {
                &&& b.heap@ == #[trigger] a.heap@.insert(h)
                &&& h.strategy == o.strategy
                &&& h.venue == o.venue
                &&& h.ts[3] == now
                &&& h.due - now >= a.d_min
                &&& a.d_min < a.d_max ==> h.due - now < a.d_max
                &&& a.d_max <= a.d_min ==> h.due - now == a.d_min
                &&& forall|i: int| 0 <= i < 8 && i != 3 ==> #[trigger] h.ts[i] == o.ts[i]
            },
{
    law_delays_lie_in_the_range(a);
    let h = choose|h: Order|
        held(o, now, a.next_delay(), h) && b.heap@ == #[trigger] a.heap@.insert(h);
    assert(b.heap@ == a.heap@.insert(h));
}

/// The delays of orders that come one after the other are consecutive outputs of
/// the venue's generator.
pub proof fn law_delays_follow_the_generator(
    a: Gateway,
    b: Gateway,
    o: Order,
    now: u128,
)
    requires
        a.received(b, o, now),
        a.d_min < a.d_max,
    ensures
        a.next_delay() == rng::scaled(
            rng::mixed(rng::state_after(a.rng.0, 1)),
            a.d_min,
            a.d_max,
        ),
        b.next_delay() == rng::scaled(
            rng::mixed(rng::state_after(a.rng.0, 2)),
            a.d_min,
            a.d_max,
        ),
{
    rng::law_states_are_regular(a.rng.0, 0);
    rng::law_states_are_regular(a.rng.0, 1);
}

/// Every completed order is marked as completed, whether the completion queue takes
/// it or gives it back; what is held back is what was held back before, followed by
/// what was given back.
pub proof fn law_completed_orders_are_marked(
    a: Gateway,
    b: Gateway,
    clock: Clock,
    trail: Seq<Seq<Tx>>,
    done: Seq<Order>,
    outcomes: Seq<Result<(), Order>>,
    i: int,
)
    requires
        a.emitted(b, clock, trail, done, outcomes),
        0 <= i < done.len(),
        trail[0].len() == 1,
    ensures
        outcomes.len() == done.len(),
        outcomes[i] matches Err(x) ==> done[i].marked(x, clock, 4) && b.pending@.contains(x),
        exists|s: Order, taken: bool|
            {
                &&& done[i].marked(s, clock, 4)
                &&& #[trigger] trail[i][0].producer().offered(
                    trail[i + 1][0].producer(),
                    s,
                    taken,
                )
            },
        b.pending@.take(a.pending@.len() as int) == a.pending@,
        b.rng == a.rng,
        b.d_min == a.d_min,
        b.d_max == a.d_max,
{
    assert(flush::handed(0, trail[i], trail[i + 1], clock, done[i], 4, outcomes[i])) by {
        assert(done[i] == done[i]);
    }
    handoff::law_push_marks_the_order(
        trail[i][0],
        trail[i + 1][0],
        clock,
        done[i],
        4,
        outcomes[i],
    );
    assert(b.pending@.take(a.pending@.len() as int) =~= a.pending@);
    if let Err(x) = outcomes[i] {
        flush::law_refused_orders_are_given_back(outcomes, i);
        let j = choose|j: int|
            0 <= j < flush::given_back(outcomes).len() && flush::given_back(outcomes)[j] == x;
        assert(b.pending@[a.pending@.len() + j] == x);
    }
}

/// Orders that are completed together are completed in the order of their due
/// instants.
pub proof fn law_earlier_due_is_completed_first(done: Seq<Order>, i: int, j: int)
    requires
        by_due(done),
        0 <= i < done.len(),
        0 <= j < done.len(),
        done[i].due < done[j].due,
    ensures
        i < j,
{
}

/// Completing orders takes them from those under way, each as often as it is
/// completed, and no others.
pub proof fn law_only_orders_under_way_are_completed(
    a: Gateway,
    b: Gateway,
    clock: Clock,
    trail: Seq<Seq<Tx>>,
    done: Seq<Order>,
    outcomes: Seq<Result<(), Order>>,
    o: Order,
)
    requires
        a.emitted(b, clock, trail, done, outcomes),
    ensures
        a.heap@.count(o) == b.heap@.count(o) + done.to_multiset().count(o),
        done.contains(o) ==> a.heap@.contains(o),
{
    if done.contains(o) {
        vstd::seq_lib::to_multiset_contains(done, o);
    }
}

} // verus!
