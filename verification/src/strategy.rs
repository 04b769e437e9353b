//! A strategy fires its orders on schedule and records what comes back.

use crate::arith;
use crate::clock::Clock;
use crate::flush;
use crate::gateway;
use crate::handoff::{Rx, Tx};
use crate::measure;
use crate::measure::Sample;
use crate::order::Order;
use vstd::prelude::*;

verus! {

/// The state of one strategy.
pub struct Strategy {
    /// Its number.
    pub id: usize,
    /// The number of venues.
    pub m: usize,
    /// When each of its orders is to be fired.
    pub schedule: Vec<u128>,
    /// How many orders were fired.
    pub next: usize,
    /// How many orders are back.
    pub done: usize,
    /// Fired orders that did not fit into the submission queue.
    pub pending: Vec<Order>,
    /// The latencies of the orders that are back.
    pub samples: Vec<Sample>,
}

/// What became of the next order.
#[derive(Clone, Copy, Debug, PartialEq, Eq)]
pub enum Fired {
    /// It is not due yet, or there is none.
    Idle,
    /// It was submitted.
    Sent,
    /// The submission queue was full.
    Full,
}

/// `o` is a new order of `strategy` for `venue`, made at a reading of `clock`.
pub open spec fn fresh(o: Order, clock: Clock, strategy: usize, venue: int) -> bool {
    &&& o.strategy == strategy
    &&& o.venue == venue
    &&& clock.reads(o.due)
    &&& forall|i: int| 0 <= i < 8 ==> #[trigger] o.ts[i] == o.due
}

impl Strategy {
    /// No more orders were fired than are scheduled, and each order that is back
    /// was recorded.
    pub open spec fn wf(self) -> bool {
        &&& self.next <= self.schedule.len()
        &&& self.samples.len() == self.done
    }

    /// The next order is due at `now`.
    pub open spec fn due(self, now: u128) -> bool {
        self.next < self.schedule.len() && self.schedule[self.next as int] <= now
    }

    /// How many of its orders are in flight: submitted, and not back.
    pub open spec fn in_flight(self) -> int {
        self.next - self.pending.len() - self.done
    }

    /// What never changes.
    pub open spec fn same_task(self, s: Strategy) -> bool {
        &&& self.id == s.id
        &&& self.m == s.m
        &&& self.schedule == s.schedule
    }

    /// The venue that the next order is for: the venues take turns.
    pub open spec fn next_venue(self) -> int {
        self.next as int % self.m as int
    }

    /// This strategy after it has fired an order that came out as `outcome`: an
    /// order that was given back is held.
    pub open spec fn fired(self, after: Strategy, outcome: Result<(), Order>) -> bool {
        &&& after.same_task(self)
        &&& after.next == self.next + 1
        &&& after.done == self.done
        &&& after.samples == self.samples
        &&& after.pending@ == match outcome {
            Ok(()) => self.pending@,
            Err(x) => self.pending@.push(x),
        }
    }

    /// This strategy after it has recorded `o`.
    pub open spec fn recorded(self, after: Strategy, o: Order) -> bool {
        &&& after.same_task(self)
        &&& after.next == self.next
        &&& after.pending == self.pending
        &&& after.done == self.done + 1
        &&& exists|s: Sample|
            measure::samples(o, s) && after.samples@ == #[trigger] self.samples@.push(s)
    }

    /// A strategy with the given schedule.
    pub fn new(id: usize, m: usize, schedule: Vec<u128>) -> (s: Strategy)
        ensures
            s.wf(),
            s.id == id,
            s.m == m,
            s.schedule == schedule,
            s.next == 0,
            s.done == 0,
            s.pending@ == Seq::<Order>::empty(),
            s.samples@ == Seq::<Sample>::empty(),
    {
        let quota = schedule.len();
        Strategy {
            id,
            m,
            schedule,
            next: 0,
            done: 0,
            pending: Vec::new(),
            samples: Vec::with_capacity(quota),
        }
    }

    /// Records the latencies of an order that is back.
    pub fn record(&mut self, o: &Order)
        requires
            old(self).wf(),
            old(self).done < usize::MAX,
        ensures
            final(self).wf(),
            old(self).recorded(*final(self), *o),
            final(self).in_flight() == old(self).in_flight() - 1,
    {
        let s = measure::make_sample(o);
        self.samples.push(s);
        self.done += 1;
        assert(self.samples@ == old(self).samples@.push(s));
    }

    /// Takes one order off the return queue, if there is one, and records it.
    /// Returns whether there was.
    pub fn collect(&mut self, clock: &Clock, rrx: &mut Rx) -> (b: bool)
        requires
            old(self).wf(),
            old(self).done < usize::MAX,
        ensures
            final(self).wf(),
            if b {
                exists|x: Order|
                    old(rrx).delivered(*final(rrx), *clock, x, 7) && #[trigger] old(self).recorded(
                        *final(self),
                        x,
                    )
            } else {
                *final(self) == *old(self) && old(rrx).polled(*final(rrx), None)
            },
            final(self).in_flight() == old(self).in_flight() - (if b {
                1int
            } else {
                0
            }),
    {
        match rrx.take(clock, 7) {
            Some(o) => {
                self.record(&o);
                true
            },
            None => false,
        }
    }

    /// Takes in how the submission of the next order came out.
    pub fn settle(&mut self, outcome: Result<(), Order>) -> (r: Fired)
        requires
            old(self).wf(),
            old(self).next < old(self).schedule.len(),
        ensures
            final(self).wf(),
            old(self).fired(*final(self), outcome),
            r == (if outcome is Ok {
                Fired::Sent
            } else {
                Fired::Full
            }),
    {
        self.next += 1;
        match outcome {
            Ok(()) => Fired::Sent,
            Err(x) => {
                self.pending.push(x);
                Fired::Full
            },
        }
    }

    /// Fires the next order, if it is due at `now`: submits it at once, and
    /// holds it back where it does not fit.
    pub fn fire(&mut self, now: u128, clock: &Clock, tx: &mut Tx) -> (r: Fired)
        requires
            old(self).wf(),
            old(self).due(now) ==> old(self).m > 0,
        ensures
            final(self).wf(),
            r == Fired::Idle <==> !old(self).due(now),
            match r {
                Fired::Idle => *final(self) == *old(self) && *final(tx) == *old(tx),
                _ => exists|o: Order, outcome: Result<(), Order>|
                    {
                        &&& fresh(o, *clock, old(self).id, old(self).next_venue())
                        &&& #[trigger] old(tx).answered(*final(tx), *clock, o, 0, outcome)
                        &&& old(self).fired(*final(self), outcome)
                        &&& r == Fired::Sent <==> outcome is Ok
                    },
            },
            final(self).in_flight() == old(self).in_flight() + (if r == Fired::Sent {
                1int
            } else {
                0
            }),
    {
        if self.next >= self.schedule.len() || self.schedule[self.next] > now {
            return Fired::Idle;
        }
        let o = Order::new(clock, self.id, self.next % self.m);
        assert(fresh(o, *clock, old(self).id, old(self).next_venue()));
        let outcome = tx.try_push(clock, o, 0);
        self.settle(outcome)
    }

    /// Submits the orders held back again. Returns how many were sent.
    pub fn retry(&mut self, clock: &Clock, tx: &mut [Tx]) -> (sent: usize)
        requires
            old(self).wf(),
            old(tx)@.len() > 0,
        ensures
            final(self).wf(),
            final(self).same_task(*old(self)),
            final(self).next == old(self).next,
            final(self).done == old(self).done,
            final(self).samples == old(self).samples,
            sent + final(self).pending.len() == old(self).pending.len(),
            flush::retried(
                old(self).pending@,
                flush::to_first(),
                *clock,
                old(tx)@,
                final(tx)@,
                0,
                final(self).pending@,
            ),
            final(self).in_flight() == old(self).in_flight() + sent,
    {
        flush::flush_to_first(&mut self.pending, clock, tx, 0)
    }

    /// Whether every order was fired and is back.
    pub fn finished(&self) -> (b: bool)
        ensures
            b <==> self.next == self.schedule.len() && self.done == self.schedule.len(),
    {
        self.next == self.schedule.len() && self.done == self.schedule.len()
    }
}

// ---- laws -------------------------------------------------------------------

/// A strategy that has finished has one sample for each of its orders. Where no
/// order came back that had not been submitted, none is held back either, and
/// none is in flight.
pub proof fn law_finished_strategy_holds_nothing(s: Strategy)
    requires
        s.wf(),
        s.next == s.schedule.len(),
        s.done == s.schedule.len(),
        s.in_flight() >= 0,
    ensures
        s.samples.len() == s.schedule.len(),
        s.pending.len() == 0,
        s.in_flight() == 0,
{
}

/// The venues take turns: of any `m` consecutive orders of a strategy, where `m`
/// venues there are, no two are for the same venue.
pub proof fn law_venues_take_turns(a: Strategy, b: Strategy)
    requires
        a.m == b.m,
        a.next < b.next < a.next + a.m,
    ensures
        a.next_venue() != b.next_venue(),
{
    let m = a.m as int;
    if a.next_venue() == b.next_venue() {
        vstd::arithmetic::div_mod::lemma_mod_equivalence(b.next as int, a.next as int, m);
        vstd::arithmetic::div_mod::lemma_small_mod((b.next - a.next) as nat, m as nat);
    }
}

/// A strategy's in-flight count is what it submitted less what is back: firing
/// an order and having it taken adds one, having it given back adds none, and an
/// order that comes back takes one away.
pub proof fn law_in_flight_is_accounted_for(
    a: Strategy,
    b: Strategy,
    c: Strategy,
    outcome: Result<(), Order>,
    o: Order,
)
    requires
        a.fired(b, outcome),
        b.recorded(c, o),
    ensures
        b.in_flight() == a.in_flight() + (if outcome is Ok {
            1int
        } else {
            0
        }),
        c.in_flight() == b.in_flight() - 1,
{
}

/// The stamps accumulate on the way: where each of a round trip's eight stations
/// marks the order, it stays the order of its strategy for its venue, and when it
/// is back it has a reading of the clock from each station. The sample has the
/// time between each two stations. Where the readings are in the order of the
/// way, and the way took less than a machine word of nanoseconds, the segments
/// add up to the round trip.
pub proof fn law_stamps_accumulate(clock: Clock, way: Seq<Order>, delay: u64, s: Sample)
    requires
        way.len() == 9,
        forall|k: int| 0 <= k < 8 && k != 3 ==> (#[trigger] way[k]).marked(way[k + 1], clock, k),
        exists|now: u128| clock.reads(now) && #[trigger] gateway::held(way[3], now, delay, way[4]),
        measure::samples(way[8], s),
    ensures
        way[8].strategy == way[0].strategy,
        way[8].venue == way[0].venue,
        way[8].due == way[8].ts[3] + delay,
        forall|k: int| 0 <= k < 8 ==> clock.reads(#[trigger] way[8].ts[k]),
        forall|k: int|
            0 <= k < 7 ==> #[trigger] s.vals[k] == measure::elapsed(
                way[8].ts[k],
                way[8].ts[k + 1],
            ),
        (forall|i: int, j: int| 0 <= i <= j < 8 ==> way[8].ts[i] <= way[8].ts[j])
            && way[8].ts[7] - way[8].ts[0] < 0x1_0000_0000_0000_0000 ==> {
            &&& s.vals[0] + s.vals[1] + s.vals[2] + s.vals[3] + s.vals[4] + s.vals[5] + s.vals[6]
                == s.vals[7]
            &&& s.vals[8] == s.vals[7] - s.vals[3]
        },
{
    assert(way[0].marked(way[1], clock, 0));
    assert(way[1].marked(way[2], clock, 1));
    assert(way[2].marked(way[3], clock, 2));
    assert(way[4].marked(way[5], clock, 4));
    assert(way[5].marked(way[6], clock, 5));
    assert(way[6].marked(way[7], clock, 6));
    assert(way[7].marked(way[8], clock, 7));
    assert(clock.reads(way[8].ts[0]));
    assert(clock.reads(way[8].ts[1]));
    assert(clock.reads(way[8].ts[2]));
    assert(clock.reads(way[8].ts[3]));
    assert(clock.reads(way[8].ts[4]));
    assert(clock.reads(way[8].ts[5]));
    assert(clock.reads(way[8].ts[6]));
    if (forall|i: int, j: int| 0 <= i <= j < 8 ==> way[8].ts[i] <= way[8].ts[j])
        && way[8].ts[7] - way[8].ts[0] < 0x1_0000_0000_0000_0000 {
        measure::law_segments_make_up_the_round_trip(way[8], s);
    }
}

/// Every order is for a venue that there is; the first orders are for the venues
/// in their order, and after as many orders as there are venues they come round
/// again.
pub proof fn law_venues_come_round(a: Strategy, b: Strategy)
    requires
        a.m > 0,
        a.m == b.m,
        b.next == a.next + a.m,
    ensures
        0 <= a.next_venue() < a.m,
        a.next < a.m ==> a.next_venue() == a.next,
        b.next_venue() == a.next_venue(),
{
    let m = a.m as int;
    vstd::arithmetic::div_mod::lemma_mod_bound(a.next as int, m);
    vstd::arithmetic::div_mod::lemma_mod_add_multiples_vanish(a.next as int, m);
    if a.next < a.m {
        vstd::arithmetic::div_mod::lemma_small_mod(a.next as nat, m as nat);
    }
}

/// Consecutive orders are for consecutive venues, and the first venue follows the
/// last.
pub proof fn law_next_order_is_for_the_next_venue(
    a: Strategy,
    b: Strategy,
    outcome: Result<(), Order>,
)
    requires
        a.m > 0,
        a.fired(b, outcome),
    ensures
        b.next_venue() == (if a.next_venue() == a.m - 1 {
            0
        } else {
            a.next_venue() + 1
        }),
{
    arith::lemma_next_remainder(a.next as int, a.m as int);
}

/// An order that is fired is the strategy's own, for a venue that there is, and all
/// its instants are the reading at which it was made.
pub proof fn law_fired_orders_are_new(s: Strategy, o: Order, clock: Clock, i: int)
    requires
        s.m > 0,
        fresh(o, clock, s.id, s.next_venue()),
        0 <= i < 8,
    ensures
        o.strategy == s.id,
        o.venue < s.m,
        o.venue == s.next as int % s.m as int,
        o.ts[i] == o.due,
        clock.reads(o.ts[i]),
{
    vstd::arithmetic::div_mod::lemma_mod_bound(s.next as int, s.m as int);
}

/// An order is due from its scheduled instant on and not before, and once it is due
/// it stays due; when all were fired none is.
pub proof fn law_orders_are_due_on_schedule(s: Strategy, now: u128, then: u128)
    requires
        now <= then,
    ensures
        s.next < s.schedule.len() ==> s.due(s.schedule[s.next as int]),
        s.next < s.schedule.len() && now < s.schedule[s.next as int] ==> !s.due(now),
        s.due(now) ==> s.due(then),
        s.next >= s.schedule.len() ==> !s.due(now),
{
}

/// Firing moves on to the next order, whatever comes of this one: an order that was
/// given back is held behind the others, and nothing else changes.
pub proof fn law_firing_moves_on(a: Strategy, b: Strategy, outcome: Result<(), Order>)
    requires
        a.fired(b, outcome),
    ensures
        b.next == a.next + 1,
        b.done == a.done,
        b.id == a.id,
        b.m == a.m,
        b.schedule@ == a.schedule@,
        b.samples@ == a.samples@,
        outcome is Ok ==> b.pending@ == a.pending@,
        outcome matches Err(x) ==> b.pending@.len() == a.pending@.len() + 1 && b.pending@.last()
            == x && b.pending@.drop_last() == a.pending@,
{
    if outcome is Err {
        assert(b.pending@.drop_last() =~= a.pending@);
    }
}

/// Recording an order adds its latencies behind those of the others and counts it
/// as back, and nothing else changes.
pub proof fn law_recording_adds_a_sample(a: Strategy, b: Strategy, o: Order)
    requires
        a.recorded(b, o),
    ensures
        b.done == a.done + 1,
        b.next == a.next,
        b.id == a.id,
        b.m == a.m,
        b.schedule@ == a.schedule@,
        b.pending@ == a.pending@,
        b.samples@.len() == a.samples@.len() + 1,
        b.samples@.drop_last() == a.samples@,
        measure::samples(o, b.samples@.last()),
{
    assert(b.samples@.drop_last() =~= a.samples@);
}

/// A strategy that has not fired has nothing in flight.
pub proof fn law_nothing_is_in_flight_at_first(s: Strategy)
    requires
        s.next == 0,
        s.done == 0,
        s.pending@.len() == 0,
    ensures
        s.in_flight() == 0,
{
}

/// The task of a strategy is its number, the number of venues and its schedule.
pub proof fn law_task_stays_the_same(a: Strategy, b: Strategy)
    requires
        a.same_task(b),
    ensures
        a.id == b.id,
        a.m == b.m,
        a.schedule@ == b.schedule@,
{
}

} // verus!
