//! Orders and the instants they gather on their way.

use crate::clock::Clock;
use vstd::prelude::*;

verus! {

/// One order. `ts` accumulates the eight measured instants as it travels, in
/// nanoseconds of one [`Clock`]:
/// ts[0] strategy_send, ts[1] orch_recv_submit, ts[2] orch_dispatch,
/// ts[3] gateway_recv, ts[4] gateway_done, ts[5] orch_recv_completion,
/// ts[6] orch_return, ts[7] strategy_recv.
#[derive(Debug, PartialEq, Eq)]
pub struct Order {
    /// Origin, routes the return.
    pub strategy: usize,
    /// Target, routes the dispatch.
    pub venue: usize,
    /// Completion-due instant, set by the gateway.
    pub due: u128,
    pub ts: [u128; 8],
}

impl Order {
    /// `other` is this order, but for the stamp at `idx`, which may differ.
    pub open spec fn restamped(self, other: Order, idx: int) -> bool {
        &&& other.strategy == self.strategy
        &&& other.venue == self.venue
        &&& other.due == self.due
        &&& forall|i: int| 0 <= i < 8 && i != idx ==> #[trigger] other.ts[i] == self.ts[i]
    }

    /// `other` is this order with `t` as its stamp at `idx`.
    pub open spec fn stamped(self, other: Order, idx: int, t: u128) -> bool {
        &&& self.restamped(other, idx)
        &&& 0 <= idx < 8 ==> other.ts[idx] == t
    }

    /// `other` is this order with a reading of `clock` as its stamp at `idx`.
    pub open spec fn marked(self, other: Order, clock: Clock, idx: int) -> bool {
        self.restamped(other, idx) && clock.reads(other.ts[idx])
    }

    /// An order of `strategy` for `venue`, every instant of which is `now`.
    pub fn at(strategy: usize, venue: usize, now: u128) -> (o: Order)
        ensures
            o.strategy == strategy,
            o.venue == venue,
            o.due == now,
            forall|i: int| 0 <= i < 8 ==> #[trigger] o.ts[i] == now,
    {
        Order { strategy, venue, due: now, ts: [now; 8] }
    }

    /// An order of `strategy` for `venue`, made now.
    pub fn new(clock: &Clock, strategy: usize, venue: usize) -> (o: Order)
        ensures
            o.strategy == strategy,
            o.venue == venue,
            clock.reads(o.due),
            forall|i: int| 0 <= i < 8 ==> #[trigger] o.ts[i] == o.due,
    {
        Order::at(strategy, venue, clock.now())
    }

    /// Sets the stamp at `idx`.
    pub fn stamp(&mut self, idx: usize, now: u128)
        requires
            idx < 8,
        ensures
            old(self).stamped(*final(self), idx as int, now),
    {
        self.ts[idx] = now;
    }
}

// ---- laws -------------------------------------------------------------------

/// An order that is offered again is marked anew: only the last reading stays.
pub proof fn law_retry_renews_the_mark(a: Order, b: Order, c: Order, clock: Clock, idx: int)
    requires
        a.marked(b, clock, idx),
        b.marked(c, clock, idx),
    ensures
        a.marked(c, clock, idx),
{
    assert forall|i: int| 0 <= i < 8 && i != idx implies #[trigger] c.ts[i] == a.ts[i] by {
        assert(b.ts[i] == a.ts[i]);
    }
}

/// A stamp changes its own place alone: the order stays that of its strategy for
/// its venue, with its due instant and its other stamps.
pub proof fn law_a_stamp_changes_one_place(a: Order, b: Order, idx: int, t: u128, i: int)
    requires
        0 <= idx < 8,
        0 <= i < 8,
        a.stamped(b, idx, t),
    ensures
        b.strategy == a.strategy,
        b.venue == a.venue,
        b.due == a.due,
        b.ts[idx] == t,
        i != idx ==> b.ts[i] == a.ts[i],
{
}

/// An order that is marked has a reading of the clock at the place of the mark, and
/// is otherwise as before.
pub proof fn law_a_mark_is_a_reading(a: Order, b: Order, clock: Clock, idx: int, i: int)
    requires
        0 <= idx < 8,
        0 <= i < 8,
        a.marked(b, clock, idx),
    ensures
        clock.reads(b.ts[idx]),
        b.strategy == a.strategy,
        b.venue == a.venue,
        b.due == a.due,
        i != idx ==> b.ts[i] == a.ts[i],
{
}

} // verus!
