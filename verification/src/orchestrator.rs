//! The orchestrator routes: it dispatches submitted orders to the gateways of
//! their venues, and it returns completed orders to their strategies.

use crate::clock::Clock;
use crate::flush;
use crate::handoff::{Rx, Tx};
use crate::order::Order;
use crate::work;
use vstd::prelude::*;

verus! {

/// Cells of the orchestrator's working set: 32 KB.
pub const SCRATCH_CELLS: usize = 4096;

/// The state of the orchestrator.
pub struct Orchestrator {
    /// The number of strategies.
    pub n: usize,
    /// The number of venues.
    pub m: usize,
    /// Orders that did not fit into their gateway's inbox.
    pub pend_disp: Vec<Order>,
    /// Orders that did not fit into their strategy's return queue.
    pub pend_ret: Vec<Order>,
    /// How many orders were returned.
    pub produced: usize,
    /// How many orders there are to return.
    pub total: usize,
    /// Iterations of work for each submitted order.
    pub work_iters: u64,
    /// The working set.
    pub scratch: Vec<u64>,
}

impl Orchestrator {
    /// The orders held back can be routed, and there is room to count them.
    pub open spec fn wf(self) -> bool {
        &&& forall|i: int|
            0 <= i < self.pend_disp.len() ==> (#[trigger] self.pend_disp[i]).venue < self.m
        &&& forall|i: int|
            0 <= i < self.pend_ret.len() ==> (#[trigger] self.pend_ret[i]).strategy < self.n
        &&& self.produced + self.pend_ret.len() <= usize::MAX
        &&& self.scratch.len() == SCRATCH_CELLS
    }

    /// What never changes.
    pub open spec fn same_task(self, o: Orchestrator) -> bool {
        &&& self.n == o.n
        &&& self.m == o.m
        &&& self.total == o.total
        &&& self.work_iters == o.work_iters
    }

    /// This orchestrator after a dispatch that came out as `outcome`: an order
    /// that was given back is held.
    pub open spec fn dispatched(self, after: Orchestrator, outcome: Result<(), Order>) -> bool {
        &&& after.same_task(self)
        &&& after.pend_ret == self.pend_ret
        &&& after.produced == self.produced
        &&& after.pend_disp@ == match outcome {
            Ok(()) => self.pend_disp@,
            Err(x) => self.pend_disp@.push(x),
        }
    }

    /// This orchestrator after a return that came out as `outcome`: an order
    /// that was taken counts as returned, one that was given back is held.
    pub open spec fn returned(self, after: Orchestrator, outcome: Result<(), Order>) -> bool {
        &&& after.same_task(self)
        &&& after.pend_disp == self.pend_disp
        &&& after.scratch == self.scratch
        &&& after.produced == self.produced + (if outcome is Ok {
            1int
        } else {
            0
        })
        &&& after.pend_ret@ == match outcome {
            Ok(()) => self.pend_ret@,
            Err(x) => self.pend_ret@.push(x),
        }
    }

    /// The orchestrator of `n` strategies and `m` venues with `total` orders.
    pub fn new(n: usize, m: usize, total: usize, work_iters: u64) -> (r: Orchestrator)
        ensures
            r.wf(),
            r.n == n,
            r.m == m,
            r.total == total,
            r.work_iters == work_iters,
            r.produced == 0,
            r.pend_disp@ == Seq::<Order>::empty(),
            r.pend_ret@ == Seq::<Order>::empty(),
            r.scratch@ == Seq::new(SCRATCH_CELLS as nat, |i: int| 0u64),
    {
        let r = Orchestrator {
            n,
            m,
            pend_disp: Vec::new(),
            pend_ret: Vec::new(),
            produced: 0,
            total,
            work_iters,
            scratch: vec![0u64; SCRATCH_CELLS],
        };
        assert(r.scratch@ =~= Seq::new(SCRATCH_CELLS as nat, |i: int| 0u64));
        r
    }

    /// Takes a submitted order off its queue, if there is one, and stamps its
    /// receipt.
    pub fn submitted(&self, clock: &Clock, srx: &mut Rx) -> (r: Option<Order>)
        ensures
            match r {
                Some(x) => old(srx).delivered(*final(srx), *clock, x, 1),
                None => old(srx).polled(*final(srx), None),
            },
    {
        srx.take(clock, 1)
    }

    /// Takes a completed order off its queue, if there is one, and stamps its
    /// receipt.
    pub fn completed(&self, clock: &Clock, crx: &mut Rx) -> (r: Option<Order>)
        ensures
            match r {
                Some(x) => old(crx).delivered(*final(crx), *clock, x, 5),
                None => old(crx).polled(*final(crx), None),
            },
    {
        crx.take(clock, 5)
    }

    /// Takes in how a dispatch came out. Returns whether the inbox was full.
    pub fn settle_dispatch(&mut self, outcome: Result<(), Order>) -> (full: bool)
        requires
            old(self).wf(),
            outcome matches Err(x) ==> x.venue < old(self).m,
        ensures
            final(self).wf(),
            old(self).dispatched(*final(self), outcome),
            final(self).scratch == old(self).scratch,
            full == (outcome is Err),
    {
        match outcome {
            Ok(()) => false,
            Err(x) => {
                self.pend_disp.push(x);
                true
            },
        }
    }

    /// Does the work that a submitted order takes and hands the order to the
    /// gateway of its venue; what does not fit is held back. Returns whether the
    /// inbox was full.
    pub fn dispatch(&mut self, clock: &Clock, o: Order, gtx: &mut [Tx]) -> (full: bool)
        requires
            old(self).wf(),
            old(gtx)@.len() == old(self).m,
            o.venue < old(self).m,
        ensures
            final(self).wf(),
            work::worked(old(self).scratch@, final(self).scratch@, old(self).work_iters as int),
            exists|outcome: Result<(), Order>|
                {
                    &&& flush::handed(
                        o.venue as int,
                        old(gtx)@,
                        final(gtx)@,
                        *clock,
                        o,
                        2,
                        outcome,
                    )
                    &&& #[trigger] old(self).dispatched(*final(self), outcome)
                    &&& full == (outcome is Err)
                },
    {
        work::simulate_work(self.work_iters, self.scratch.as_mut_slice());
        let v = o.venue;
        let outcome = gtx[v].try_push(clock, o, 2);
        let ghost out = outcome;
        let full = self.settle_dispatch(outcome);
        assert(old(self).dispatched(*self, out));
        full
    }

    /// Offers the orders held back to their gateways again. Returns how many
    /// were sent.
    pub fn retry_dispatch(&mut self, clock: &Clock, gtx: &mut [Tx]) -> (sent: usize)
        requires
            old(self).wf(),
            old(gtx)@.len() == old(self).m,
        ensures
            final(self).wf(),
            final(self).same_task(*old(self)),
            final(self).pend_ret == old(self).pend_ret,
            final(self).produced == old(self).produced,
            final(self).scratch == old(self).scratch,
            sent + final(self).pend_disp.len() == old(self).pend_disp.len(),
            final(gtx)@.len() == old(gtx)@.len(),
            flush::retried(
                old(self).pend_disp@,
                flush::by_venue(),
                *clock,
                old(gtx)@,
                final(gtx)@,
                2,
                final(self).pend_disp@,
            ),
    {
        let ghost (s, a) = (self.pend_disp@, gtx@);
        let sent = flush::flush_by_venue(&mut self.pend_disp, clock, gtx, 2);
        proof {
            flush::lemma_retried(
                s,
                flush::by_venue(),
                *clock,
                a,
                gtx@,
                2,
                self.pend_disp@,
            );
            assert forall|j: int| 0 <= j < self.pend_disp.len() implies (#[trigger]
            self.pend_disp[j]).venue < self.m by {
                assert(flush::comes_from(s, self.pend_disp@[j], 2));
                let i = choose|i: int|
                    0 <= i < s.len() && (#[trigger] s[i]).restamped(self.pend_disp@[j], 2);
                assert(old(self).pend_disp[i].venue < self.m);
            }
        }
        sent
    }

    /// Takes in how a return came out. Returns whether the return queue was full.
    pub fn settle_return(&mut self, outcome: Result<(), Order>) -> (full: bool)
        requires
            old(self).wf(),
            old(self).produced + old(self).pend_ret.len() < usize::MAX,
            outcome matches Err(x) ==> x.strategy < old(self).n,
        ensures
            final(self).wf(),
            old(self).returned(*final(self), outcome),
            full == (outcome is Err),
    {
        match outcome {
            Ok(()) => {
                self.produced += 1;
                false
            },
            Err(x) => {
                self.pend_ret.push(x);
                true
            },
        }
    }

    /// Hands a completed order to its strategy; what does not fit is held back.
    /// Returns whether the return queue was full.
    pub fn give_back(&mut self, clock: &Clock, o: Order, rtx: &mut [Tx]) -> (full: bool)
        requires
            old(self).wf(),
            old(self).produced + old(self).pend_ret.len() < usize::MAX,
            old(rtx)@.len() == old(self).n,
            o.strategy < old(self).n,
        ensures
            final(self).wf(),
            exists|outcome: Result<(), Order>|
                {
                    &&& flush::handed(
                        o.strategy as int,
                        old(rtx)@,
                        final(rtx)@,
                        *clock,
                        o,
                        6,
                        outcome,
                    )
                    &&& #[trigger] old(self).returned(*final(self), outcome)
                    &&& full == (outcome is Err)
                },
    {
        let s = o.strategy;
        let outcome = rtx[s].try_push(clock, o, 6);
        let ghost out = outcome;
        let full = self.settle_return(outcome);
        assert(old(self).returned(*self, out));
        full
    }

    /// Offers the orders held back to their strategies again. Returns how many
    /// were sent; they count as returned.
    pub fn retry_return(&mut self, clock: &Clock, rtx: &mut [Tx]) -> (sent: usize)
        requires
            old(self).wf(),
            old(rtx)@.len() == old(self).n,
        ensures
            final(self).wf(),
            final(self).same_task(*old(self)),
            final(self).pend_disp == old(self).pend_disp,
            final(self).scratch == old(self).scratch,
            final(self).produced == old(self).produced + sent,
            sent + final(self).pend_ret.len() == old(self).pend_ret.len(),
            final(rtx)@.len() == old(rtx)@.len(),
            flush::retried(
                old(self).pend_ret@,
                flush::by_strategy(),
                *clock,
                old(rtx)@,
                final(rtx)@,
                6,
                final(self).pend_ret@,
            ),
    {
        let ghost (s, a) = (self.pend_ret@, rtx@);
        let sent = flush::flush_by_strategy(&mut self.pend_ret, clock, rtx, 6);
        proof {
            flush::lemma_retried(
                s,
                flush::by_strategy(),
                *clock,
                a,
                rtx@,
                6,
                self.pend_ret@,
            );
            assert forall|j: int| 0 <= j < self.pend_ret.len() implies (#[trigger]
            self.pend_ret[j]).strategy < self.n by {
                assert(flush::comes_from(s, self.pend_ret@[j], 6));
                let i = choose|i: int|
                    0 <= i < s.len() && (#[trigger] s[i]).restamped(self.pend_ret@[j], 6);
                assert(old(self).pend_ret[i].strategy < self.n);
            }
        }
        self.produced += sent;
        sent
    }

    /// Whether every order was returned.
    pub fn finished(&self) -> (b: bool)
        ensures
            b <==> self.produced == self.total,
    {
        self.produced == self.total
    }
}

// ---- laws -------------------------------------------------------------------

/// A completed order is counted once, whether it goes back at once or is held
/// back: what was returned and what is held back together grow by one.
pub proof fn law_completed_orders_are_counted_once(
    a: Orchestrator,
    b: Orchestrator,
    outcome: Result<(), Order>,
)
    requires
        a.returned(b, outcome),
    ensures
        b.produced + b.pend_ret.len() == a.produced + a.pend_ret.len() + 1,
{
}

/// A dispatch holds back what was given back, behind the others, and leaves what is
/// to be returned alone.
pub proof fn law_dispatch_holds_what_did_not_fit(
    a: Orchestrator,
    b: Orchestrator,
    outcome: Result<(), Order>,
)
    requires
        a.dispatched(b, outcome),
    ensures
        outcome is Ok ==> b.pend_disp@ == a.pend_disp@,
        outcome matches Err(x) ==> b.pend_disp@.len() == a.pend_disp@.len() + 1
            && b.pend_disp@.last() == x && b.pend_disp@.drop_last() == a.pend_disp@,
        b.pend_ret@ == a.pend_ret@,
        b.produced == a.produced,
        b.n == a.n,
        b.m == a.m,
        b.total == a.total,
        b.work_iters == a.work_iters,
{
    if outcome is Err {
        assert(b.pend_disp@.drop_last() =~= a.pend_disp@);
    }
}

/// An order that goes back at once counts as returned; one that does not fit is
/// held back behind the others and does not count. What is to be dispatched is left
/// alone.
pub proof fn law_only_returned_orders_count(
    a: Orchestrator,
    b: Orchestrator,
    outcome: Result<(), Order>,
)
    requires
        a.returned(b, outcome),
    ensures
        outcome is Ok ==> b.produced == a.produced + 1 && b.pend_ret@ == a.pend_ret@,
        outcome matches Err(x) ==> b.produced == a.produced && b.pend_ret@.len()
            == a.pend_ret@.len() + 1 && b.pend_ret@.last() == x && b.pend_ret@.drop_last()
            == a.pend_ret@,
        b.pend_disp@ == a.pend_disp@,
        b.scratch@ == a.scratch@,
        b.n == a.n,
        b.m == a.m,
        b.total == a.total,
        b.work_iters == a.work_iters,
{
    if outcome is Err {
        assert(b.pend_ret@.drop_last() =~= a.pend_ret@);
    }
}

/// The working set takes up thirty-two kilobytes, at eight bytes for each cell.
pub proof fn law_working_set_is_small()
    ensures
        SCRATCH_CELLS * 8 == 32 * 1024,
{
}

/// The task of an orchestrator is the number of its strategies and venues, of the
/// orders to return, and the work for each order.
pub proof fn law_task_stays_the_same(a: Orchestrator, b: Orchestrator)
    requires
        a.same_task(b),
    ensures
        a.n == b.n,
        a.m == b.m,
        a.total == b.total,
        a.work_iters == b.work_iters,
{
}

} // verus!
