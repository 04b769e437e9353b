//! The contended many-to-one handoffs, built with one of four non-blocking
//! techniques, and the producer and consumer handles that they are used through.

use crate::arith;
use crate::clock::Clock;
use crate::line;
use crate::line::{Consumer, Line, Producer};
use crate::order::Order;
use crate::queue;
use crate::queue::{RingRx, RingTx};
use std::sync::mpsc;
use vstd::prelude::*;

verus! {

// ---- techniques -------------------------------------------------------------

/// The non-blocking techniques that a contended handoff can be built with.
#[derive(Clone, Copy, Debug, PartialEq, Eq)]
pub enum Tech {
    StdMpsc,
    Crossbeam,
    ArrayQ,
    SpscMux,
}

/// The techniques that are compared, with their names.
pub const TECHS: [(&'static str, Tech); 4] = [
    ("std::sync::mpsc (unbounded)", Tech::StdMpsc),
    ("crossbeam-channel (bounded)", Tech::Crossbeam),
    ("crossbeam ArrayQueue (MPSC ring)", Tech::ArrayQ),
    ("per-producer SPSC + mux", Tech::SpscMux),
];

/// Producer handle.
pub enum Tx {
    Std(mpsc::Sender<Order>),
    Cb(crossbeam_channel::Sender<Order>),
    Aq(RingTx),
}

impl Tx {
    /// The life of the queue behind this handle, and the handle's part in it.
    pub open spec fn producer(self) -> Producer {
        match self {
            Tx::Std(p) => queue::mpsc_producer(p),
            Tx::Cb(p) => queue::channel_producer(p),
            Tx::Aq(p) => queue::ring_producer(p),
        }
    }

    /// `other` is a handle of the same kind.
    pub open spec fn like(self, other: Tx) -> bool {
        &&& self is Std <==> other is Std
        &&& self is Cb <==> other is Cb
    }

    /// `o` was offered once, stamped `now` at `idx`, to the queue behind this
    /// handle, which is `after` then. One that is unbounded loses what comes after
    /// its far end is gone; any other gives back what it does not take.
    pub open spec fn answered_at(
        self,
        after: Tx,
        o: Order,
        idx: int,
        now: u128,
        outcome: Result<(), Order>,
    ) -> bool {
        exists|s: Order, taken: bool|
            {
                &&& o.stamped(s, idx, now)
                &&& self.like(after)
                &&& #[trigger] self.producer().offered(after.producer(), s, taken)
                &&& match outcome {
                    Ok(()) => taken || self is Std,
                    Err(x) => !taken && self !is Std && x == s,
                }
            }
    }

    /// `o` was offered once, stamped at `idx` with a reading of `clock`, to the
    /// queue behind this handle, which is `after` then, and it came out as
    /// `outcome`.
    pub open spec fn answered(
        self,
        after: Tx,
        clock: Clock,
        o: Order,
        idx: int,
        outcome: Result<(), Order>,
    ) -> bool {
        exists|now: u128|
            clock.reads(now) && #[trigger] self.answered_at(after, o, idx, now, outcome)
    }

    /// One more handle to the same queue. Handles are made from the first one.
    fn share(&mut self) -> (r: Tx)
        requires
            old(self).producer().number == 0,
        ensures
            old(self).like(*final(self)),
            old(self).like(r),
            final(self).producer() == old(self).producer().copied(),
            r.producer() == old(self).producer().next_copy(),
    {
        match self {
            Tx::Std(p) => Tx::Std(queue::mpsc_share(p)),
            Tx::Cb(p) => Tx::Cb(queue::channel_share(p)),
            Tx::Aq(p) => Tx::Aq(queue::ring_share(p)),
        }
    }

    /// Stamps `ts[idx]` with `now` and enqueues once; on a full bounded queue it
    /// returns the order so that the caller can hold and retry.
    pub fn push_at(&mut self, o: Order, idx: usize, now: u128) -> (r: Result<(), Order>)
        requires
            idx < 8,
        ensures
            old(self).answered_at(*final(self), o, idx as int, now, r),
    {
        let mut s = o;
        s.stamp(idx, now);
        let ghost stamped = s;
        let ghost taken: bool;
        let r = match self {
            Tx::Std(p) => {
                // Unbounded: it fails only if the receiver is gone.
                let sent = queue::mpsc_send(p, s);
                proof {
                    taken = sent is Ok;
                }
                Ok(())
            },
            Tx::Cb(p) => {
                let sent = queue::channel_send(p, s);
                proof {
                    taken = sent is Ok;
                }
                sent
            },
            Tx::Aq(p) => {
                let sent = queue::ring_push(p, s);
                proof {
                    taken = sent is Ok;
                }
                sent
            },
        };
        assert(old(self).producer().offered(self.producer(), stamped, taken));
        r
    }

    /// Stamps `ts[idx]` and enqueues once; on a full bounded queue it returns
    /// the order so that the caller can hold and retry.
    pub fn try_push(&mut self, clock: &Clock, o: Order, idx: usize) -> (r: Result<(), Order>)
        requires
            idx < 8,
        ensures
            old(self).answered(*final(self), *clock, o, idx as int, r),
    {
        self.push_at(o, idx, clock.now())
    }
}

/// Consumer handle.
pub enum Rx {
    Std(mpsc::Receiver<Order>),
    Cb(crossbeam_channel::Receiver<Order>),
    Aq(RingRx),
    Mux { qs: Vec<RingRx>, cursor: usize },
}

/// A poll cursor after `k` steps; it wraps around like the machine word it is.
pub open spec fn advanced(cursor: usize, k: int) -> usize {
    ((cursor + k) % (usize::MAX + 1)) as usize
}

/// A cursor after no step is the cursor itself, and one step more wraps from
/// the largest word to zero.
proof fn lemma_advanced(cursor: usize, k: int)
    requires
        0 <= k,
    ensures
        advanced(cursor, 0) == cursor,
        advanced(cursor, k + 1) == (if advanced(cursor, k) == usize::MAX {
            0int
        } else {
            advanced(cursor, k) + 1
        }),
{
    let w = usize::MAX + 1;
    vstd::arithmetic::div_mod::lemma_small_mod(cursor as nat, w as nat);
    vstd::arithmetic::div_mod::lemma_mod_bound(cursor + k, w);
    vstd::arithmetic::div_mod::lemma_mod_bound(cursor + k + 1, w);
    arith::lemma_next_remainder(cursor + k, w);
}

/// The queue, of `n`, that a multiplexed handle polls `k` steps after `cursor`.
pub open spec fn slot(cursor: usize, k: int, n: int) -> int {
    advanced(cursor, k) as int % n
}

/// One poll of queue `i` gave `got` and made `b` of the consumers `a`.
pub open spec fn turned(a: Seq<RingRx>, b: Seq<RingRx>, i: int, got: Option<Order>) -> bool {
    &&& 0 <= i < a.len()
    &&& b == a.update(i, b[i])
    &&& queue::ring_consumer(a[i]).polled(queue::ring_consumer(b[i]), got)
}

/// Step `t` of a round from `cursor` on, in which the consumers pass through the
/// states of `trail`, polls the queue whose turn it is and gives `got`.
pub open spec fn visits(
    trail: Seq<Seq<RingRx>>,
    cursor: usize,
    t: int,
    got: Option<Order>,
) -> bool {
    turned(trail[t], trail[t + 1], slot(cursor, t, trail[0].len() as int), got)
}

/// A round over the consumers `qs` from `cursor` on, in which they pass through
/// the states of `trail`, gave `r` and left them as `after` and the cursor at
/// `next`: it polled queue `cursor % n` first, where `n` queues there are, then the
/// ones that follow, each once, and it stopped at the order it delivers, or after
/// `n` polls without any. Each poll before the last one found nothing.
pub open spec fn walked(
    trail: Seq<Seq<RingRx>>,
    qs: Seq<RingRx>,
    cursor: usize,
    r: Option<Order>,
    after: Seq<RingRx>,
    next: usize,
) -> bool {
    let k = trail.len() - 1;
    &&& 0 <= k <= qs.len()
    &&& trail[0] == qs
    &&& trail[k] == after
    &&& next == advanced(cursor, k)
    &&& r is None ==> k == qs.len()
    &&& r is Some ==> k > 0 && visits(trail, cursor, k - 1, r)
    &&& forall|t: int|
        0 <= t < k && (r is None || t < k - 1) ==> #[trigger] visits(trail, cursor, t, None)
}

/// A round over the consumers `qs` from `cursor` on gave `r` and left them as
/// `after` and the cursor at `next`.
pub open spec fn mux_polled(
    qs: Seq<RingRx>,
    cursor: usize,
    r: Option<Order>,
    after: Seq<RingRx>,
    next: usize,
) -> bool {
    exists|trail: Seq<Seq<RingRx>>| #[trigger] walked(trail, qs, cursor, r, after, next)
}

/// The queue, of `n`, whose turn it is at `cursor`, and the cursor for the next
/// turn.
pub fn mux_turn(cursor: usize, n: usize) -> (r: (usize, usize))
    requires
        n > 0,
    ensures
        r.0 == slot(cursor, 0, n as int),
        r.0 == cursor as int % n as int,
        r.1 == advanced(cursor, 1),
{
    proof {
        lemma_advanced(cursor, 0);
    }
    (cursor % n, cursor.wrapping_add(1))
}

/// What a round does after it has polled a queue: it ends with the order found,
/// if there is one, and the cursor to go on from, or else goes on.
pub fn mux_step(found: Option<Order>, next: usize) -> (r: Option<(Order, usize)>)
    ensures
        r == match found {
            Some(o) => Some((o, next)),
            None => None,
        },
{
    match found {
        Some(o) => Some((o, next)),
        None => None,
    }
}

/// A step stays what it was when the trail goes on.
proof fn lemma_visits_push(
    trail: Seq<Seq<RingRx>>,
    a: Seq<RingRx>,
    cursor: usize,
    t: int,
    got: Option<Order>,
)
    requires
        0 <= t < trail.len() - 1,
        visits(trail, cursor, t, got),
    ensures
        visits(trail.push(a), cursor, t, got),
{
    assert(trail.push(a)[t] == trail[t]);
    assert(trail.push(a)[t + 1] == trail[t + 1]);
    assert(trail.push(a)[0] == trail[0]);
}

/// Polls the queues in turn, each at most once, from `cursor` on. Returns the
/// first order found and the cursor to go on from.
fn mux_pop(qs: &mut Vec<RingRx>, cursor: usize) -> (r: (Option<Order>, usize))
    ensures
        mux_polled(old(qs)@, cursor, r.0, final(qs)@, r.1),
{
    let n = qs.len();
    let mut next = cursor;
    let mut k: usize = 0;
    let ghost mut trail: Seq<Seq<RingRx>> = seq![qs@];
    proof {
        lemma_advanced(cursor, 0);
    }
    while k < n
        invariant
            n == qs.len(),
            n == old(qs).len(),
            0 <= k <= n,
            next == advanced(cursor, k as int),
            trail.len() == k + 1,
            trail[0] == old(qs)@,
            trail[k as int] == qs@,
            forall|t: int| 0 <= t < k ==> #[trigger] visits(trail, cursor, t, None),
        decreases n - k,
    {
        proof {
            lemma_advanced(cursor, k as int);
            lemma_advanced(next, 0);
        }
        let (i, after) = mux_turn(next, n);
        next = after;
        assert(i == slot(cursor, k as int, n as int));
        let ghost was = trail;
        let found = queue::ring_pop(&mut qs[i]);
        proof {
            trail = trail.push(qs@);
            assert forall|t: int| 0 <= t < k implies #[trigger] visits(trail, cursor, t, None) by {
                lemma_visits_push(was, qs@, cursor, t, None);
            }
            assert(trail[k as int] == was[k as int]);
            assert(qs@ =~= was[k as int].update(i as int, qs@[i as int]));
            assert(visits(trail, cursor, k as int, found));
        }
        if let Some((o, end)) = mux_step(found, next) {
            assert(walked(trail, old(qs)@, cursor, Some(o), qs@, end));
            return (Some(o), end);
        }
        k += 1;
    }
    assert(walked(trail, old(qs)@, cursor, None, qs@, next));
    (None, next)
}

impl Rx {
    /// The life of the queue behind a handle that is not multiplexed, and the
    /// handle's part in it.
    pub open spec fn consumer(self) -> Consumer
        recommends
            self !is Mux,
    {
        match self {
            Rx::Std(c) => queue::mpsc_consumer(c),
            Rx::Cb(c) => queue::channel_consumer(c),
            Rx::Aq(c) => queue::ring_consumer(c),
            Rx::Mux { qs, cursor } => arbitrary(),
        }
    }

    /// `other` is a handle of the same kind.
    pub open spec fn like(self, other: Rx) -> bool {
        &&& self is Std <==> other is Std
        &&& self is Cb <==> other is Cb
        &&& self is Aq <==> other is Aq
    }

    /// One poll gave `r` and left this handle as `after`. A multiplexed handle
    /// makes a round over its queues.
    pub open spec fn polled(self, after: Rx, r: Option<Order>) -> bool {
        &&& self.like(after)
        &&& match self {
            Rx::Mux { qs, cursor } => {
                &&& after matches Rx::Mux { qs: qs2, cursor: cursor2 }
                &&& mux_polled(qs@, cursor, r, qs2@, cursor2)
            },
            _ => self.consumer().polled(after.consumer(), r),
        }
    }

    /// Takes one order off the queue, if there is one. A multiplexed handle
    /// polls its queues in turn, each at most once, from where it stopped last.
    pub fn try_pop(&mut self) -> (r: Option<Order>)
        ensures
            old(self).polled(*final(self), r),
    {
        match self {
            Rx::Std(c) => queue::mpsc_recv(c),
            Rx::Cb(c) => queue::channel_recv(c),
            Rx::Aq(c) => queue::ring_pop(c),
            Rx::Mux { qs, cursor } => {
                let (r, next) = mux_pop(qs, *cursor);
                *cursor = next;
                r
            },
        }
    }

    /// Takes one order off the queue, if there is one, and stamps it at `idx`.
    pub fn take(&mut self, clock: &Clock, idx: usize) -> (r: Option<Order>)
        requires
            idx < 8,
        ensures
            match r {
                Some(x) => old(self).delivered(*final(self), *clock, x, idx as int),
                None => old(self).polled(*final(self), None),
            },
    {
        match self.try_pop() {
            Some(o) => {
                let ghost popped = o;
                let mut x = o;
                let now = clock.now();
                x.stamp(idx, now);
                assert(popped.stamped(x, idx as int, now));
                Some(x)
            },
            None => None,
        }
    }

    /// One poll gave `x`, which was then stamped at `idx` with a reading of
    /// `clock`, and left this handle as `after`.
    pub open spec fn delivered(self, after: Rx, clock: Clock, x: Order, idx: int) -> bool {
        exists|o: Order, now: u128|
            {
                &&& self.polled(after, Some(o))
                &&& clock.reads(now)
                &&& #[trigger] o.stamped(x, idx, now)
            }
    }
}

// ---- building a handoff -----------------------------------------------------

/// Handle `i` of the `n` handles to a new queue: the others were made from the
/// first one, and none was used.
pub open spec fn nth_producer(line: Line, i: int, n: int) -> Producer {
    Producer {
        line,
        number: i,
        copies: if i == 0 {
            n - 1
        } else {
            0
        },
        moments: Seq::empty(),
    }
}

/// The two sides of one new queue: `tx` are all the producers' handles that there
/// are, `c` is the consumer's, and none was used.
pub open spec fn joined(tx: Seq<Tx>, c: Consumer) -> bool {
    &&& c == Consumer::first(c.line)
    &&& c.line.lawful()
    &&& forall|i: int|
        0 <= i < tx.len() ==> (#[trigger] tx[i]).producer() == nth_producer(
            c.line,
            i,
            tx.len() as int,
        )
}

/// The two sides of new rings of capacity `cap`: each ring has one producer and
/// one consumer, and none was used.
pub open spec fn paired(tx: Seq<Tx>, qs: Seq<RingRx>, cap: usize) -> bool {
    &&& tx.len() == qs.len()
    &&& forall|i: int| 0 <= i < tx.len() ==> ring_pair(#[trigger] tx[i], qs[i], cap)
}

/// The two sides of one new ring of capacity `cap`.
pub open spec fn ring_pair(tx: Tx, c: RingRx, cap: usize) -> bool {
    &&& tx is Aq
    &&& joined(seq![tx], queue::ring_consumer(c))
    &&& queue::ring_consumer(c).line.limit == Some(cap as nat)
    &&& queue::ring_consumer(c).line.stays_open()
}

/// Whether `tx` and `rx` are the two sides of one new handoff made with `tech`.
pub open spec fn wired(
    tech: Tech,
    shared_cap: usize,
    spsc_cap: usize,
    tx: Seq<Tx>,
    rx: Rx,
) -> bool {
    match tech {
        Tech::StdMpsc => {
            &&& rx is Std
            &&& forall|i: int| 0 <= i < tx.len() ==> (#[trigger] tx[i]) is Std
            &&& joined(tx, rx.consumer())
            &&& rx.consumer().line.limit is None
        },
        Tech::Crossbeam => {
            &&& rx is Cb
            &&& forall|i: int| 0 <= i < tx.len() ==> (#[trigger] tx[i]) is Cb
            &&& joined(tx, rx.consumer())
            &&& rx.consumer().line.limit == Some(shared_cap as nat)
        },
        Tech::ArrayQ => {
            &&& rx is Aq
            &&& forall|i: int| 0 <= i < tx.len() ==> (#[trigger] tx[i]) is Aq
            &&& joined(tx, rx.consumer())
            &&& rx.consumer().line.limit == Some(shared_cap as nat)
            &&& rx.consumer().line.stays_open()
        },
        Tech::SpscMux => {
            &&& rx matches Rx::Mux { qs, cursor }
            &&& cursor == 0
            &&& paired(tx, qs@, spsc_cap)
        },
    }
}

/// Builds one contended many-to-one handoff with `np` producers using `tech`:
/// the producers' handles and the consumer's.
pub fn build(tech: Tech, np: usize, shared_cap: usize, spsc_cap: usize) -> (r: (Vec<Tx>, Rx))
    requires
        tech is Crossbeam ==> shared_cap <= queue::max_cap(),
        tech is ArrayQ ==> 0 < shared_cap <= queue::max_cap(),
        tech is SpscMux && np > 0 ==> 0 < spsc_cap <= queue::max_cap(),
    ensures
        r.0.len() == np,
        wired(tech, shared_cap, spsc_cap, r.0@, r.1),
        tech is StdMpsc ==> r.1 is Std && r.1.consumer().line.limit is None,
        tech is Crossbeam ==> r.1 is Cb && r.1.consumer().line.limit == Some(shared_cap as nat),
        tech is ArrayQ ==> r.1 is Aq && r.1.consumer().line.limit == Some(shared_cap as nat),
        tech !is SpscMux ==> forall|i: int|
            0 <= i < np ==> (#[trigger] r.0[i]).producer().line == r.1.consumer().line,
        tech is SpscMux ==> {
            &&& r.1 matches Rx::Mux { qs, cursor }
            &&& cursor == 0
            &&& qs.len() == np
            &&& forall|i: int|
                0 <= i < np ==> queue::ring_consumer(#[trigger] qs[i]).line.limit == Some(
                    spsc_cap as nat,
                )
            &&& forall|i: int|
                0 <= i < np ==> (#[trigger] r.0[i]).producer().line == queue::ring_consumer(
                    qs[i],
                ).line
        },
{
    match tech {
        Tech::StdMpsc => {
            let (p, c) = queue::mpsc_new();
            (handles(Tx::Std(p), np), Rx::Std(c))
        },
        Tech::Crossbeam => {
            let (p, c) = queue::channel_new(shared_cap);
            (handles(Tx::Cb(p), np), Rx::Cb(c))
        },
        Tech::ArrayQ => {
            let (p, c) = queue::ring_new(shared_cap);
            (handles(Tx::Aq(p), np), Rx::Aq(c))
        },
        Tech::SpscMux => {
            let (tx, qs) = rings(np, spsc_cap);
            proof {
                lemma_paired(tx@, qs@, spsc_cap);
            }
            (tx, Rx::Mux { qs, cursor: 0 })
        },
    }
}

/// `np` handles to a new queue, of which `first` is the first.
fn handles(first: Tx, np: usize) -> (r: Vec<Tx>)
    requires
        first.producer() == Producer::first(first.producer().line),
    ensures
        r.len() == np,
        forall|i: int|
            0 <= i < np ==> first.like(#[trigger] r[i]) && r[i].producer() == nth_producer(
                first.producer().line,
                i,
                np as int,
            ),
{
    let ghost line = first.producer().line;
    let ghost kind = first;
    let mut r: Vec<Tx> = Vec::new();
    if np == 0 {
        return r;
    }
    r.push(first);
    let mut n: usize = 1;
    while n < np
        invariant
            1 <= n <= np,
            r.len() == n,
            forall|i: int|
                0 <= i < n ==> kind.like(#[trigger] r[i]) && r[i].producer() == nth_producer(
                    line,
                    i,
                    n as int,
                ),
        decreases np - n,
    {
        let ghost before = r@;
        assert(kind.like(before[0]));
        let next = r[0].share();
        r.push(next);
        n += 1;
        assert forall|i: int| 0 <= i < n implies kind.like(#[trigger] r[i]) && r[i].producer()
            == nth_producer(line, i, n as int) by {
            if 0 < i < n - 1 {
                assert(r[i] == before[i]);
            }
        }
    }
    r
}

/// `n` rings of the given capacity: the producers' handles and the consumers'.
pub fn rings(n: usize, cap: usize) -> (r: (Vec<Tx>, Vec<RingRx>))
    requires
        n > 0 ==> 0 < cap <= queue::max_cap(),
    ensures
        r.0.len() == n,
        r.1.len() == n,
        paired(r.0@, r.1@, cap),
        forall|i: int|
            0 <= i < n ==> queue::ring_consumer(#[trigger] r.1[i]).line.limit == Some(cap as nat),
        forall|i: int|
            0 <= i < n ==> (#[trigger] r.0[i]).producer().line == queue::ring_consumer(
                r.1[i],
            ).line,
{
    let mut tx: Vec<Tx> = Vec::new();
    let mut qs: Vec<RingRx> = Vec::new();
    let mut i: usize = 0;
    while i < n
        invariant
            n > 0 ==> 0 < cap <= queue::max_cap(),
            i <= n,
            tx.len() == i,
            paired(tx@, qs@, cap),
        decreases n - i,
    {
        let ghost (a, b) = (tx@, qs@);
        let (p, c) = queue::ring_new(cap);
        tx.push(Tx::Aq(p));
        qs.push(c);
        assert(ring_pair(tx[i as int], qs[i as int], cap));
        assert forall|j: int| 0 <= j < tx.len() implies ring_pair(#[trigger] tx[j], qs[j], cap) by {
            if j < i {
                assert(ring_pair(a[j], b[j], cap));
            }
        }
        i += 1;
    }
    proof {
        lemma_paired(tx@, qs@, cap);
    }
    (tx, qs)
}

/// What the two sides of new rings have to do with each other.
proof fn lemma_paired(tx: Seq<Tx>, qs: Seq<RingRx>, cap: usize)
    requires
        paired(tx, qs, cap),
    ensures
        tx.len() == qs.len(),
        forall|i: int|
            0 <= i < tx.len() ==> queue::ring_consumer(#[trigger] qs[i]).line.limit == Some(
                cap as nat,
            ),
        forall|i: int|
            0 <= i < tx.len() ==> (#[trigger] tx[i]).producer() == nth_producer(
                queue::ring_consumer(qs[i]).line,
                0,
                1,
            ),
{
    assert forall|i: int| 0 <= i < tx.len() implies queue::ring_consumer(
        #[trigger] qs[i],
    ).line.limit == Some(cap as nat) by {
        assert(ring_pair(tx[i], qs[i], cap));
    }
    assert forall|i: int| 0 <= i < tx.len() implies (#[trigger] tx[i]).producer() == nth_producer(
        queue::ring_consumer(qs[i]).line,
        0,
        1,
    ) by {
        assert(ring_pair(tx[i], qs[i], cap));
        assert(seq![tx[i]][0] == tx[i]);
    }
}

// ---- laws -------------------------------------------------------------------

/// A new queue is empty: none of its handles was used, and there are no others.
/// Each handle starts an account of its own.
pub proof fn law_new_queue_was_not_used(tx: Seq<Tx>, c: Consumer)
    requires
        joined(tx, c),
        tx.len() > 0,
    ensures
        c.wf(),
        c.takings() == Seq::<Order>::empty(),
        c.line.contents(0) == Seq::<Order>::empty(),
        tx[0].producer().copies == tx.len() - 1,
        forall|i: int|
            0 <= i < tx.len() ==> {
                let p = (#[trigger] tx[i]).producer();
                &&& p.wf()
                &&& p.line == c.line
                &&& p.number == i
                &&& p.moments.len() == 0
                &&& i > 0 ==> p.copies == 0
            },
{
    assert(tx[0].producer() == nth_producer(c.line, 0, tx.len() as int));
}

/// Each push marks its order, whether the queue takes it or gives it back.
pub proof fn law_push_marks_the_order(
    tx: Tx,
    after: Tx,
    clock: Clock,
    o: Order,
    idx: int,
    outcome: Result<(), Order>,
)
    requires
        0 <= idx < 8,
        tx.answered(after, clock, o, idx, outcome),
    ensures
        exists|s: Order, taken: bool|
            {
                &&& o.marked(s, clock, idx)
                &&& #[trigger] tx.producer().offered(after.producer(), s, taken)
                &&& outcome matches Err(x) ==> x == s && !taken
            },
{
    let now = choose|now: u128|
        clock.reads(now) && #[trigger] tx.answered_at(after, o, idx, now, outcome);
    let (s, taken) = choose|s: Order, taken: bool|
        {
            &&& o.stamped(s, idx, now)
            &&& tx.like(after)
            &&& #[trigger] tx.producer().offered(after.producer(), s, taken)
            &&& match outcome {
                Ok(()) => taken || tx is Std,
                Err(x) => !taken && tx !is Std && x == s,
            }
        };
    assert(o.marked(s, clock, idx) && tx.producer().offered(after.producer(), s, taken));
}

/// A push fails if and only if the queue is bounded, and full or without its far
/// end when the order is offered. Then the queue holds what it held before;
/// otherwise, where the far end is there, it holds the stamped order behind the
/// others.
pub proof fn law_push_fails_only_when_full(
    tx: Tx,
    after: Tx,
    o: Order,
    idx: int,
    now: u128,
    outcome: Result<(), Order>,
)
    requires
        tx.answered_at(after, o, idx, now, outcome),
        tx is Std <==> tx.producer().line.limit is None,
        tx.producer().line.limit != Some(0nat),
    ensures
        ({
            let line = tx.producer().line;
            let m = after.producer().moments.last();
            &&& outcome is Err <==> tx !is Std && !line.takes(m)
            &&& !line.takes(m) ==> line.contents(m + 1) == line.contents(m)
            &&& line.takes(m) ==> exists|s: Order|
                #[trigger] o.stamped(s, idx, now) && line.contents(m + 1) == line.contents(
                    m,
                ).push(s)
        }),
{
    let (s, taken) = choose|s: Order, taken: bool|
        {
            &&& o.stamped(s, idx, now)
            &&& tx.like(after)
            &&& #[trigger] tx.producer().offered(after.producer(), s, taken)
            &&& match outcome {
                Ok(()) => taken || tx is Std,
                Err(x) => !taken && tx !is Std && x == s,
            }
        };
    let line = tx.producer().line;
    let m = choose|m: int| #[trigger] tx.producer().offered_at(after.producer(), m, s, taken);
    assert(after.producer().moments.last() == m);
    assert(line.obeys(m));
    line::law_events_change_one_order(line, m);
    assert(o.stamped(s, idx, now));
}

/// Each delivery marks its order.
pub proof fn law_delivery_marks_the_order(rx: Rx, after: Rx, clock: Clock, x: Order, idx: int)
    requires
        0 <= idx < 8,
        rx.delivered(after, clock, x, idx),
    ensures
        exists|o: Order| rx.polled(after, Some(o)) && #[trigger] o.marked(x, clock, idx),
{
    let (o, now) = choose|o: Order, now: u128|
        {
            &&& rx.polled(after, Some(o))
            &&& clock.reads(now)
            &&& #[trigger] o.stamped(x, idx, now)
        };
    assert(o.marked(x, clock, idx));
}

/// A poll gives the oldest order, and the queue holds the others after it; it
/// gives nothing if and only if the queue is empty, and then changes nothing.
pub proof fn law_poll_takes_the_oldest(rx: Rx, after: Rx, got: Option<Order>)
    requires
        rx !is Mux,
        rx.polled(after, got),
    ensures
        ({
            let line = rx.consumer().line;
            let m = after.consumer().moments.last();
            &&& got == line.front(m)
            &&& line.contents(m + 1) == match got {
                Some(o) => line.contents(m).drop_first(),
                None => line.contents(m),
            }
        }),
{
    let line = rx.consumer().line;
    let m = choose|m: int| #[trigger] rx.consumer().polled_at(after.consumer(), m, got);
    assert(after.consumer().moments.last() == m);
    assert(line.obeys(m));
    line::law_events_change_one_order(line, m);
}

/// Queue `i`, of `n`, is polled in a full round from `cursor` on.
pub open spec fn visited(cursor: usize, n: int, i: int) -> bool {
    exists|k: int| 0 <= k < n && #[trigger] slot(cursor, k, n) == i
}

/// No producer is starved: one round of a multiplexed handle polls every one of
/// its `n` queues, and none twice. The cursor must not wrap around within the
/// round, unless the number of machine words is a multiple of `n`.
pub proof fn law_mux_round_is_fair(cursor: usize, n: int)
    requires
        n > 0,
        cursor + n - 1 <= usize::MAX || (usize::MAX + 1) % n == 0,
    ensures
        forall|i: int| 0 <= i < n ==> #[trigger] visited(cursor, n, i),
        forall|j: int, k: int|
            0 <= j < k < n ==> #[trigger] slot(cursor, j, n) != #[trigger] slot(cursor, k, n),
{
    assert forall|k: int| 0 <= k < n implies #[trigger] slot(cursor, k, n) == (cursor + k) % n by {
        let w = usize::MAX + 1;
        let x = cursor + k;
        vstd::arithmetic::div_mod::lemma_mod_bound(x, w);
        if x < w {
            vstd::arithmetic::div_mod::lemma_small_mod(x as nat, w as nat);
        } else {
            let m = w / n;
            vstd::arithmetic::div_mod::lemma_fundamental_div_mod(w, n);
            vstd::arithmetic::div_mod::lemma_fundamental_div_mod(x, w);
            let q = x / w;
            assert(w * q == n * (m * q)) by (nonlinear_arith)
                requires
                    w == n * m,
            ;
            vstd::arithmetic::div_mod::lemma_mod_multiples_vanish(m * q, x % w, n);
            assert(n * (m * q) + x % w == x);
        }
    }
    assert forall|i: int| 0 <= i < n implies #[trigger] visited(cursor, n, i) by {
        let k = (i - cursor) % n;
        vstd::arithmetic::div_mod::lemma_mod_bound(i - cursor, n);
        vstd::arithmetic::div_mod::lemma_add_mod_noop_right(cursor as int, i - cursor, n);
        vstd::arithmetic::div_mod::lemma_small_mod(i as nat, n as nat);
        assert(slot(cursor, k, n) == i);
    }
    assert forall|j: int, k: int| 0 <= j < k < n implies #[trigger] slot(cursor, j, n)
        != #[trigger] slot(cursor, k, n) by {
        if (cursor + j) % n == (cursor + k) % n {
            vstd::arithmetic::div_mod::lemma_mod_equivalence(cursor + k, cursor + j, n);
            vstd::arithmetic::div_mod::lemma_small_mod((k - j) as nat, n as nat);
        }
    }
}

/// `b` is the handle `a` after some more polls.
pub open spec fn goes_on(a: Consumer, b: Consumer) -> bool {
    &&& b.line == a.line
    &&& a.moments.len() <= b.moments.len()
    &&& forall|x: int| 0 <= x < a.moments.len() ==> #[trigger] b.moments[x] == a.moments[x]
}

/// The steps of a round that gave `r`.
proof fn lemma_step(
    trail: Seq<Seq<RingRx>>,
    qs: Seq<RingRx>,
    cursor: usize,
    r: Option<Order>,
    after: Seq<RingRx>,
    next: usize,
    t: int,
)
    requires
        walked(trail, qs, cursor, r, after, next),
        0 <= t < trail.len() - 1,
    ensures
        visits(trail, cursor, t, if t == trail.len() - 2 {
            r
        } else {
            None
        }),
{
    if t < trail.len() - 2 || r is None {
        assert(visits(trail, cursor, t, None));
    }
}

/// In the course of a round the consumers go on.
proof fn lemma_walk(
    trail: Seq<Seq<RingRx>>,
    qs: Seq<RingRx>,
    cursor: usize,
    r: Option<Order>,
    after: Seq<RingRx>,
    next: usize,
    s: int,
    t: int,
)
    requires
        walked(trail, qs, cursor, r, after, next),
        0 <= s <= t < trail.len(),
    ensures
        trail[s].len() == trail[t].len(),
        forall|i: int|
            0 <= i < trail[s].len() ==> goes_on(
                queue::ring_consumer(#[trigger] trail[s][i]),
                queue::ring_consumer(trail[t][i]),
            ),
    decreases t,
{
    if s < t {
        lemma_walk(trail, qs, cursor, r, after, next, s, t - 1);
        lemma_step(trail, qs, cursor, r, after, next, t - 1);
        let j = slot(cursor, t - 1, trail[0].len() as int);
        assert forall|i: int| 0 <= i < trail[s].len() implies goes_on(
            queue::ring_consumer(#[trigger] trail[s][i]),
            queue::ring_consumer(trail[t][i]),
        ) by {
            if i != j {
                assert(trail[t][i] == trail[t - 1][i]);
            }
        }
    }
}

/// The event that the first of the polls was which made `b` of the handle `a`.
pub open spec fn next_moment(a: RingRx, b: RingRx) -> int {
    queue::ring_consumer(b).moments[queue::ring_consumer(a).moments.len() as int]
}

/// The queue whose turn it is when consumers `qs` are polled from `cursor` on, so
/// that they become `after`, holds an order when it is polled.
pub open spec fn ready(qs: Seq<RingRx>, cursor: usize, after: Seq<RingRx>) -> bool {
    let i = slot(cursor, 0, qs.len() as int);
    queue::ring_consumer(qs[i]).line.contents(next_moment(qs[i], after[i])).len() > 0
}

/// What the queue whose turn it is gives then.
pub open spec fn turn_front(qs: Seq<RingRx>, cursor: usize, after: Seq<RingRx>) -> Option<Order> {
    let i = slot(cursor, 0, qs.len() as int);
    queue::ring_consumer(qs[i]).line.front(next_moment(qs[i], after[i]))
}

/// The queue whose turn it is is served first: if it holds an order when it is
/// polled, the poll delivers its oldest one and moves on by one, and no other
/// queue is polled.
pub proof fn law_turn_is_served(
    qs: Seq<RingRx>,
    cursor: usize,
    r: Option<Order>,
    after: Seq<RingRx>,
    next: usize,
)
    requires
        mux_polled(qs, cursor, r, after, next),
        qs.len() > 0,
        ready(qs, cursor, after),
    ensures
        r is Some,
        r == turn_front(qs, cursor, after),
        next == advanced(cursor, 1),
        ({
            let i = slot(cursor, 0, qs.len() as int);
            after == qs.update(i, after[i])
        }),
{
    let trail = choose|trail: Seq<Seq<RingRx>>| #[trigger]
        walked(trail, qs, cursor, r, after, next);
    let k = trail.len() - 1;
    let got = if k == 1 {
        r
    } else {
        None
    };
    lemma_step(trail, qs, cursor, r, after, next, 0);
    lemma_walk(trail, qs, cursor, r, after, next, 1, k);
    let i = slot(cursor, 0, qs.len() as int);
    let a = queue::ring_consumer(qs[i]);
    let b = queue::ring_consumer(trail[1][i]);
    let m = choose|m: int| #[trigger] a.polled_at(b, m, got);
    assert(b.moments[a.moments.len() as int] == m);
    assert(goes_on(queue::ring_consumer(trail[1][i]), queue::ring_consumer(trail[k][i])));
    assert(next_moment(qs[i], after[i]) == m);
    assert(a.line.obeys(m));
}

/// No producer is served twice before all were served once: of `n` polls in a row
/// of `n` queues, each of which holds an order when its turn comes, each delivers
/// the oldest order of another queue, in turn from the cursor on. The consumers
/// and the cursor go through the states of `qs` and `cursors`.
pub proof fn law_round_serves_every_queue(
    qs: Seq<Seq<RingRx>>,
    cursors: Seq<usize>,
    got: Seq<Option<Order>>,
    n: int,
)
    requires
        n > 0,
        qs.len() == n + 1,
        cursors.len() == n + 1,
        got.len() == n,
        qs[0].len() == n,
        forall|k: int|
            0 <= k < n ==> mux_polled(
                qs[k],
                cursors[k],
                #[trigger] got[k],
                qs[k + 1],
                cursors[k + 1],
            ),
        forall|k: int| 0 <= k < n ==> #[trigger] ready(qs[k], cursors[k], qs[k + 1]),
        cursors[0] + n - 1 <= usize::MAX || (usize::MAX + 1) % n == 0,
    ensures
        forall|k: int|
            0 <= k < n ==> {
                let i = slot(cursors[0], k, n);
                &&& (#[trigger] got[k]) is Some
                &&& got[k] == queue::ring_consumer(qs[k][i]).line.front(
                    next_moment(qs[k][i], qs[k + 1][i]),
                )
            },
        forall|i: int| 0 <= i < n ==> #[trigger] visited(cursors[0], n, i),
        forall|j: int, k: int|
            0 <= j < k < n ==> #[trigger] slot(cursors[0], j, n) != #[trigger] slot(
                cursors[0],
                k,
                n,
            ),
{
    law_mux_round_is_fair(cursors[0], n);
    assert forall|k: int| 0 <= k < n implies {
        let i = slot(cursors[0], k, n);
        &&& (#[trigger] got[k]) is Some
        &&& got[k] == queue::ring_consumer(qs[k][i]).line.front(
            next_moment(qs[k][i], qs[k + 1][i]),
        )
    } by {
        lemma_round(qs, cursors, got, n, k);
        lemma_advanced(cursors[k], 0);
        assert(mux_polled(qs[k], cursors[k], got[k], qs[k + 1], cursors[k + 1]));
        assert(ready(qs[k], cursors[k], qs[k + 1]));
        law_turn_is_served(qs[k], cursors[k], got[k], qs[k + 1], cursors[k + 1]);
    }
}

/// Where each poll is served at once, the cursor moves on by one with each.
proof fn lemma_round(
    qs: Seq<Seq<RingRx>>,
    cursors: Seq<usize>,
    got: Seq<Option<Order>>,
    n: int,
    k: int,
)
    requires
        qs[0].len() == n > 0,
        forall|k: int|
            0 <= k < n ==> mux_polled(
                qs[k],
                cursors[k],
                #[trigger] got[k],
                qs[k + 1],
                cursors[k + 1],
            ),
        forall|k: int| 0 <= k < n ==> #[trigger] ready(qs[k], cursors[k], qs[k + 1]),
        0 <= k <= n,
    ensures
        qs[k].len() == n,
        cursors[k] == advanced(cursors[0], k),
    decreases k,
{
    lemma_advanced(cursors[0], 0);
    if k > 0 {
        lemma_round(qs, cursors, got, n, k - 1);
        let j = k - 1;
        assert(mux_polled(qs[j], cursors[j], got[j], qs[j + 1], cursors[j + 1]));
        assert(ready(qs[j], cursors[j], qs[j + 1]));
        law_turn_is_served(qs[j], cursors[j], got[j], qs[j + 1], cursors[j + 1]);
        lemma_advanced(cursors[0], j);
        lemma_advanced(cursors[j], 0);
    }
}

/// Of the polls that made `b` of the handle `a`, one found the queue empty.
pub open spec fn found_empty(a: Consumer, b: Consumer) -> bool {
    exists|m: int|
        {
            &&& #[trigger] b.moments.contains(m)
            &&& line::later(a.moments, m)
            &&& a.line.contents(m).len() == 0
        }
}

/// A round that gives nothing has found every queue empty. The cursor must not
/// wrap around within the round, unless the number of machine words is a multiple
/// of the number of queues.
pub proof fn law_fruitless_round_finds_every_queue_empty(
    qs: Seq<RingRx>,
    cursor: usize,
    after: Seq<RingRx>,
    next: usize,
)
    requires
        mux_polled(qs, cursor, None, after, next),
        qs.len() == 0 || cursor + qs.len() - 1 <= usize::MAX || (usize::MAX + 1) % (
        qs.len() as int) == 0,
    ensures
        next == advanced(cursor, qs.len() as int),
        forall|i: int|
            0 <= i < qs.len() ==> found_empty(
                queue::ring_consumer(#[trigger] qs[i]),
                queue::ring_consumer(after[i]),
            ),
{
    let trail = choose|trail: Seq<Seq<RingRx>>| #[trigger]
        walked(trail, qs, cursor, None, after, next);
    let n = qs.len() as int;
    if n > 0 {
        law_mux_round_is_fair(cursor, n);
    }
    assert forall|i: int| 0 <= i < n implies found_empty(
        queue::ring_consumer(#[trigger] qs[i]),
        queue::ring_consumer(after[i]),
    ) by {
        assert(visited(cursor, n, i));
        let t = choose|t: int| 0 <= t < n && #[trigger] slot(cursor, t, n) == i;
        assert(visits(trail, cursor, t, None));
        lemma_walk(trail, qs, cursor, None, after, next, 0, t);
        lemma_walk(trail, qs, cursor, None, after, next, t + 1, n);
        let a = queue::ring_consumer(qs[i]);
        let c = queue::ring_consumer(trail[t][i]);
        let d = queue::ring_consumer(trail[t + 1][i]);
        let b = queue::ring_consumer(after[i]);
        assert(goes_on(queue::ring_consumer(trail[0][i]), c));
        assert(goes_on(d, queue::ring_consumer(trail[n][i])));
        let m = choose|m: int| #[trigger] c.polled_at(d, m, None);
        assert(c.line.obeys(m));
        let x = c.moments.len() as int;
        assert(d.moments[x] == m);
        assert(b.moments[x] == m);
        assert(b.moments.contains(m));
        assert forall|y: int| 0 <= y < a.moments.len() implies #[trigger] a.moments[y] < m by {
            assert(c.moments[y] == a.moments[y]);
        }
    }
}

/// The capacity of a shared handoff is the shared one, whatever the other is: it
/// takes the first offers, as many as that, and refuses every later one until an
/// order comes out, as long as its consumer is there.
pub proof fn law_shared_handoff_holds_the_shared_capacity(
    tech: Tech,
    shared_cap: usize,
    spsc_cap: usize,
    tx: Seq<Tx>,
    rx: Rx,
    i: int,
)
    requires
        tech is Crossbeam || tech is ArrayQ,
        wired(tech, shared_cap, spsc_cap, tx, rx),
        shared_cap > 0,
        0 <= i < rx.consumer().line.events.len(),
        rx.consumer().line.events[i] is Offer,
        !rx.consumer().line.closed(i),
        rx.consumer().line.undrained(-1, i),
    ensures
        rx.consumer().line.limit == Some(shared_cap as nat),
        rx.consumer().line.events[i]->taken <==> rx.consumer().line.offers(i) < shared_cap,
{
    line::law_queue_fills_up_to_its_capacity(rx.consumer().line, shared_cap as nat, i);
}

/// Handoffs that are built with the same shared capacity have the same capacity,
/// and with another one another.
pub proof fn law_shared_capacity_alone_counts(
    tech: Tech,
    a: usize,
    b: usize,
    c: usize,
    d: usize,
    tx: Seq<Tx>,
    rx: Rx,
    tx2: Seq<Tx>,
    rx2: Rx,
)
    requires
        tech is Crossbeam || tech is ArrayQ,
        wired(tech, a, c, tx, rx),
        wired(tech, b, d, tx2, rx2),
    ensures
        rx.consumer().line.limit == rx2.consumer().line.limit <==> a == b,
        rx.consumer().line.limit == Some(a as nat),
{
}

/// Each ring of a multiplexed handoff holds the capacity that is given for rings
/// with one producer, whatever the shared one is.
pub proof fn law_mux_rings_hold_their_capacity(
    shared_cap: usize,
    spsc_cap: usize,
    tx: Seq<Tx>,
    qs: Vec<RingRx>,
    k: int,
    i: int,
)
    requires
        wired(Tech::SpscMux, shared_cap, spsc_cap, tx, Rx::Mux { qs, cursor: 0 }),
        spsc_cap > 0,
        0 <= k < qs.len(),
        ({
            let line = queue::ring_consumer(qs[k]).line;
            &&& 0 <= i < line.events.len()
            &&& line.events[i] is Offer
            &&& !line.closed(i)
            &&& line.undrained(-1, i)
        }),
    ensures
        tx.len() == qs.len(),
        queue::ring_consumer(qs[k]).line.limit == Some(spsc_cap as nat),
        queue::ring_consumer(qs[k]).line.events[i]->taken <==> queue::ring_consumer(
            qs[k],
        ).line.offers(i) < spsc_cap,
        tx[k].producer().line == queue::ring_consumer(qs[k]).line,
{
    lemma_paired(tx, qs@, spsc_cap);
    assert(ring_pair(tx[k], qs@[k], spsc_cap));
    line::law_queue_fills_up_to_its_capacity(
        queue::ring_consumer(qs[k]).line,
        spsc_cap as nat,
        i,
    );
}

/// An unbounded handoff takes every order, as long as its consumer is there.
pub proof fn law_unbounded_handoff_takes_every_order(
    shared_cap: usize,
    spsc_cap: usize,
    tx: Seq<Tx>,
    rx: Rx,
    i: int,
)
    requires
        wired(Tech::StdMpsc, shared_cap, spsc_cap, tx, rx),
        0 <= i < rx.consumer().line.events.len(),
        rx.consumer().line.events[i] is Offer,
    ensures
        rx.consumer().line.events[i]->taken <==> !rx.consumer().line.closed(i),
{
    assert(rx.consumer().line.obeys(i));
}

/// The sides of a new handoff belong together: the handles are of the technique's
/// kind, each producer's queue is the one that the consumer polls, or one of those
/// that it polls in turn, and no handle was used.
pub proof fn law_handoff_is_wired(
    tech: Tech,
    shared_cap: usize,
    spsc_cap: usize,
    tx: Seq<Tx>,
    rx: Rx,
    i: int,
)
    requires
        wired(tech, shared_cap, spsc_cap, tx, rx),
        0 <= i < tx.len(),
    ensures
        tx[i].producer().moments == Seq::<int>::empty(),
        tx[i].producer().line.lawful(),
        tech is StdMpsc ==> rx is Std && tx[i] is Std,
        tech is Crossbeam ==> rx is Cb && tx[i] is Cb,
        tech is ArrayQ ==> rx is Aq && tx[i] is Aq,
        tech is SpscMux ==> rx is Mux && tx[i] is Aq,
        tech !is SpscMux ==> {
            &&& tx[i].producer().line == rx.consumer().line
            &&& tx[i].producer().number == i
            &&& rx.consumer().moments == Seq::<int>::empty()
        },
        rx matches Rx::Mux { qs, cursor } ==> {
            &&& qs.len() == tx.len()
            &&& cursor == 0
            &&& tx[i].producer().line == queue::ring_consumer(qs[i]).line
            &&& tx[i].producer().number == 0
            &&& tx[i].producer().copies == 0
            &&& queue::ring_consumer(qs[i]).moments == Seq::<int>::empty()
        },
{
    if let Rx::Mux { qs, cursor } = rx {
        lemma_paired(tx, qs@, spsc_cap);
        assert(ring_pair(tx[i], qs@[i], spsc_cap));
    }
}

/// A round starts with the queue that the cursor stands for and goes on to the next
/// one with each step, and from the last one to the first, as long as the cursor
/// does not wrap around.
pub proof fn law_turns_follow_each_other(cursor: usize, k: int, n: int)
    requires
        n > 0,
        0 <= k,
        cursor + k < usize::MAX,
    ensures
        slot(cursor, 0, n) == cursor as int % n,
        slot(cursor, k + 1, n) == (if slot(cursor, k, n) + 1 == n {
            0
        } else {
            slot(cursor, k, n) + 1
        }),
        advanced(cursor, k + 1) == cursor + k + 1,
{
    let w = usize::MAX + 1;
    lemma_advanced(cursor, k);
    vstd::arithmetic::div_mod::lemma_small_mod((cursor + k) as nat, w as nat);
    vstd::arithmetic::div_mod::lemma_small_mod((cursor + k + 1) as nat, w as nat);
    arith::lemma_next_remainder(cursor + k, n);
}

/// The techniques are compared under their own names.
pub proof fn law_techniques_go_by_their_names()
    ensures
        TECHS@[0].0@ == "std::sync::mpsc (unbounded)"@ && TECHS@[0].1 is StdMpsc,
        TECHS@[1].0@ == "crossbeam-channel (bounded)"@ && TECHS@[1].1 is Crossbeam,
        TECHS@[2].0@ == "crossbeam ArrayQueue (MPSC ring)"@ && TECHS@[2].1 is ArrayQ,
        TECHS@[3].0@ == "per-producer SPSC + mux"@ && TECHS@[3].1 is SpscMux,
{
}

} // verus!
