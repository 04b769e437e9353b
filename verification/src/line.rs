//! What the contracts of the library say of a queue.
//!
//! A queue is shared between threads, so what it holds is no function of a
//! handle to it. What does not change is the queue's whole life: all that ever
//! happens to it, one event after the other. What the queue holds at a moment
//! follows from the events before. Each use of a handle is one event, and a
//! handle knows which events were its own so far.

use crate::order::Order;
use vstd::prelude::*;

verus! {

/// What happens to a queue.
pub enum Event {
    /// A producer, known by its number, offers an order, which the queue takes or
    /// not.
    Offer { by: int, order: Order, taken: bool },
    /// A consumer polls the queue.
    Poll { got: Option<Order> },
    /// The last consumer goes away.
    Close,
}

/// The life of a queue.
pub struct Line {
    pub events: Seq<Event>,
    /// The capacity; none where the queue is unbounded.
    pub limit: Option<nat>,
}

impl Line {
    /// What the queue holds after the first `n` events, the oldest order first.
    pub open spec fn contents(self, n: int) -> Seq<Order>
        decreases n,
    {
        if n <= 0 {
            Seq::empty()
        } else {
            let held = self.contents(n - 1);
            match self.events[n - 1] {
                Event::Offer { by, order, taken } => if taken {
                    held.push(order)
                } else {
                    held
                },
                Event::Poll { got } => if got is Some {
                    held.drop_first()
                } else {
                    held
                },
                Event::Close => held,
            }
        }
    }

    /// The orders that the queue takes among the first `n` events.
    pub open spec fn accepted(self, n: int) -> Seq<Order>
        decreases n,
    {
        if n <= 0 {
            Seq::empty()
        } else {
            let rest = self.accepted(n - 1);
            match self.events[n - 1] {
                Event::Offer { by, order, taken } => if taken {
                    rest.push(order)
                } else {
                    rest
                },
                _ => rest,
            }
        }
    }

    /// The orders that come out of the queue among the first `n` events.
    pub open spec fn delivered(self, n: int) -> Seq<Order>
        decreases n,
    {
        if n <= 0 {
            Seq::empty()
        } else {
            let rest = self.delivered(n - 1);
            match self.events[n - 1] {
                Event::Poll { got: Some(o) } => rest.push(o),
                _ => rest,
            }
        }
    }

    /// How many of the first `n` events are offers.
    pub open spec fn offers(self, n: int) -> nat
        decreases n,
    {
        if n <= 0 {
            0
        } else {
            self.offers(n - 1) + (if self.events[n - 1] is Offer {
                1nat
            } else {
                0nat
            })
        }
    }

    /// The last consumer is gone after the first `n` events.
    pub open spec fn closed(self, n: int) -> bool {
        exists|j: int| 0 <= j < n && #[trigger] self.events[j] is Close
    }

    /// The queue takes an order that is offered after the first `n` events: a
    /// consumer is there, and there is room.
    pub open spec fn takes(self, n: int) -> bool {
        &&& !self.closed(n)
        &&& self.limit matches Some(c) ==> self.contents(n).len() < c
    }

    /// What a poll after the first `n` events gives: the oldest order, or nothing
    /// if the queue is empty.
    pub open spec fn front(self, n: int) -> Option<Order> {
        if self.contents(n).len() == 0 {
            None
        } else {
            Some(self.contents(n)[0])
        }
    }

    /// Event `i` is what a queue does then. One without any capacity can only
    /// take an order that a consumer is waiting for.
    pub open spec fn obeys(self, i: int) -> bool {
        match self.events[i] {
            Event::Offer { by, order, taken } => if self.limit == Some(0nat) {
                taken ==> !self.closed(i)
            } else {
                taken == self.takes(i)
            },
            Event::Poll { got } => got == self.front(i),
            Event::Close => true,
        }
    }

    /// The queue is first in, first out, and it refuses an order only if it is
    /// full or its last consumer is gone.
    pub open spec fn lawful(self) -> bool {
        forall|i: int| 0 <= i < self.events.len() ==> #[trigger] self.obeys(i)
    }

    /// A consumer is there all the time.
    pub open spec fn stays_open(self) -> bool {
        !self.closed(self.events.len() as int)
    }

    /// No order comes out between events `i` and `j`.
    pub open spec fn undrained(self, i: int, j: int) -> bool {
        forall|k: int|
            i < k < j ==> !((#[trigger] self.events[k]) matches Event::Poll { got: Some(o) })
    }
}

/// `i` is later than each of `moments`.
pub open spec fn later(moments: Seq<int>, i: int) -> bool {
    forall|j: int| 0 <= j < moments.len() ==> #[trigger] moments[j] < i
}

/// One after the other.
pub open spec fn ascending(moments: Seq<int>) -> bool {
    forall|i: int, j: int|
        0 <= i < j < moments.len() ==> #[trigger] moments[i] < #[trigger] moments[j]
}

/// What a producer's handle to a queue stands for.
pub struct Producer {
    /// The life of the queue.
    pub line: Line,
    /// Its number among the handles to the queue: the first handle has zero.
    pub number: int,
    /// How many handles were made from it so far.
    pub copies: int,
    /// Which events of the queue's life were its own offers so far.
    pub moments: Seq<int>,
}

impl Producer {
    /// Its moments are offers of its own, one after the other, and there is no
    /// other offer under its number before the last of them.
    pub open spec fn wf(self) -> bool {
        &&& ascending(self.moments)
        &&& forall|j: int|
            0 <= j < self.moments.len() ==> {
                &&& 0 <= #[trigger] self.moments[j] < self.line.events.len()
                &&& self.line.events[self.moments[j]] matches Event::Offer { by, order, taken }
                &&& by == self.number
            }
        &&& self.moments.len() > 0 ==> self.sole(self.moments.last())
    }

    /// Each offer under its number before event `i` was its own.
    pub open spec fn sole(self, i: int) -> bool {
        forall|k: int|
            0 <= k < i && ((#[trigger] self.line.events[k]) matches Event::Offer {
                by,
                order,
                taken,
            } && by == self.number) ==> self.moments.contains(k)
    }

    /// The first handle to a new queue.
    pub open spec fn first(line: Line) -> Producer {
        Producer { line, number: 0, copies: 0, moments: Seq::empty() }
    }

    /// This handle after another one was made from it.
    pub open spec fn copied(self) -> Producer {
        Producer { copies: self.copies + 1, ..self }
    }

    /// The handle that is made from this one next.
    pub open spec fn next_copy(self) -> Producer {
        Producer {
            line: self.line,
            number: self.copies + 1,
            copies: 0,
            moments: Seq::empty(),
        }
    }

    /// This handle after one more offer, which was event `i`.
    pub open spec fn offered_at(self, after: Producer, i: int, order: Order, taken: bool) -> bool {
        &&& self.line.lawful()
        &&& 0 <= i < self.line.events.len()
        &&& later(self.moments, i)
        &&& self.sole(i)
        &&& self.line.events[i] == Event::Offer { by: self.number, order, taken }
        &&& after == Producer { moments: self.moments.push(i), ..self }
    }

    /// This handle after one more offer, of `order`, which was taken or not.
    pub open spec fn offered(self, after: Producer, order: Order, taken: bool) -> bool {
        exists|i: int| #[trigger] self.offered_at(after, i, order, taken)
    }
}

/// What a consumer's handle to a queue stands for.
pub struct Consumer {
    /// The life of the queue.
    pub line: Line,
    /// Which events of the queue's life were its own polls so far.
    pub moments: Seq<int>,
}

impl Consumer {
    /// Its moments are polls, one after the other, and there is no other poll
    /// before the last of them.
    pub open spec fn wf(self) -> bool {
        &&& ascending(self.moments)
        &&& forall|j: int|
            0 <= j < self.moments.len() ==> {
                &&& 0 <= #[trigger] self.moments[j] < self.line.events.len()
                &&& self.line.events[self.moments[j]] is Poll
            }
        &&& self.moments.len() > 0 ==> self.sole(self.moments.last())
    }

    /// Each poll of the queue before event `i` was its own.
    pub open spec fn sole(self, i: int) -> bool {
        forall|k: int|
            0 <= k < i && #[trigger] self.line.events[k] is Poll ==> self.moments.contains(k)
    }

    /// The orders that it has taken so far.
    pub open spec fn takings(self) -> Seq<Order>
        decreases self.moments.len(),
    {
        if self.moments.len() == 0 {
            Seq::empty()
        } else {
            let rest = Consumer { moments: self.moments.drop_last(), ..self }.takings();
            match self.line.events[self.moments.last()] {
                Event::Poll { got: Some(o) } => rest.push(o),
                _ => rest,
            }
        }
    }

    /// The handle to a new queue.
    pub open spec fn first(line: Line) -> Consumer {
        Consumer { line, moments: Seq::empty() }
    }

    /// This handle after one more poll, which was event `i`.
    pub open spec fn polled_at(self, after: Consumer, i: int, got: Option<Order>) -> bool {
        &&& self.line.lawful()
        &&& 0 <= i < self.line.events.len()
        &&& later(self.moments, i)
        &&& self.sole(i)
        &&& self.line.events[i] == Event::Poll { got }
        &&& after == Consumer { moments: self.moments.push(i), ..self }
    }

    /// This handle after one more poll, which gave `got`.
    pub open spec fn polled(self, after: Consumer, got: Option<Order>) -> bool {
        exists|i: int| #[trigger] self.polled_at(after, i, got)
    }
}

// ---- laws -------------------------------------------------------------------

/// What is accepted comes out exactly once, in the order in which it went in, and
/// nothing else comes out: at any moment, the orders that came out, followed by
/// those that the queue holds, are the orders that it accepted.
pub proof fn law_in_is_out(line: Line, n: int)
    requires
        line.lawful(),
        0 <= n <= line.events.len(),
    ensures
        line.delivered(n) + line.contents(n) == line.accepted(n),
    decreases n,
{
    if n > 0 {
        law_in_is_out(line, n - 1);
        assert(line.obeys(n - 1));
        assert(line.delivered(n) + line.contents(n) =~= line.accepted(n));
    }
}

/// Each order that is accepted has a place of its own among those accepted, the
/// later event the later place; so orders of one producer keep their order.
pub proof fn law_accepted_orders_have_places(line: Line, i: int, j: int, n: int)
    requires
        0 <= i < j < n <= line.events.len(),
        line.events[i] matches Event::Offer { by, order, taken } && taken,
        line.events[j] matches Event::Offer { by, order, taken } && taken,
    ensures
        line.accepted(i).len() < line.accepted(j).len() < line.accepted(n).len(),
        line.accepted(n)[line.accepted(i).len() as int] == line.events[i]->order,
        line.accepted(n)[line.accepted(j).len() as int] == line.events[j]->order,
{
    lemma_accepted_grows(line, i + 1, j);
    lemma_accepted_grows(line, i + 1, n);
    lemma_accepted_grows(line, j + 1, n);
}

/// What is accepted early stays the beginning of what is accepted.
proof fn lemma_accepted_grows(line: Line, i: int, n: int)
    requires
        0 <= i <= n <= line.events.len(),
    ensures
        line.accepted(i).len() <= line.accepted(n).len(),
        forall|k: int|
            0 <= k < line.accepted(i).len() ==> #[trigger] line.accepted(n)[k] == line.accepted(
                i,
            )[k],
    decreases n,
{
    if i < n {
        lemma_accepted_grows(line, i, n - 1);
    }
}

/// A queue holds no more than its capacity.
pub proof fn law_capacity_is_kept(line: Line, c: nat, n: int)
    requires
        line.lawful(),
        line.limit == Some(c),
        c > 0,
        0 <= n <= line.events.len(),
    ensures
        line.contents(n).len() <= c,
    decreases n,
{
    if n > 0 {
        law_capacity_is_kept(line, c, n - 1);
        assert(line.obeys(n - 1));
    }
}

/// Neither a refused offer nor a poll that finds nothing changes what the queue
/// holds; an offer that is taken adds its order behind the others, and a poll that
/// finds one takes the oldest away.
pub proof fn law_events_change_one_order(line: Line, i: int)
    requires
        line.lawful(),
        0 <= i < line.events.len(),
    ensures
        line.contents(i + 1) == match line.events[i] {
            Event::Offer { by, order, taken: true } => line.contents(i).push(order),
            Event::Poll { got: Some(o) } => line.contents(i).drop_first(),
            _ => line.contents(i),
        },
        line.events[i] matches Event::Poll { got: Some(o) } ==> line.contents(i).len() > 0
            && line.contents(i)[0] == o,
{
    assert(line.obeys(i));
}

/// Where no order comes out, a queue holds no less later on.
proof fn lemma_undrained_grows(line: Line, i: int, j: int)
    requires
        0 <= i < j <= line.events.len(),
        line.undrained(i, j),
        !(line.events[i] matches Event::Poll { got: Some(o) }),
    ensures
        line.contents(i).len() <= line.contents(j).len(),
    decreases j,
{
    if i + 1 < j {
        assert(line.undrained(i, j - 1));
        lemma_undrained_grows(line, i, j - 1);
        assert(!(line.events[j - 1] matches Event::Poll { got: Some(o) }));
    }
}

/// A refusal lasts: until an order comes out, the queue refuses what is offered.
pub proof fn law_refusal_lasts(line: Line, i: int, j: int)
    requires
        line.lawful(),
        line.limit != Some(0nat),
        0 <= i < j < line.events.len(),
        line.events[i] matches Event::Offer { by, order, taken } && !taken,
        line.events[j] is Offer,
        line.undrained(i, j),
    ensures
        line.events[j] matches Event::Offer { by, order, taken } && !taken,
{
    assert(line.obeys(i));
    assert(line.obeys(j));
    lemma_undrained_grows(line, i, j);
    if line.closed(i) {
        let k = choose|k: int| 0 <= k < i && #[trigger] line.events[k] is Close;
        assert(line.events[k] is Close);
    }
}

/// A full queue stays full until an order comes out, and refuses what is offered.
pub proof fn law_full_queue_refuses_until_drained(line: Line, c: nat, i: int, j: int)
    requires
        line.lawful(),
        line.limit == Some(c),
        c > 0,
        0 <= i <= j < line.events.len(),
        line.contents(i).len() >= c,
        line.undrained(i - 1, j),
        line.events[j] is Offer,
    ensures
        line.events[j] matches Event::Offer { by, order, taken } && !taken,
{
    assert(line.obeys(j));
    if i < j {
        assert(!(line.events[i] matches Event::Poll { got: Some(o) }));
        assert(line.undrained(i, j));
        lemma_undrained_grows(line, i, j);
    }
}

/// There is no backpressure where there is room for all: a queue whose capacity
/// is at least the number of the offers in its life, or that has no bound, takes
/// every order, as long as a consumer is there.
pub proof fn law_room_for_all(line: Line, i: int)
    requires
        line.lawful(),
        line.stays_open(),
        line.limit matches Some(c) ==> line.offers(line.events.len() as int) <= c,
        0 <= i < line.events.len(),
        line.events[i] is Offer,
    ensures
        line.events[i] matches Event::Offer { by, order, taken } && taken,
{
    assert(line.obeys(i));
    lemma_contents_within_offers(line, i);
    lemma_offers_grow(line, i + 1, line.events.len() as int);
    if line.closed(i) {
        let k = choose|k: int| 0 <= k < i && #[trigger] line.events[k] is Close;
        assert(line.closed(line.events.len() as int));
    }
}

/// A queue holds no more orders than it was offered.
proof fn lemma_contents_within_offers(line: Line, n: int)
    requires
        line.lawful(),
        0 <= n <= line.events.len(),
    ensures
        line.contents(n).len() <= line.offers(n),
    decreases n,
{
    if n > 0 {
        lemma_contents_within_offers(line, n - 1);
        assert(line.obeys(n - 1));
    }
}

/// The number of offers grows.
proof fn lemma_offers_grow(line: Line, i: int, n: int)
    requires
        0 <= i <= n,
    ensures
        line.offers(i) <= line.offers(n),
    decreases n,
{
    if i < n {
        lemma_offers_grow(line, i, n - 1);
    }
}

/// A producer's orders come out in the order in which it offered them: of two of
/// its offers that were taken, the earlier one has the earlier place.
pub proof fn law_producer_order_is_kept(p: Producer, a: int, b: int, n: int)
    requires
        p.wf(),
        0 <= a < b < p.moments.len(),
        p.moments[b] < n <= p.line.events.len(),
        p.line.events[p.moments[a]] matches Event::Offer { by, order, taken } && taken,
        p.line.events[p.moments[b]] matches Event::Offer { by, order, taken } && taken,
    ensures
        p.line.accepted(p.moments[a]).len() < p.line.accepted(p.moments[b]).len(),
        p.line.accepted(n)[p.line.accepted(p.moments[a]).len() as int]
            == p.line.events[p.moments[a]]->order,
        p.line.accepted(n)[p.line.accepted(p.moments[b]).len() as int]
            == p.line.events[p.moments[b]]->order,
{
    law_accepted_orders_have_places(p.line, p.moments[a], p.moments[b], n);
}

/// No two producers of a queue share an offer: each accepted offer is the one
/// offer of one handle.
pub proof fn law_offers_are_not_shared(p: Producer, q: Producer, i: int)
    requires
        p.wf(),
        q.wf(),
        p.line == q.line,
        p.number != q.number,
        p.moments.contains(i),
    ensures
        !q.moments.contains(i),
{
    if q.moments.contains(i) {
        let a = choose|a: int| 0 <= a < p.moments.len() && p.moments[a] == i;
        let b = choose|b: int| 0 <= b < q.moments.len() && q.moments[b] == i;
        assert(p.line.events[p.moments[a]] == q.line.events[q.moments[b]]);
    }
}

/// A producer's handle keeps account of its offers from the first on, and an
/// offer adds exactly one.
pub proof fn law_offers_are_accounted_for(p: Producer, after: Producer, order: Order, taken: bool)
    requires
        p.wf(),
        p.offered(after, order, taken),
    ensures
        after.wf(),
        after.line == p.line,
        after.number == p.number,
        after.moments.drop_last() == p.moments,
        after.moments.len() == p.moments.len() + 1,
        p.line.events[after.moments.last()] == (Event::Offer { by: p.number, order, taken }),
        p.line.limit != Some(0nat) ==> taken == p.line.takes(after.moments.last()),
{
    let i = choose|i: int| #[trigger] p.offered_at(after, i, order, taken);
    assert(after.moments.drop_last() =~= p.moments);
    assert(p.line.obeys(i));
    assert forall|j: int| 0 <= j < after.moments.len() implies {
        &&& 0 <= #[trigger] after.moments[j] < after.line.events.len()
        &&& after.line.events[after.moments[j]] matches Event::Offer { by, order, taken }
        &&& by == after.number
    } by {
        if j < p.moments.len() {
            assert(after.moments[j] == p.moments[j]);
        }
    }
    assert forall|k: int|
        0 <= k < i && ((#[trigger] after.line.events[k]) matches Event::Offer { by, order, taken }
            && by == after.number) implies after.moments.contains(k) by {
        assert(p.moments.contains(k));
        let j = choose|j: int| 0 <= j < p.moments.len() && p.moments[j] == k;
        assert(after.moments[j] == k);
    }
}

/// A consumer's handle keeps account of its polls from the first on, and a poll
/// adds exactly one: it takes the oldest order away, or finds the queue empty.
pub proof fn law_polls_are_accounted_for(c: Consumer, after: Consumer, got: Option<Order>)
    requires
        c.wf(),
        c.polled(after, got),
    ensures
        after.wf(),
        after.line == c.line,
        after.moments.drop_last() == c.moments,
        after.moments.len() == c.moments.len() + 1,
        got == c.line.front(after.moments.last()),
        after.takings() == match got {
            Some(o) => c.takings().push(o),
            None => c.takings(),
        },
{
    let i = choose|i: int| #[trigger] c.polled_at(after, i, got);
    assert(after.moments.drop_last() =~= c.moments);
    assert(c.line.obeys(i));
    assert(Consumer { moments: after.moments.drop_last(), ..after } == c);
    assert forall|j: int| 0 <= j < after.moments.len() implies {
        &&& 0 <= #[trigger] after.moments[j] < after.line.events.len()
        &&& after.line.events[after.moments[j]] is Poll
    } by {
        if j < c.moments.len() {
            assert(after.moments[j] == c.moments[j]);
        }
    }
    assert forall|k: int| 0 <= k < i && #[trigger] after.line.events[k] is Poll implies
        after.moments.contains(k) by {
        assert(c.moments.contains(k));
        let j = choose|j: int| 0 <= j < c.moments.len() && c.moments[j] == k;
        assert(after.moments[j] == k);
    }
}

/// The orders that a consumer has taken are the first that the queue accepted, in
/// the order in which it accepted them, each once.
pub proof fn law_consumer_takes_the_first_of_the_line(c: Consumer)
    requires
        c.wf(),
        c.line.lawful(),
    ensures
        c.moments.len() > 0 ==> c.takings() == c.line.delivered(c.moments.last() + 1),
        c.takings().len() <= c.line.accepted(c.line.events.len() as int).len(),
        forall|k: int|
            0 <= k < c.takings().len() ==> #[trigger] c.takings()[k] == c.line.accepted(
                c.line.events.len() as int,
            )[k],
{
    if c.moments.len() > 0 {
        lemma_takings(c);
        let n = c.moments.last() + 1;
        let end = c.line.events.len() as int;
        law_in_is_out(c.line, n);
        lemma_accepted_grows(c.line, n, end);
        let d = c.line.delivered(n);
        assert forall|k: int| 0 <= k < d.len() implies #[trigger] d[k] == c.line.accepted(
            end,
        )[k] by {
            assert((d + c.line.contents(n))[k] == d[k]);
        }
    }
}

/// What a consumer has taken is what came out of the queue up to its last poll.
proof fn lemma_takings(c: Consumer)
    requires
        c.wf(),
        c.moments.len() > 0,
    ensures
        c.takings() == c.line.delivered(c.moments.last() + 1),
    decreases c.moments.len(),
{
    let m = c.moments.last();
    let b = Consumer { moments: c.moments.drop_last(), ..c };
    let from = if b.moments.len() == 0 {
        0
    } else {
        b.moments.last() + 1
    };
    assert forall|k: int| from <= k < m implies !(#[trigger] c.line.events[k] is Poll) by {
        if c.line.events[k] is Poll {
            let j = choose|j: int| 0 <= j < c.moments.len() && c.moments[j] == k;
            assert(j < b.moments.len());
            if j < b.moments.len() - 1 {
                assert(c.moments[j] < c.moments[b.moments.len() - 1]);
            }
        }
    }
    lemma_nothing_delivered(c.line, from, m);
    if b.moments.len() > 0 {
        assert(ascending(b.moments));
        assert forall|j: int| 0 <= j < b.moments.len() implies {
            &&& 0 <= #[trigger] b.moments[j] < b.line.events.len()
            &&& b.line.events[b.moments[j]] is Poll
        } by {
            assert(c.moments[j] == b.moments[j]);
        }
        assert forall|k: int|
            0 <= k < b.moments.last() && #[trigger] b.line.events[k] is Poll implies
            b.moments.contains(k) by {
            assert(c.moments[b.moments.len() - 1] < m);
            assert(c.moments.contains(k));
            let j = choose|j: int| 0 <= j < c.moments.len() && c.moments[j] == k;
            assert(b.moments[j] == k);
        }
        lemma_takings(b);
    } else {
        assert(b.takings() == Seq::<Order>::empty());
    }
    assert(c.line.events[c.moments[c.moments.len() - 1]] is Poll);
}

/// Without a poll nothing comes out.
proof fn lemma_nothing_delivered(line: Line, i: int, j: int)
    requires
        0 <= i <= j <= line.events.len(),
        forall|k: int| i <= k < j ==> !(#[trigger] line.events[k] is Poll),
    ensures
        line.delivered(j) == line.delivered(i),
    decreases j,
{
    if i < j {
        lemma_nothing_delivered(line, i, j - 1);
        assert(!(line.events[j - 1] is Poll));
    }
}

/// The place among the accepted orders of an order that event `m` accepts.
pub open spec fn place(line: Line, m: int) -> int {
    line.accepted(m).len() as int
}

/// The law of a handoff over one queue, with the producers `ps` and the consumer
/// `c`. What the consumer has taken are the first of the orders that the queue
/// accepts in its life, in their order. Each offer that was taken has a place of
/// its own among these, with the order that was offered, and the offers of one
/// producer have their places in the order in which it made them. So each
/// accepted order comes out at most once, in turn, and nothing else does.
pub proof fn law_handoff_delivers_once_and_in_order(ps: Seq<Producer>, c: Consumer)
    requires
        c.wf(),
        c.line.lawful(),
        forall|i: int| 0 <= i < ps.len() ==> (#[trigger] ps[i]).wf() && ps[i].line == c.line,
        forall|i: int, j: int|
            0 <= i < j < ps.len() ==> (#[trigger] ps[i]).number != (#[trigger] ps[j]).number,
    ensures
        ({
            let all = c.line.accepted(c.line.events.len() as int);
            &&& c.takings().len() <= all.len()
            &&& forall|k: int|
                0 <= k < c.takings().len() ==> #[trigger] c.takings()[k] == all[k]
            &&& forall|i: int, a: int|
                0 <= i < ps.len() && 0 <= a < ps[i].moments.len()
                    && c.line.events[#[trigger] ps[i].moments[a]]->taken ==> {
                    let m = ps[i].moments[a];
                    &&& 0 <= place(c.line, m) < all.len()
                    &&& all[place(c.line, m)] == c.line.events[m]->order
                }
            &&& forall|i: int, a: int, j: int, b: int|
                0 <= i < ps.len() && 0 <= a < ps[i].moments.len() && 0 <= j < ps.len() && 0 <= b
                    < ps[j].moments.len() && (i != j || a != b)
                    && c.line.events[#[trigger] ps[i].moments[a]]->taken
                    && c.line.events[#[trigger] ps[j].moments[b]]->taken ==> {
                    &&& place(c.line, ps[i].moments[a]) != place(c.line, ps[j].moments[b])
                    &&& i == j && a < b ==> place(c.line, ps[i].moments[a]) < place(
                        c.line,
                        ps[j].moments[b],
                    )
                }
        }),
{
    let line = c.line;
    let end = line.events.len() as int;
    let all = line.accepted(end);
    law_consumer_takes_the_first_of_the_line(c);
    assert forall|i: int, a: int|
        0 <= i < ps.len() && 0 <= a < ps[i].moments.len()
            && line.events[#[trigger] ps[i].moments[a]]->taken implies {
        let m = ps[i].moments[a];
        &&& 0 <= place(line, m) < all.len()
        &&& all[place(line, m)] == line.events[m]->order
    } by {
        let m = ps[i].moments[a];
        assert(ps[i].wf());
        lemma_accepted_grows(line, m + 1, end);
        assert(line.accepted(m + 1)[line.accepted(m).len() as int] == line.events[m]->order);
    }
    assert forall|i: int, a: int, j: int, b: int|
        0 <= i < ps.len() && 0 <= a < ps[i].moments.len() && 0 <= j < ps.len() && 0 <= b
            < ps[j].moments.len() && (i != j || a != b)
            && line.events[#[trigger] ps[i].moments[a]]->taken
            && line.events[#[trigger] ps[j].moments[b]]->taken implies {
        &&& place(line, ps[i].moments[a]) != place(line, ps[j].moments[b])
        &&& i == j && a < b ==> place(line, ps[i].moments[a]) < place(line, ps[j].moments[b])
    } by {
        let m = ps[i].moments[a];
        let n = ps[j].moments[b];
        assert(ps[i].wf() && ps[j].wf());
        if i != j {
            assert(ps[i].moments.contains(m) && ps[j].moments.contains(n));
            if i < j {
                assert(ps[i].number != ps[j].number);
            } else {
                assert(ps[j].number != ps[i].number);
            }
            law_offers_are_not_shared(ps[i], ps[j], m);
        }
        if m < n {
            law_accepted_orders_have_places(line, m, n, end);
        } else {
            law_accepted_orders_have_places(line, n, m, end);
        }
    }
}

/// What a queue holds that nothing was taken out of: as many orders as it was
/// offered, up to its capacity.
proof fn lemma_filling(line: Line, c: nat, n: int)
    requires
        line.lawful(),
        line.limit == Some(c),
        c > 0,
        0 <= n <= line.events.len(),
        !line.closed(n),
        line.undrained(-1, n),
    ensures
        line.contents(n).len() == (if line.offers(n) <= c {
            line.offers(n)
        } else {
            c
        }),
    decreases n,
{
    if n > 0 {
        assert(!line.closed(n - 1)) by {
            if line.closed(n - 1) {
                let k = choose|k: int| 0 <= k < n - 1 && #[trigger] line.events[k] is Close;
                assert(line.closed(n));
            }
        }
        assert(line.undrained(-1, n - 1));
        lemma_filling(line, c, n - 1);
        assert(line.obeys(n - 1));
        assert(!(line.events[n - 1] matches Event::Poll { got: Some(o) }));
    }
}

/// A queue that nothing was taken out of yet, and whose consumer is there, takes
/// the first offers, as many as its capacity, and refuses every later one.
pub proof fn law_queue_fills_up_to_its_capacity(line: Line, c: nat, i: int)
    requires
        line.lawful(),
        line.limit == Some(c),
        c > 0,
        0 <= i < line.events.len(),
        line.events[i] is Offer,
        !line.closed(i),
        line.undrained(-1, i),
    ensures
        line.events[i]->taken <==> line.offers(i) < c,
{
    lemma_filling(line, c, i);
    assert(line.obeys(i));
}

} // verus!
