//! Orders that were held back because their queue was full are offered again.

use crate::clock::Clock;
use crate::handoff::Tx;
use crate::line;
use crate::line::Event;
use crate::order::Order;
use vstd::prelude::*;

verus! {

/// The orders that were given back, in their order.
pub open spec fn given_back(outcomes: Seq<Result<(), Order>>) -> Seq<Order>
    decreases outcomes.len(),
{
    if outcomes.len() == 0 {
        Seq::empty()
    } else {
        let rest = given_back(outcomes.drop_last());
        match outcomes.last() {
            Ok(()) => rest,
            Err(x) => rest.push(x),
        }
    }
}

/// `o` was offered once to producer `k` of `a`, stamped at `idx` with a reading of
/// `clock`, and it came out as `outcome`; the producers are `b` then.
pub open spec fn handed(
    k: int,
    a: Seq<Tx>,
    b: Seq<Tx>,
    clock: Clock,
    o: Order,
    idx: int,
    outcome: Result<(), Order>,
) -> bool {
    &&& 0 <= k < a.len()
    &&& b == a.update(k, b[k])
    &&& a[k].answered(b[k], clock, o, idx, outcome)
}

/// `o` was offered once to the producer that `target` routes it to.
pub open spec fn met<F: Fn(&Order) -> usize>(
    target: F,
    a: Seq<Tx>,
    b: Seq<Tx>,
    clock: Clock,
    o: Order,
    idx: int,
    outcome: Result<(), Order>,
) -> bool {
    exists|k: usize| #[trigger]
        call_ensures(target, (&o,), k) && handed(k as int, a, b, clock, o, idx, outcome)
}

/// The producers were `a` first, then went through the states of `trail`, and are
/// `b` now.
pub open spec fn leads(trail: Seq<Seq<Tx>>, a: Seq<Tx>, b: Seq<Tx>) -> bool {
    &&& trail.len() > 0
    &&& trail[0] == a
    &&& trail.last() == b
}

/// The orders of `s` were offered one after the other, each once, to the
/// producers that `target` routes them to, stamped at `idx`, and they came out as
/// `outcomes`. Nothing else was offered: the producers went through the states of
/// `trail`.
pub open spec fn flushed<F: Fn(&Order) -> usize>(
    s: Seq<Order>,
    target: F,
    clock: Clock,
    trail: Seq<Seq<Tx>>,
    idx: int,
    outcomes: Seq<Result<(), Order>>,
) -> bool {
    &&& outcomes.len() == s.len()
    &&& trail.len() == s.len() + 1
    &&& forall|i: int|
        0 <= i < s.len() ==> met(
            target,
            trail[i],
            trail[i + 1],
            clock,
            #[trigger] s[i],
            idx,
            outcomes[i],
        )
}

/// Takes in how an order came out of its handoff: one that was taken counts as
/// sent, one that was given back is kept. Returns how many were sent.
pub fn settle_flush(kept: &mut Vec<Order>, sent: usize, outcome: Result<(), Order>) -> (r: usize)
    requires
        sent < usize::MAX,
    ensures
        match outcome {
            Ok(()) => r == sent + 1 && final(kept)@ == old(kept)@,
            Err(x) => r == sent && final(kept)@ == old(kept)@.push(x),
        },
{
    match outcome {
        Ok(()) => sent + 1,
        Err(x) => {
            kept.push(x);
            sent
        },
    }
}

/// Drains `pending` into per-target producers, keeping orders that did not fit,
/// in their order. Each order is tried once. Returns how many were sent.
pub fn flush<F: Fn(&Order) -> usize>(
    pending: &mut Vec<Order>,
    target: F,
    clock: &Clock,
    tx: &mut [Tx],
    idx: usize,
) -> (sent: usize)
    requires
        idx < 8,
        forall|i: int|
            0 <= i < old(pending).len() ==> call_requires(target, (&#[trigger] old(pending)[i],)),
        forall|i: int, k: usize|
            0 <= i < old(pending).len() && #[trigger] call_ensures(
                target,
                (&old(pending)[i],),
                k,
            ) ==> k < old(tx).len(),
    ensures
        sent + final(pending).len() == old(pending).len(),
        exists|trail: Seq<Seq<Tx>>, outcomes: Seq<Result<(), Order>>|
            {
                &&& #[trigger] flushed(old(pending)@, target, *clock, trail, idx as int, outcomes)
                &&& leads(trail, old(tx)@, final(tx)@)
                &&& final(pending)@ == given_back(outcomes)
            },
{
    let ghost mut trail: Seq<Seq<Tx>> = seq![tx@];
    let ghost mut outcomes: Seq<Result<(), Order>> = Seq::empty();
    if pending.is_empty() {
        assert(flushed(pending@, target, *clock, trail, idx as int, outcomes));
        return 0;
    }
    let ghost all = pending@;
    let mut drained: Vec<Order> = Vec::new();
    std::mem::swap(pending, &mut drained);
    assert(drained.len() == all.len());
    let mut sent: usize = 0;
    for o in it: drained
        invariant
            idx < 8,
            it.seq() == all,
            all.len() <= usize::MAX,
            forall|i: int| 0 <= i < all.len() ==> call_requires(target, (&#[trigger] all[i],)),
            tx.len() == old(tx).len(),
            forall|i: int, k: usize|
                0 <= i < all.len() && #[trigger] call_ensures(target, (&all[i],), k) ==> k
                    < tx.len(),
            sent + pending.len() == it.index(),
            outcomes.len() == it.index(),
            trail.len() == it.index() + 1,
            leads(trail, old(tx)@, tx@),
            forall|i: int|
                0 <= i < outcomes.len() ==> met(
                    target,
                    trail[i],
                    trail[i + 1],
                    *clock,
                    all[i],
                    idx as int,
                    #[trigger] outcomes[i],
                ),
            pending@ == given_back(outcomes),
    {
        let ghost j = it.index() as int;
        assert(o == all[j]);
        let k = target(&o);
        let outcome = tx[k].try_push(clock, o, idx);
        proof {
            let was = trail;
            let before = was[j];
            assert(tx@ =~= before.update(k as int, tx@[k as int]));
            assert(handed(k as int, before, tx@, *clock, all[j], idx as int, outcome));
            assert(outcomes.push(outcome).drop_last() == outcomes);
            trail = was.push(tx@);
            assert forall|i: int| 0 <= i < j implies met(
                target,
                trail[i],
                trail[i + 1],
                *clock,
                all[i],
                idx as int,
                #[trigger] outcomes.push(outcome)[i],
            ) by {
                assert(outcomes.push(outcome)[i] == outcomes[i]);
                assert(trail[i] == was[i] && trail[i + 1] == was[i + 1]);
            }
            assert(met(target, trail[j], trail[j + 1], *clock, all[j], idx as int, outcome));
            outcomes = outcomes.push(outcome);
        }
        sent = settle_flush(pending, sent, outcome);
    }
    assert(flushed(all, target, *clock, trail, idx as int, outcomes));
    sent
}

/// The orders of `s` were offered one after the other, each once, to the
/// producers that `route` gives, stamped at `idx`, and they came out as
/// `outcomes`. Nothing else was offered: the producers went through the states of
/// `trail`.
pub open spec fn routed(
    s: Seq<Order>,
    route: spec_fn(Order) -> int,
    clock: Clock,
    trail: Seq<Seq<Tx>>,
    idx: int,
    outcomes: Seq<Result<(), Order>>,
) -> bool {
    &&& outcomes.len() == s.len()
    &&& trail.len() == s.len() + 1
    &&& forall|i: int|
        0 <= i < s.len() ==> handed(
            route(#[trigger] s[i]),
            trail[i],
            trail[i + 1],
            clock,
            s[i],
            idx,
            outcomes[i],
        )
}

/// The way to the first producer.
pub open spec fn to_first() -> spec_fn(Order) -> int {
    |o: Order| 0
}

/// The way out: an order goes to its venue.
pub open spec fn by_venue() -> spec_fn(Order) -> int {
    |o: Order| o.venue as int
}

/// The way back: an order goes to its strategy.
pub open spec fn by_strategy() -> spec_fn(Order) -> int {
    |o: Order| o.strategy as int
}

/// The orders of `s` were offered as [`routed`] has it, and `kept` are those that
/// were given back; the producers were `a` and are `b` then.
pub open spec fn retried(
    s: Seq<Order>,
    route: spec_fn(Order) -> int,
    clock: Clock,
    a: Seq<Tx>,
    b: Seq<Tx>,
    idx: int,
    kept: Seq<Order>,
) -> bool {
    exists|trail: Seq<Seq<Tx>>, outcomes: Seq<Result<(), Order>>|
        {
            &&& #[trigger] routed(s, route, clock, trail, idx, outcomes)
            &&& leads(trail, a, b)
            &&& kept == given_back(outcomes)
        }
}

/// Where `target` computes what `route` gives, a flush follows `route`.
proof fn lemma_flush_follows<F: Fn(&Order) -> usize>(
    s: Seq<Order>,
    target: F,
    route: spec_fn(Order) -> int,
    clock: Clock,
    a: Seq<Tx>,
    b: Seq<Tx>,
    idx: int,
    kept: Seq<Order>,
)
    requires
        exists|trail: Seq<Seq<Tx>>, outcomes: Seq<Result<(), Order>>|
            {
                &&& #[trigger] flushed(s, target, clock, trail, idx, outcomes)
                &&& leads(trail, a, b)
                &&& kept == given_back(outcomes)
            },
        forall|o: Order, k: usize| #[trigger] call_ensures(target, (&o,), k) ==> k == route(o),
    ensures
        retried(s, route, clock, a, b, idx, kept),
{
    let (trail, outcomes) = choose|trail: Seq<Seq<Tx>>, outcomes: Seq<Result<(), Order>>|
        {
            &&& #[trigger] flushed(s, target, clock, trail, idx, outcomes)
            &&& leads(trail, a, b)
            &&& kept == given_back(outcomes)
        };
    assert forall|i: int| 0 <= i < s.len() implies handed(
        route(#[trigger] s[i]),
        trail[i],
        trail[i + 1],
        clock,
        s[i],
        idx,
        outcomes[i],
    ) by {
        assert(met(target, trail[i], trail[i + 1], clock, s[i], idx, outcomes[i]));
    }
    assert(routed(s, route, clock, trail, idx, outcomes));
}

/// Offers the orders of `pending` to the first producer, keeping those that did
/// not fit. Returns how many were sent.
pub fn flush_to_first(pending: &mut Vec<Order>, clock: &Clock, tx: &mut [Tx], idx: usize) -> (sent:
    usize)
    requires
        idx < 8,
        old(tx)@.len() > 0,
    ensures
        sent + final(pending).len() == old(pending).len(),
        retried(
            old(pending)@,
            to_first(),
            *clock,
            old(tx)@,
            final(tx)@,
            idx as int,
            final(pending)@,
        ),
{
    let target = |o: &Order| -> (k: usize)
        ensures
            k == 0,
        { 0 };
    let ghost (s, a) = (pending@, tx@);
    let sent = flush(pending, target, clock, tx, idx);
    proof {
        lemma_flush_follows(s, target, to_first(), *clock, a, tx@, idx as int, pending@);
    }
    sent
}

/// Offers the orders of `pending` each to the producer of its venue, keeping
/// those that did not fit. Returns how many were sent.
pub fn flush_by_venue(pending: &mut Vec<Order>, clock: &Clock, tx: &mut [Tx], idx: usize) -> (sent:
    usize)
    requires
        idx < 8,
        forall|i: int|
            0 <= i < old(pending).len() ==> (#[trigger] old(pending)[i]).venue < old(tx).len(),
    ensures
        sent + final(pending).len() == old(pending).len(),
        retried(
            old(pending)@,
            by_venue(),
            *clock,
            old(tx)@,
            final(tx)@,
            idx as int,
            final(pending)@,
        ),
{
    let target = |o: &Order| -> (k: usize)
        ensures
            k == o.venue,
        { o.venue };
    let ghost (s, a) = (pending@, tx@);
    let sent = flush(pending, target, clock, tx, idx);
    proof {
        lemma_flush_follows(s, target, by_venue(), *clock, a, tx@, idx as int, pending@);
    }
    sent
}

/// Offers the orders of `pending` each to the producer of its strategy, keeping
/// those that did not fit. Returns how many were sent.
pub fn flush_by_strategy(
    pending: &mut Vec<Order>,
    clock: &Clock,
    tx: &mut [Tx],
    idx: usize,
) -> (sent: usize)
    requires
        idx < 8,
        forall|i: int|
            0 <= i < old(pending).len() ==> (#[trigger] old(pending)[i]).strategy < old(tx).len(),
    ensures
        sent + final(pending).len() == old(pending).len(),
        retried(
            old(pending)@,
            by_strategy(),
            *clock,
            old(tx)@,
            final(tx)@,
            idx as int,
            final(pending)@,
        ),
{
    let target = |o: &Order| -> (k: usize)
        ensures
            k == o.strategy,
        { o.strategy };
    let ghost (s, a) = (pending@, tx@);
    let sent = flush(pending, target, clock, tx, idx);
    proof {
        lemma_flush_follows(s, target, by_strategy(), *clock, a, tx@, idx as int, pending@);
    }
    sent
}

/// `x` is an order of `s`, but for its stamp at `idx`.
pub open spec fn comes_from(s: Seq<Order>, x: Order, idx: int) -> bool {
    exists|i: int| 0 <= i < s.len() && (#[trigger] s[i]).restamped(x, idx)
}

/// What is kept of a retry are orders of before, but for the stamps at `idx`, and
/// there are as many producers as before.
pub proof fn lemma_retried(
    s: Seq<Order>,
    route: spec_fn(Order) -> int,
    clock: Clock,
    a: Seq<Tx>,
    b: Seq<Tx>,
    idx: int,
    kept: Seq<Order>,
)
    requires
        retried(s, route, clock, a, b, idx, kept),
    ensures
        a.len() == b.len(),
        forall|j: int| 0 <= j < kept.len() ==> comes_from(s, #[trigger] kept[j], idx),
{
    let (trail, outcomes) = choose|trail: Seq<Seq<Tx>>, outcomes: Seq<Result<(), Order>>|
        {
            &&& #[trigger] routed(s, route, clock, trail, idx, outcomes)
            &&& leads(trail, a, b)
            &&& kept == given_back(outcomes)
        };
    lemma_trail(s, route, clock, trail, idx, outcomes, 0, s.len() as int);
    assert forall|j: int| 0 <= j < kept.len() implies comes_from(s, #[trigger] kept[j], idx) by {
        lemma_given_back_members(outcomes, j);
        let i = choose|i: int|
            0 <= i < outcomes.len() && #[trigger] outcomes[i] == Err::<(), Order>(kept[j]);
        assert(handed(route(s[i]), trail[i], trail[i + 1], clock, s[i], idx, outcomes[i]));
        assert(s[i].restamped(kept[j], idx));
    }
}

/// Each order that was given back is the outcome of an offer.
pub proof fn lemma_given_back_members(outcomes: Seq<Result<(), Order>>, j: int)
    requires
        0 <= j < given_back(outcomes).len(),
    ensures
        exists|i: int|
            0 <= i < outcomes.len() && #[trigger] outcomes[i] == Err::<(), Order>(
                given_back(outcomes)[j],
            ),
    decreases outcomes.len(),
{
    let p = outcomes.drop_last();
    if j < given_back(p).len() {
        lemma_given_back_members(p, j);
        let i = choose|i: int|
            0 <= i < p.len() && #[trigger] p[i] == Err::<(), Order>(given_back(p)[j]);
        assert(outcomes[i] == p[i]);
    } else {
        assert(outcomes[outcomes.len() - 1] == outcomes.last());
    }
}

/// Along a trail the producers stay those of the same queues, and their moments
/// go on.
proof fn lemma_trail(
    s: Seq<Order>,
    route: spec_fn(Order) -> int,
    clock: Clock,
    trail: Seq<Seq<Tx>>,
    idx: int,
    outcomes: Seq<Result<(), Order>>,
    i: int,
    j: int,
)
    requires
        routed(s, route, clock, trail, idx, outcomes),
        0 <= i <= j <= s.len(),
    ensures
        trail[i].len() == trail[j].len(),
        forall|k: int|
            0 <= k < trail[i].len() ==> {
                let a = (#[trigger] trail[i][k]).producer();
                let b = trail[j][k].producer();
                &&& b.line == a.line
                &&& a.moments.len() > 0 ==> b.moments.len() > 0 && a.moments.last()
                    <= b.moments.last()
            },
    decreases j,
{
    if i < j {
        lemma_trail(s, route, clock, trail, idx, outcomes, i, j - 1);
        let r = route(s[j - 1]);
        assert(handed(r, trail[j - 1], trail[j], clock, s[j - 1], idx, outcomes[j - 1]));
        lemma_answered(trail[j - 1][r], trail[j][r], clock, s[j - 1], idx, outcomes[j - 1]);
        assert forall|k: int| 0 <= k < trail[i].len() implies {
            let a = (#[trigger] trail[i][k]).producer();
            let b = trail[j][k].producer();
            &&& b.line == a.line
            &&& a.moments.len() > 0 ==> b.moments.len() > 0 && a.moments.last()
                <= b.moments.last()
        } by {
            if k != r {
                assert(trail[j][k] == trail[j - 1][k]);
            }
        }
    }
}

/// An offer is the producer's last moment then.
proof fn lemma_answered(
    a: Tx,
    b: Tx,
    clock: Clock,
    o: Order,
    idx: int,
    outcome: Result<(), Order>,
)
    requires
        a.answered(b, clock, o, idx, outcome),
    ensures
        b.producer().line == a.producer().line,
        a.producer().line.lawful(),
        b.producer().moments.len() > 0,
        a.producer().moments.len() > 0 ==> a.producer().moments.last()
            < b.producer().moments.last(),
        ({
            let m = b.producer().moments.last();
            &&& 0 <= m < a.producer().line.events.len()
            &&& a.producer().line.events[m] matches Event::Offer { by, order, taken }
            &&& outcome is Err ==> !taken
            &&& outcome is Ok && a !is Std ==> taken
        }),
        a.like(b),
{
    let now = choose|now: u128|
        clock.reads(now) && #[trigger] a.answered_at(b, o, idx, now, outcome);
    let (s, taken) = choose|s: Order, taken: bool|
        {
            &&& o.stamped(s, idx, now)
            &&& a.like(b)
            &&& #[trigger] a.producer().offered(b.producer(), s, taken)
            &&& match outcome {
                Ok(()) => taken || a is Std,
                Err(x) => !taken && a !is Std && x == s,
            }
        };
    let m = choose|m: int| #[trigger] a.producer().offered_at(b.producer(), m, s, taken);
    assert(b.producer().moments.last() == m);
}

/// One more order is offered.
pub proof fn lemma_routed_push(
    s: Seq<Order>,
    route: spec_fn(Order) -> int,
    clock: Clock,
    trail: Seq<Seq<Tx>>,
    idx: int,
    outcomes: Seq<Result<(), Order>>,
    o: Order,
    b: Seq<Tx>,
    outcome: Result<(), Order>,
)
    requires
        routed(s, route, clock, trail, idx, outcomes),
        handed(route(o), trail.last(), b, clock, o, idx, outcome),
    ensures
        routed(s.push(o), route, clock, trail.push(b), idx, outcomes.push(outcome)),
        given_back(outcomes.push(outcome)) == match outcome {
            Ok(()) => given_back(outcomes),
            Err(x) => given_back(outcomes).push(x),
        },
{
    assert(outcomes.push(outcome).drop_last() =~= outcomes);
    let t = trail.push(b);
    assert forall|i: int| 0 <= i < s.push(o).len() implies handed(
        route(#[trigger] s.push(o)[i]),
        t[i],
        t[i + 1],
        clock,
        s.push(o)[i],
        idx,
        outcomes.push(outcome)[i],
    ) by {
        if i < s.len() {
            assert(s.push(o)[i] == s[i]);
            assert(t[i] == trail[i] && t[i + 1] == trail[i + 1]);
        } else {
            assert(t[i] == trail.last() && t[i + 1] == b);
        }
    }
}

// ---- laws -------------------------------------------------------------------

/// The orders of `s` that were given back, as they were before.
pub open spec fn left_over(s: Seq<Order>, outcomes: Seq<Result<(), Order>>) -> Seq<Order>
    decreases s.len(),
{
    if s.len() == 0 {
        Seq::empty()
    } else {
        let rest = left_over(s.drop_last(), outcomes.drop_last());
        if outcomes.last() is Ok {
            rest
        } else {
            rest.push(s.last())
        }
    }
}

/// The orders of `s` that were taken.
pub open spec fn gone(s: Seq<Order>, outcomes: Seq<Result<(), Order>>) -> Seq<Order>
    decreases s.len(),
{
    if s.len() == 0 {
        Seq::empty()
    } else {
        let rest = gone(s.drop_last(), outcomes.drop_last());
        if outcomes.last() is Ok {
            rest.push(s.last())
        } else {
            rest
        }
    }
}

/// A flush neither loses nor duplicates an order: what is left over and what is
/// taken make up what was pending, and what is kept is what is left over, one by
/// one, but for the stamps at `idx`.
pub proof fn law_flush_conserves(
    s: Seq<Order>,
    route: spec_fn(Order) -> int,
    clock: Clock,
    trail: Seq<Seq<Tx>>,
    idx: int,
    outcomes: Seq<Result<(), Order>>,
)
    requires
        routed(s, route, clock, trail, idx, outcomes),
    ensures
        left_over(s, outcomes).to_multiset().add(gone(s, outcomes).to_multiset())
            == s.to_multiset(),
        given_back(outcomes).len() == left_over(s, outcomes).len(),
        forall|j: int|
            0 <= j < given_back(outcomes).len() ==> (#[trigger] left_over(
                s,
                outcomes,
            )[j]).restamped(given_back(outcomes)[j], idx),
    decreases s.len(),
{
    broadcast use vstd::seq_lib::group_to_multiset_ensures;

    if s.len() > 0 {
        let p = s.drop_last();
        let q = outcomes.drop_last();
        let t = trail.drop_last();
        let o = s.last();
        assert forall|i: int| 0 <= i < p.len() implies handed(
            route(#[trigger] p[i]),
            t[i],
            t[i + 1],
            clock,
            p[i],
            idx,
            q[i],
        ) by {
            assert(p[i] == s[i]);
        }
        law_flush_conserves(p, route, clock, t, idx, q);
        let n = s.len() - 1;
        assert(handed(route(s[n]), trail[n], trail[n + 1], clock, s[n], idx, outcomes[n]));
        let a = left_over(p, q);
        let b = gone(p, q);
        assert(p.push(o) =~= s);
        assert(a.push(o).to_multiset() =~= a.to_multiset().insert(o));
        assert(b.push(o).to_multiset() =~= b.to_multiset().insert(o));
        assert(s.to_multiset() =~= p.to_multiset().insert(o));
        assert forall|j: int| 0 <= j < given_back(outcomes).len() implies (#[trigger] left_over(
            s,
            outcomes,
        )[j]).restamped(given_back(outcomes)[j], idx) by {
            if j < a.len() {
                assert(a[j].restamped(given_back(q)[j], idx));
            }
        }
    }
    assert(left_over(s, outcomes).to_multiset().add(gone(s, outcomes).to_multiset())
        =~= s.to_multiset());
}

/// The event of the queue's life that offer `i` of a flush was.
pub open spec fn moment(
    s: Seq<Order>,
    route: spec_fn(Order) -> int,
    trail: Seq<Seq<Tx>>,
    i: int,
) -> int {
    trail[i + 1][route(s[i])].producer().moments.last()
}

/// A second flush right after the first sends nothing and keeps every order:
/// `kept` is what the first one left. Between the refusal of an order and the next
/// offer to the same queue no order must have come out of that queue, and the queue
/// must have some capacity.
pub proof fn law_second_flush_sends_nothing(
    s: Seq<Order>,
    route: spec_fn(Order) -> int,
    clock: Clock,
    trail: Seq<Seq<Tx>>,
    idx: int,
    outcomes: Seq<Result<(), Order>>,
    kept: Seq<Order>,
    trail2: Seq<Seq<Tx>>,
    outcomes2: Seq<Result<(), Order>>,
)
    requires
        routed(s, route, clock, trail, idx, outcomes),
        kept == given_back(outcomes),
        routed(kept, route, clock, trail2, idx, outcomes2),
        trail2[0] == trail.last(),
        forall|a: Order, b: Order|
            a.strategy == b.strategy && a.venue == b.venue ==> #[trigger] route(a)
                == #[trigger] route(b),
        forall|k: int|
            0 <= k < trail[0].len() ==> (#[trigger] trail[0][k]).producer().line.limit != Some(
                0nat,
            ),
        forall|i: int, j: int|
            0 <= i < s.len() && 0 <= j < kept.len() && route(#[trigger] s[i]) == route(
                #[trigger] kept[j],
            ) && outcomes[i] is Err ==> trail[0][route(s[i])].producer().line.undrained(
                moment(s, route, trail, i),
                moment(kept, route, trail2, j),
            ),
    ensures
        forall|j: int| 0 <= j < kept.len() ==> #[trigger] outcomes2[j] is Err,
        given_back(outcomes2).len() == kept.len(),
{
    let n = s.len() as int;
    assert forall|j: int| 0 <= j < kept.len() implies #[trigger] outcomes2[j] is Err by {
        lemma_given_back_members(outcomes, j);
        let i = choose|i: int|
            0 <= i < outcomes.len() && #[trigger] outcomes[i] == Err::<(), Order>(kept[j]);
        let r = route(s[i]);
        assert(handed(r, trail[i], trail[i + 1], clock, s[i], idx, outcomes[i]));
        assert(s[i].restamped(kept[j], idx));
        assert(route(kept[j]) == r);
        assert(handed(r, trail2[j], trail2[j + 1], clock, kept[j], idx, outcomes2[j]));
        lemma_trail(s, route, clock, trail, idx, outcomes, 0, i);
        lemma_trail(s, route, clock, trail, idx, outcomes, i + 1, n);
        lemma_trail(kept, route, clock, trail2, idx, outcomes2, 0, j);
        assert(trail[0][r].producer().line == trail[i][r].producer().line);
        assert(trail[i + 1][r].producer().line == trail[n][r].producer().line);
        assert(trail2[0][r].producer().line == trail2[j][r].producer().line);
        lemma_answered(trail[i][r], trail[i + 1][r], clock, s[i], idx, outcomes[i]);
        lemma_answered(trail2[j][r], trail2[j + 1][r], clock, kept[j], idx, outcomes2[j]);
        line::law_refusal_lasts(
            trail[0][r].producer().line,
            moment(s, route, trail, i),
            moment(kept, route, trail2, j),
        );
        lemma_trail_like(s, route, clock, trail, idx, outcomes, i + 1, n, r);
        lemma_trail_like(kept, route, clock, trail2, idx, outcomes2, 0, j, r);
    }
    lemma_all_given_back(outcomes2);
}

/// Along a trail the producers keep their kind.
proof fn lemma_trail_like(
    s: Seq<Order>,
    route: spec_fn(Order) -> int,
    clock: Clock,
    trail: Seq<Seq<Tx>>,
    idx: int,
    outcomes: Seq<Result<(), Order>>,
    i: int,
    j: int,
    k: int,
)
    requires
        routed(s, route, clock, trail, idx, outcomes),
        0 <= i <= j <= s.len(),
        0 <= k < trail[i].len(),
    ensures
        trail[i][k].like(trail[j][k]),
    decreases j,
{
    if i < j {
        lemma_trail_like(s, route, clock, trail, idx, outcomes, i, j - 1, k);
        lemma_trail(s, route, clock, trail, idx, outcomes, i, j - 1);
        let r = route(s[j - 1]);
        assert(handed(r, trail[j - 1], trail[j], clock, s[j - 1], idx, outcomes[j - 1]));
        if k == r {
            lemma_answered(trail[j - 1][r], trail[j][r], clock, s[j - 1], idx, outcomes[j - 1]);
        } else {
            assert(trail[j][k] == trail[j - 1][k]);
        }
    }
}

/// Where every order was given back, there are as many.
proof fn lemma_all_given_back(outcomes: Seq<Result<(), Order>>)
    requires
        forall|j: int| 0 <= j < outcomes.len() ==> #[trigger] outcomes[j] is Err,
    ensures
        given_back(outcomes).len() == outcomes.len(),
    decreases outcomes.len(),
{
    if outcomes.len() > 0 {
        let p = outcomes.drop_last();
        assert forall|j: int| 0 <= j < p.len() implies #[trigger] p[j] is Err by {
            assert(p[j] == outcomes[j]);
        }
        lemma_all_given_back(p);
        assert(outcomes[outcomes.len() - 1] is Err);
    }
}

/// What was given back of some offers, and of some more, is one after the other; of
/// one offer it is the order that it gave back, if it did.
pub proof fn law_refusals_add_up(
    a: Seq<Result<(), Order>>,
    b: Seq<Result<(), Order>>,
    outcome: Result<(), Order>,
)
    ensures
        given_back(a + b) == given_back(a) + given_back(b),
        given_back(Seq::empty()) == Seq::<Order>::empty(),
        outcome is Ok ==> given_back(seq![outcome]) == Seq::<Order>::empty(),
        outcome matches Err(x) ==> given_back(seq![outcome]) == seq![x],
    decreases b.len(),
{
    reveal_with_fuel(given_back, 2);
    assert(seq![outcome].drop_last() =~= Seq::empty());
    if let Err(x) = outcome {
        assert(given_back(seq![outcome]) =~= seq![x]);
    }
    if b.len() == 0 {
        assert(a + b =~= a);
        assert(given_back(a) + given_back(b) =~= given_back(a));
    } else {
        law_refusals_add_up(a, b.drop_last(), outcome);
        assert((a + b).drop_last() =~= a + b.drop_last());
        assert(given_back(a + b) =~= given_back(a) + given_back(b));
    }
}

/// Each order that an offer gave back is among those given back.
pub proof fn law_refused_orders_are_given_back(outcomes: Seq<Result<(), Order>>, i: int)
    requires
        0 <= i < outcomes.len(),
        outcomes[i] is Err,
    ensures
        given_back(outcomes).contains(outcomes[i]->Err_0),
    decreases outcomes.len(),
{
    let p = outcomes.drop_last();
    let x = outcomes[i]->Err_0;
    if i < p.len() {
        law_refused_orders_are_given_back(p, i);
        assert(p[i] == outcomes[i]);
        let j = choose|j: int| 0 <= j < given_back(p).len() && given_back(p)[j] == x;
        assert(given_back(outcomes)[j] == x);
    } else {
        assert(given_back(outcomes)[given_back(outcomes).len() - 1] == x);
    }
}

/// On the way out each order goes to the producer of its venue and to no other.
pub proof fn law_orders_go_to_their_venues(
    s: Seq<Order>,
    clock: Clock,
    trail: Seq<Seq<Tx>>,
    idx: int,
    outcomes: Seq<Result<(), Order>>,
    i: int,
    k: int,
)
    requires
        routed(s, by_venue(), clock, trail, idx, outcomes),
        0 <= i < s.len(),
        0 <= k < trail[i].len(),
    ensures
        s[i].venue < trail[i].len(),
        k == s[i].venue ==> trail[i][k].answered(
            trail[i + 1][k],
            clock,
            s[i],
            idx,
            outcomes[i],
        ),
        k != s[i].venue ==> trail[i + 1][k] == trail[i][k],
{
    assert(handed(
        by_venue()(s[i]),
        trail[i],
        trail[i + 1],
        clock,
        s[i],
        idx,
        outcomes[i],
    ));
}

/// On the way back each order goes to the producer of its strategy and to no other.
pub proof fn law_orders_go_back_to_their_strategies(
    s: Seq<Order>,
    clock: Clock,
    trail: Seq<Seq<Tx>>,
    idx: int,
    outcomes: Seq<Result<(), Order>>,
    i: int,
    k: int,
)
    requires
        routed(s, by_strategy(), clock, trail, idx, outcomes),
        0 <= i < s.len(),
        0 <= k < trail[i].len(),
    ensures
        s[i].strategy < trail[i].len(),
        k == s[i].strategy ==> trail[i][k].answered(
            trail[i + 1][k],
            clock,
            s[i],
            idx,
            outcomes[i],
        ),
        k != s[i].strategy ==> trail[i + 1][k] == trail[i][k],
{
    assert(handed(
        by_strategy()(s[i]),
        trail[i],
        trail[i + 1],
        clock,
        s[i],
        idx,
        outcomes[i],
    ));
}

/// Where there is one way, every order goes to the first producer and to no other.
pub proof fn law_orders_go_the_one_way(
    s: Seq<Order>,
    clock: Clock,
    trail: Seq<Seq<Tx>>,
    idx: int,
    outcomes: Seq<Result<(), Order>>,
    i: int,
    k: int,
)
    requires
        routed(s, to_first(), clock, trail, idx, outcomes),
        0 <= i < s.len(),
        0 <= k < trail[i].len(),
    ensures
        k == 0 ==> trail[i][k].answered(trail[i + 1][k], clock, s[i], idx, outcomes[i]),
        k > 0 ==> trail[i + 1][k] == trail[i][k],
{
    assert(handed(
        to_first()(s[i]),
        trail[i],
        trail[i + 1],
        clock,
        s[i],
        idx,
        outcomes[i],
    ));
}

/// Each order is offered once: through each producer as many offers were made as
/// orders are routed to it, and there are as many producers as before.
pub proof fn law_each_order_is_offered_once(
    s: Seq<Order>,
    route: spec_fn(Order) -> int,
    clock: Clock,
    trail: Seq<Seq<Tx>>,
    idx: int,
    outcomes: Seq<Result<(), Order>>,
    n: int,
    k: int,
)
    requires
        routed(s, route, clock, trail, idx, outcomes),
        0 <= n <= s.len(),
        0 <= k < trail[0].len(),
    ensures
        outcomes.len() == s.len(),
        trail[n].len() == trail[0].len(),
        trail[n][k].producer().moments.len() == trail[0][k].producer().moments.len() + s.take(
            n,
        ).filter(|o: Order| route(o) == k).len(),
    decreases n,
{
    let f = |o: Order| route(o) == k;
    reveal_with_fuel(Seq::<_>::filter, 2);
    if n > 0 {
        law_each_order_is_offered_once(s, route, clock, trail, idx, outcomes, n - 1, k);
        let r = route(s[n - 1]);
        assert(handed(r, trail[n - 1], trail[n], clock, s[n - 1], idx, outcomes[n - 1]));
        assert(s.take(n).drop_last() =~= s.take(n - 1));
        assert(s.take(n).last() == s[n - 1]);
        if k == r {
            lemma_one_offer(trail[n - 1][r], trail[n][r], clock, s[n - 1], idx, outcomes[n - 1]);
        } else {
            assert(trail[n][k] == trail[n - 1][k]);
        }
    }
}

/// An answer is to one offer.
proof fn lemma_one_offer(
    a: Tx,
    b: Tx,
    clock: Clock,
    o: Order,
    idx: int,
    outcome: Result<(), Order>,
)
    requires
        a.answered(b, clock, o, idx, outcome),
    ensures
        b.producer().moments.len() == a.producer().moments.len() + 1,
{
    let now = choose|now: u128|
        clock.reads(now) && #[trigger] a.answered_at(b, o, idx, now, outcome);
    let (s, taken) = choose|s: Order, taken: bool|
        {
            &&& o.stamped(s, idx, now)
            &&& a.like(b)
            &&& #[trigger] a.producer().offered(b.producer(), s, taken)
            &&& match outcome {
                Ok(()) => taken || a is Std,
                Err(x) => !taken && a !is Std && x == s,
            }
        };
    let m = choose|m: int| #[trigger] a.producer().offered_at(b.producer(), m, s, taken);
}

/// A retry starts from the producers as they were and leaves them as they are then:
/// there are as many, and through each as many offers were made as orders are
/// routed to it. It keeps no more orders than there were.
pub proof fn law_a_retry_offers_each_order_once(
    s: Seq<Order>,
    route: spec_fn(Order) -> int,
    clock: Clock,
    a: Seq<Tx>,
    b: Seq<Tx>,
    idx: int,
    kept: Seq<Order>,
    k: int,
)
    requires
        retried(s, route, clock, a, b, idx, kept),
        0 <= k < a.len(),
    ensures
        b.len() == a.len(),
        b[k].producer().moments.len() == a[k].producer().moments.len() + s.filter(
            |o: Order| route(o) == k,
        ).len(),
        kept.len() <= s.len(),
{
    let (trail, outcomes) = choose|trail: Seq<Seq<Tx>>, outcomes: Seq<Result<(), Order>>|
        {
            &&& #[trigger] routed(s, route, clock, trail, idx, outcomes)
            &&& leads(trail, a, b)
            &&& kept == given_back(outcomes)
        };
    law_each_order_is_offered_once(s, route, clock, trail, idx, outcomes, s.len() as int, k);
    assert(s.take(s.len() as int) =~= s);
    lemma_given_back_len(outcomes);
}

/// No more orders are given back than were offered.
proof fn lemma_given_back_len(outcomes: Seq<Result<(), Order>>)
    ensures
        given_back(outcomes).len() <= outcomes.len(),
    decreases outcomes.len(),
{
    if outcomes.len() > 0 {
        lemma_given_back_len(outcomes.drop_last());
    }
}

} // verus!
