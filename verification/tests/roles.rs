use dispatch_bench::clock::Clock;
use dispatch_bench::config::Config;
use dispatch_bench::gateway::Gateway;
use dispatch_bench::handoff::{build, rings, Rx, Tech};
use dispatch_bench::heap::{ByDue, DueHeap};
use dispatch_bench::orchestrator::Orchestrator;
use dispatch_bench::order::Order;
use dispatch_bench::schedule::fire_times;
use dispatch_bench::strategy::{Fired, Strategy};
use std::cmp::Ordering;

fn due_at(id: usize, due: u128) -> Order {
    let mut o = Order::at(id, 0, 0);
    o.due = due;
    o
}

#[test]
fn earliest_due_compares_greatest() {
    let (a, b) = (ByDue(due_at(0, 1)), ByDue(due_at(1, 2)));
    assert_eq!(a.cmp(&b), Ordering::Greater);
    assert_eq!(b.cmp(&a), Ordering::Less);
    assert_eq!(a.cmp(&ByDue(due_at(9, 1))), Ordering::Equal);
    assert!(a == ByDue(due_at(9, 1)));
    assert!(a > b);
    assert_eq!(a.partial_cmp(&b), Some(Ordering::Greater));
}

#[test]
fn heap_gives_orders_in_due_order() {
    let mut h = DueHeap::new();
    assert!(h.is_empty() && h.peek().is_none() && h.pop().is_none());
    let dues = [50u128, 20, 80, 10, 20, 70, 30, 60, 40, 0, 90];
    for (i, d) in dues.iter().enumerate() {
        h.push(due_at(i, *d));
        assert_eq!(h.len(), i + 1);
    }
    assert_eq!(h.peek().unwrap().due, 0);
    let mut got: Vec<u128> = Vec::new();
    let mut ids: Vec<usize> = Vec::new();
    while let Some(o) = h.pop() {
        assert_eq!(dues[o.strategy], o.due);
        got.push(o.due);
        ids.push(o.strategy);
    }
    let mut want = dues.to_vec();
    want.sort();
    assert_eq!(got, want);
    ids.sort();
    assert_eq!(ids, (0..11).collect::<Vec<usize>>());
    assert!(h.is_empty());
}

fn small() -> Config {
    let mut c = Config::default();
    c.n = 2;
    c.m = 3;
    c
}

#[test]
fn gateway_draws_delays_and_completes_in_due_order() {
    let clock = Clock::new();
    let c = small();
    let mut g = Gateway::new(2, &c);
    assert_eq!((g.d_min, g.d_max), (5_000_000, 500_000_000));
    for s in 0..3 {
        g.receive(Order::at(s, 2, 7), 1_000);
    }
    assert_eq!(g.heap.peek().unwrap().due, 1_000 + 59_030_463);
    let (mut tx, mut rx) = build(Tech::ArrayQ, 1, 8, 8);
    assert_eq!(g.emit(1_000 + 59_030_462, &clock, &mut tx[0]), 0);
    assert!(rx.try_pop().is_none());
    assert_eq!(g.emit(1_000 + 155_760_187, &clock, &mut tx[0]), 0);
    let a = rx.try_pop().unwrap();
    assert_eq!((a.strategy, a.due, a.ts[3], a.ts[2]), (0, 59_031_463, 1_000, 7));
    let b = rx.try_pop().unwrap();
    assert_eq!((b.strategy, b.due), (1, 155_761_187));
    assert!(rx.try_pop().is_none());
    assert!(!g.may_stop(true));
    assert_eq!(g.emit(u128::MAX, &clock, &mut tx[0]), 0);
    assert_eq!(rx.try_pop().unwrap().due, 1_000 + 261_019_843);
    assert!(g.may_stop(true));
    assert!(!g.may_stop(false));
}

#[test]
fn gateway_with_fixed_delay() {
    let mut c = small();
    c.d_min = 9_000;
    c.d_max = 9_000;
    let mut g = Gateway::new(0, &c);
    let before = g.rng;
    g.receive(Order::at(0, 0, 0), 5);
    assert_eq!(g.heap.peek().unwrap().due, 9_005);
    assert_eq!(g.rng, before);
}

#[test]
fn gateway_holds_back_what_does_not_fit() {
    let clock = Clock::new();
    let c = small();
    let mut g = Gateway::new(0, &c);
    let (mut tx, mut rx) = build(Tech::ArrayQ, 1, 1, 1);
    let (mut inbox_tx, qs) = rings(1, 4);
    let mut inbox = Rx::Aq(qs.into_iter().next().unwrap());
    for s in 0..3 {
        inbox_tx[0].try_push(&clock, Order::at(s, 0, 0), 2).unwrap();
    }
    while g.accept(&clock, &mut inbox) {}
    assert_eq!(g.heap.len(), 3);
    assert_eq!(g.emit(u128::MAX, &clock, &mut tx[0]), 2);
    assert_eq!(g.pending.len(), 2);
    assert!(g.heap.is_empty());
    assert!(g.pending[0].due <= g.pending[1].due);
    assert!(!g.may_stop(true));
    assert_eq!(g.retry(&clock, &mut tx), 0);
    assert!(rx.try_pop().unwrap().due <= g.pending[0].due);
    assert_eq!(g.retry(&clock, &mut tx), 1);
    assert!(rx.try_pop().is_some());
    assert_eq!(g.retry(&clock, &mut tx), 1);
    assert!(g.may_stop(true));
}

#[test]
fn gateway_takes_what_is_due_first() {
    let mut c = small();
    c.d_min = 10;
    c.d_max = 10;
    let mut g = Gateway::new(1, &c);
    for (s, now) in [(0, 30), (1, 5), (2, 20)] {
        g.receive(Order::at(s, 1, 0), now);
    }
    assert!(g.take_due(14).is_none());
    let a = g.take_due(30).unwrap();
    assert_eq!((a.strategy, a.ts[3], a.due), (1, 5, 15));
    assert_eq!(g.take_due(30).unwrap().strategy, 2);
    assert!(g.take_due(30).is_none());
    assert_eq!(g.heap.len(), 1);
    assert!(!g.settle(Ok(())));
    assert!(g.pending.is_empty());
    assert!(g.settle(Err(a)));
    assert_eq!(g.pending[0].strategy, 1);
}

#[test]
fn orchestrator_routes_both_ways() {
    let clock = Clock::new();
    let (mut gtx, inboxes) = rings(3, 1);
    let (mut rtx, returns) = rings(2, 1);
    let mut inboxes: Vec<Rx> = inboxes.into_iter().map(Rx::Aq).collect();
    let mut returns: Vec<Rx> = returns.into_iter().map(Rx::Aq).collect();
    let mut o = Orchestrator::new(2, 3, 4, 10);
    assert!(!o.dispatch(&clock, Order::at(0, 1, 0), &mut gtx));
    assert_eq!(o.scratch[0..10], [1, 1, 3, 3, 5, 5, 7, 7, 9, 9]);
    assert_eq!(o.scratch[10], 0);
    assert!(o.dispatch(&clock, Order::at(1, 1, 0), &mut gtx));
    assert_eq!(o.scratch[9], 18);
    assert_eq!(o.pend_disp.len(), 1);
    assert_eq!(o.retry_dispatch(&clock, &mut gtx), 0);
    assert_eq!(inboxes[1].try_pop().unwrap().strategy, 0);
    assert_eq!(o.retry_dispatch(&clock, &mut gtx), 1);
    assert_eq!(inboxes[1].try_pop().unwrap().strategy, 1);
    assert!(o.pend_disp.is_empty());

    assert!(!o.give_back(&clock, Order::at(0, 0, 0), &mut rtx));
    assert!(o.give_back(&clock, Order::at(0, 1, 0), &mut rtx));
    assert!(!o.give_back(&clock, Order::at(1, 2, 0), &mut rtx));
    assert_eq!((o.produced, o.pend_ret.len()), (2, 1));
    assert_eq!(returns[0].try_pop().unwrap().venue, 0);
    assert_eq!(o.retry_return(&clock, &mut rtx), 1);
    assert_eq!((o.produced, o.pend_ret.len()), (3, 0));
    assert!(!o.finished());
    assert_eq!(returns[1].try_pop().unwrap().venue, 2);
    assert!(!o.settle_return(Ok(())));
    assert!(o.finished());
    assert!(o.settle_return(Err(Order::at(1, 0, 0))));
    assert_eq!((o.produced, o.pend_ret.len()), (4, 1));
    assert!(o.settle_dispatch(Err(Order::at(1, 2, 0))));
    assert!(!o.settle_dispatch(Ok(())));
    assert_eq!(o.pend_disp.len(), 1);
}

#[test]
fn orchestrator_stamps_receipts() {
    let clock = Clock::new();
    while clock.now() == 0 {}
    let orch = Orchestrator::new(1, 1, 1, 0);
    let (mut tx, mut rx) = build(Tech::ArrayQ, 1, 2, 2);
    assert!(orch.submitted(&clock, &mut rx).is_none());
    tx[0].push_at(Order::at(0, 0, 0), 0, 0).unwrap();
    tx[0].push_at(Order::at(0, 0, 0), 4, 0).unwrap();
    let o = orch.submitted(&clock, &mut rx).unwrap();
    assert!(o.ts[1] > 0);
    assert_eq!((o.ts[0], o.ts[5]), (0, 0));
    let o = orch.completed(&clock, &mut rx).unwrap();
    assert!(o.ts[5] > 0);
    assert_eq!((o.ts[1], o.ts[4]), (0, 0));
}

#[test]
fn strategy_fires_on_schedule() {
    let clock = Clock::new();
    let (mut tx, mut rx) = build(Tech::ArrayQ, 1, 2, 2);
    let mut s = Strategy::new(5, 3, fire_times(&[0, 10, 20, 30], 100));
    assert_eq!(s.schedule, vec![100, 110, 120, 130]);
    assert_eq!(s.fire(99, &clock, &mut tx[0]), Fired::Idle);
    assert_eq!(s.fire(115, &clock, &mut tx[0]), Fired::Sent);
    assert_eq!(s.fire(115, &clock, &mut tx[0]), Fired::Sent);
    assert_eq!(s.fire(115, &clock, &mut tx[0]), Fired::Idle);
    assert_eq!(s.fire(130, &clock, &mut tx[0]), Fired::Full);
    assert_eq!(s.fire(130, &clock, &mut tx[0]), Fired::Full);
    assert_eq!(s.fire(1000, &clock, &mut tx[0]), Fired::Idle);
    assert_eq!((s.next, s.pending.len()), (4, 2));
    let (a, b) = (rx.try_pop().unwrap(), rx.try_pop().unwrap());
    assert_eq!((a.strategy, a.venue, b.venue), (5, 0, 1));
    assert_eq!(s.retry(&clock, &mut tx), 2);
    let (c, d) = (rx.try_pop().unwrap(), rx.try_pop().unwrap());
    assert_eq!((c.venue, d.venue), (2, 0));
    assert!(!s.finished());
    for o in [a, b, c, d] {
        s.record(&o);
    }
    assert!(s.finished());
    assert_eq!(s.samples.len(), 4);
}

#[test]
fn stamps_accumulate_on_the_way() {
    let mut o = Order::at(2, 1, 0);
    for k in 0..8 {
        o.stamp(k, 100 + 10 * (k as u128));
    }
    assert_eq!(o.ts, [100, 110, 120, 130, 140, 150, 160, 170]);
    let mut s = Strategy::new(2, 3, vec![0]);
    s.record(&o);
    assert_eq!(s.samples[0].vals, [10, 10, 10, 10, 10, 10, 10, 70, 60]);
}

#[test]
fn strategy_settles_outcomes() {
    let mut s = Strategy::new(0, 1, vec![1, 2]);
    assert_eq!(s.settle(Ok(())), Fired::Sent);
    assert_eq!(s.settle(Err(Order::at(0, 0, 0))), Fired::Full);
    assert_eq!((s.next, s.pending.len()), (2, 1));
}

#[test]
fn strategy_collects_what_is_back() {
    let clock = Clock::new();
    let (mut tx, mut rx) = build(Tech::ArrayQ, 1, 2, 2);
    let mut s = Strategy::new(0, 1, vec![1]);
    assert!(!s.collect(&clock, &mut rx));
    tx[0].try_push(&clock, Order::at(0, 0, 0), 6).unwrap();
    assert!(s.collect(&clock, &mut rx));
    assert!(!s.collect(&clock, &mut rx));
    assert_eq!(s.done, 1);
    assert!(s.samples[0].vals[7] >= s.samples[0].vals[6]);
}

/// One thread plays all roles; every order makes the round trip.
#[test]
fn every_order_makes_the_round_trip() {
    for tech in [Tech::StdMpsc, Tech::Crossbeam, Tech::ArrayQ, Tech::SpscMux] {
        let clock = Clock::new();
        let (n, m, q) = (2usize, 3usize, 20usize);
        let mut c = small();
        c.d_min = 0;
        c.d_max = 50_000;
        let (mut stx, mut srx) = build(tech, n, 2, 2);
        let (mut ctx, mut crx) = build(tech, m, 2, 2);
        let (mut gtx, inboxes) = rings(m, 2);
        let (mut rtx, returns) = rings(n, 2);
        let mut inboxes: Vec<Rx> = inboxes.into_iter().map(Rx::Aq).collect();
        let mut returns: Vec<Rx> = returns.into_iter().map(Rx::Aq).collect();
        let mut orch = Orchestrator::new(n, m, n * q, 3);
        let mut gws: Vec<Gateway> = (0..m).map(|v| Gateway::new(v, &c)).collect();
        let mut sts: Vec<Strategy> = (0..n)
            .map(|s| Strategy::new(s, m, fire_times(&vec![0; q], clock.now())))
            .collect();
        while !(orch.finished() && sts.iter().all(|s| s.finished())) {
            for s in 0..n {
                while sts[s].collect(&clock, &mut returns[s]) {}
                let now = clock.now();
                while sts[s].fire(now, &clock, &mut stx[s]) != Fired::Idle {}
                sts[s].retry(&clock, &mut stx[s..]);
            }
            while let Some(o) = orch.submitted(&clock, &mut srx) {
                orch.dispatch(&clock, o, &mut gtx);
            }
            orch.retry_dispatch(&clock, &mut gtx);
            for v in 0..m {
                while gws[v].accept(&clock, &mut inboxes[v]) {}
                gws[v].emit(clock.now(), &clock, &mut ctx[v]);
                gws[v].retry(&clock, &mut ctx[v..]);
            }
            while let Some(o) = orch.completed(&clock, &mut crx) {
                orch.give_back(&clock, o, &mut rtx);
            }
            orch.retry_return(&clock, &mut rtx);
        }
        assert!(gws.iter().all(|g| g.may_stop(true)));
        for s in &sts {
            assert_eq!(s.samples.len(), q);
            assert!(s.pending.is_empty());
            for x in &s.samples {
                let sum: u64 = x.vals[0..7].iter().sum();
                assert_eq!(sum, x.vals[7]);
                assert_eq!(x.vals[8], x.vals[7] - x.vals[3]);
            }
        }
    }
}
