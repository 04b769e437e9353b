use dispatch_bench::clock::Clock;
use dispatch_bench::flush::{
    flush, flush_by_strategy, flush_by_venue, flush_to_first, settle_flush,
};
use dispatch_bench::handoff::{
    build, mux_step, mux_turn, rings, Rx, Tech, TECHS,
};
use dispatch_bench::order::Order;

fn order(strategy: usize, venue: usize) -> Order {
    Order::at(strategy, venue, 0)
}

#[test]
fn new_orders_carry_one_instant() {
    let clock = Clock::new();
    let o = Order::new(&clock, 3, 4);
    assert_eq!((o.strategy, o.venue), (3, 4));
    assert!(o.ts.iter().all(|t| *t == o.due));
    assert_eq!(Order::at(1, 2, 9).ts, [9; 8]);
}

#[test]
fn clock_runs_forward() {
    let clock = Clock::new();
    let a = clock.now();
    let mut b = clock.now();
    while b == a {
        b = clock.now();
    }
    assert!(b > a);
}

#[test]
fn every_technique_delivers_what_is_pushed() {
    let clock = Clock::new();
    for (_, tech) in TECHS {
        let (mut tx, mut rx) = build(tech, 3, 8, 8);
        assert_eq!(tx.len(), 3);
        assert!(rx.try_pop().is_none());
        for s in 0..3 {
            assert_eq!(tx[s].try_push(&clock, order(s, 10 + s), 0), Ok(()));
        }
        let mut got: Vec<(usize, usize)> = Vec::new();
        while let Some(o) = rx.try_pop() {
            got.push((o.strategy, o.venue));
        }
        assert_eq!(got, vec![(0, 10), (1, 11), (2, 12)]);
    }
}

#[test]
fn pushing_stamps_one_station() {
    let clock = Clock::new();
    while clock.now() == 0 {}
    for (_, tech) in TECHS {
        let (mut tx, mut rx) = build(tech, 1, 4, 4);
        tx[0].try_push(&clock, order(1, 2), 4).unwrap();
        let o = rx.try_pop().unwrap();
        assert!(o.ts[4] > 0);
        for i in [0, 1, 2, 3, 5, 6, 7] {
            assert_eq!(o.ts[i], 0);
        }
        assert_eq!((o.strategy, o.venue, o.due), (1, 2, 0));
    }
}

#[test]
fn full_queues_give_the_order_back() {
    let clock = Clock::new();
    for tech in [Tech::Crossbeam, Tech::ArrayQ, Tech::SpscMux] {
        let (mut tx, mut rx) = build(tech, 1, 2, 2);
        assert!(tx[0].try_push(&clock, order(0, 0), 0).is_ok());
        assert!(tx[0].try_push(&clock, order(0, 1), 0).is_ok());
        let back = tx[0].try_push(&clock, order(7, 2), 0).unwrap_err();
        assert_eq!((back.strategy, back.venue), (7, 2));
        assert_eq!(rx.try_pop().unwrap().venue, 0);
        assert!(tx[0].try_push(&clock, back, 0).is_ok());
        assert_eq!(rx.try_pop().unwrap().venue, 1);
        assert_eq!(rx.try_pop().unwrap().venue, 2);
        assert!(rx.try_pop().is_none());
    }
}

#[test]
fn zero_capacity_channel_takes_nothing() {
    let clock = Clock::new();
    let (mut tx, mut rx) = build(Tech::Crossbeam, 1, 0, 1);
    assert!(tx[0].try_push(&clock, order(0, 0), 0).is_err());
    assert!(rx.try_pop().is_none());
}

#[test]
fn unbounded_queue_never_gives_back() {
    let clock = Clock::new();
    let (mut tx, rx) = build(Tech::StdMpsc, 2, 1, 1);
    for i in 0..100 {
        assert!(tx[i % 2].try_push(&clock, order(0, i), 0).is_ok());
    }
    drop(rx);
    assert!(tx[0].try_push(&clock, order(0, 0), 0).is_ok());
}

#[test]
fn disconnected_channel_gives_back() {
    let clock = Clock::new();
    let (mut tx, rx) = build(Tech::Crossbeam, 1, 4, 4);
    drop(rx);
    assert_eq!(tx[0].try_push(&clock, order(5, 6), 0).unwrap_err().venue, 6);
}

#[test]
fn each_producer_of_a_mux_has_its_own_ring() {
    let clock = Clock::new();
    let (mut tx, mut rx) = build(Tech::SpscMux, 3, 1, 1);
    for s in 0..3 {
        assert!(tx[s].try_push(&clock, order(s, 0), 0).is_ok());
        assert!(tx[s].try_push(&clock, order(s, 1), 0).is_err());
    }
    assert_eq!(rx.try_pop().unwrap().strategy, 0);
    tx[0].try_push(&clock, order(0, 9), 0).unwrap();
    assert_eq!(rx.try_pop().unwrap().strategy, 1);
    assert_eq!(rx.try_pop().unwrap().strategy, 2);
    assert_eq!(rx.try_pop().unwrap().venue, 9);
}

#[test]
fn mux_goes_round_from_where_it_stopped() {
    let clock = Clock::new();
    let (mut tx, qs) = rings(3, 4);
    let mut rx = Rx::Mux { qs, cursor: usize::MAX };
    tx[0].try_push(&clock, order(0, 0), 0).unwrap();
    tx[1].try_push(&clock, order(1, 0), 0).unwrap();
    // usize::MAX is a multiple of three, so the round is 0, then 0 and 1 again.
    assert_eq!(rx.try_pop().unwrap().strategy, 0);
    assert_eq!(rx.try_pop().unwrap().strategy, 1);
    match rx {
        Rx::Mux { cursor, .. } => assert_eq!(cursor, 2),
        _ => unreachable!(),
    }
    let (_, mut none) = build(Tech::SpscMux, 0, 1, 0);
    assert!(none.try_pop().is_none());
}

#[test]
fn a_mux_round_visits_every_queue_once() {
    assert_eq!(mux_turn(7, 3), (1, 8));
    assert_eq!(mux_turn(usize::MAX, 4), (3, 0));
    for start in [0usize, 5, usize::MAX - 3, usize::MAX] {
        let mut cursor = start;
        let mut seen: Vec<usize> = Vec::new();
        for _ in 0..4 {
            let (i, next) = mux_turn(cursor, 4);
            seen.push(i);
            cursor = next;
        }
        seen.sort();
        assert_eq!(seen, vec![0, 1, 2, 3]);
    }
}

#[test]
fn flush_conserves_orders() {
    let clock = Clock::new();
    let (mut tx, mut rx) = build(Tech::Crossbeam, 1, 2, 2);
    let mut pending: Vec<Order> = (0..5).map(|s| order(s, 0)).collect();
    assert_eq!(flush_to_first(&mut pending, &clock, &mut tx, 0), 2);
    let mut all: Vec<usize> = pending.iter().map(|o| o.strategy).collect();
    while let Some(o) = rx.try_pop() {
        all.push(o.strategy);
    }
    assert_eq!(all, vec![2, 3, 4, 0, 1]);
}

#[test]
fn producers_share_the_queue() {
    let clock = Clock::new();
    for tech in [Tech::StdMpsc, Tech::Crossbeam, Tech::ArrayQ] {
        let (mut tx, mut rx) = build(tech, 3, 4, 4);
        for s in [2, 0, 1] {
            tx[s].try_push(&clock, order(s, 0), 0).unwrap();
        }
        for s in [2, 0, 1] {
            assert_eq!(rx.try_pop().unwrap().strategy, s);
        }
    }
    let (mut tx, _rx) = build(Tech::ArrayQ, 2, 1, 8);
    assert_eq!(tx[0].try_push(&clock, order(0, 0), 0), Ok(()));
    let o = tx[1].try_push(&clock, order(1, 5), 0).unwrap_err();
    assert_eq!((o.strategy, o.venue), (1, 5));
}

#[test]
fn handoffs_deliver_once_and_in_order() {
    let clock = Clock::new();
    for (_, tech) in TECHS {
        let (mut tx, mut rx) = build(tech, 2, 3, 3);
        let mut accepted: Vec<Vec<usize>> = vec![Vec::new(), Vec::new()];
        let mut got: Vec<Vec<usize>> = vec![Vec::new(), Vec::new()];
        for i in 0..40 {
            let p = (i / 3) % 2;
            if tx[p].try_push(&clock, order(p, i), 0).is_ok() {
                accepted[p].push(i);
            }
            if i % 2 == 0 {
                if let Some(o) = rx.try_pop() {
                    got[o.strategy].push(o.venue);
                }
            }
        }
        while let Some(o) = rx.try_pop() {
            got[o.strategy].push(o.venue);
        }
        assert_eq!(got, accepted);
    }
}

#[test]
fn queued_orders_outlive_their_producers() {
    let clock = Clock::new();
    for (_, tech) in TECHS {
        let (mut tx, mut rx) = build(tech, 1, 2, 2);
        tx[0].try_push(&clock, order(3, 0), 0).unwrap();
        drop(tx);
        assert_eq!(rx.try_pop().unwrap().strategy, 3);
        assert!(rx.try_pop().is_none());
    }
}

#[test]
fn mux_serves_each_queue_in_a_round() {
    let clock = Clock::new();
    let (mut tx, mut rx) = build(Tech::SpscMux, 2, 4, 4);
    tx[0].try_push(&clock, order(0, 10), 0).unwrap();
    tx[0].try_push(&clock, order(0, 11), 0).unwrap();
    tx[1].try_push(&clock, order(1, 12), 0).unwrap();
    for venue in [10, 12, 11] {
        assert_eq!(rx.try_pop().unwrap().venue, venue);
    }
    assert!(rx.try_pop().is_none());
}

#[test]
fn a_second_flush_sends_nothing() {
    let clock = Clock::new();
    let (mut tx, mut qs) = rings(2, 1);
    let mut pending = vec![order(0, 0), order(1, 0), order(2, 1), order(3, 1)];
    assert_eq!(flush_by_venue(&mut pending, &clock, &mut tx, 2), 2);
    assert_eq!(flush_by_venue(&mut pending, &clock, &mut tx, 2), 0);
    assert_eq!(pending.iter().map(|o| o.strategy).collect::<Vec<usize>>(), vec![1, 3]);
    let mut second = Rx::Aq(qs.pop().unwrap());
    let mut first = Rx::Aq(qs.pop().unwrap());
    assert_eq!(first.try_pop().unwrap().strategy, 0);
    assert_eq!(second.try_pop().unwrap().strategy, 2);
    assert!(first.try_pop().is_none() && second.try_pop().is_none());
}

#[test]
fn take_stamps_what_it_delivers() {
    let clock = Clock::new();
    while clock.now() == 0 {}
    let (mut tx, mut rx) = build(Tech::ArrayQ, 1, 4, 4);
    assert!(rx.take(&clock, 5).is_none());
    tx[0].try_push(&clock, order(0, 0), 4).unwrap();
    let o = rx.take(&clock, 5).unwrap();
    assert!(o.ts[5] >= o.ts[4]);
    assert!(o.ts[4] > 0);
    assert_eq!(o.ts[3], 0);
}

#[test]
fn flush_keeps_what_does_not_fit_in_order() {
    let clock = Clock::new();
    let (mut tx, qs) = rings(2, 1);
    let mut qs: Vec<Rx> = qs.into_iter().map(Rx::Aq).collect();
    let mut pending = vec![order(0, 0), order(1, 0), order(2, 1), order(3, 0), order(4, 1)];
    let sent = flush(&mut pending, |o: &Order| o.venue, &clock, &mut tx, 2);
    assert_eq!(sent, 2);
    assert_eq!(pending.iter().map(|o| o.strategy).collect::<Vec<usize>>(), vec![1, 3, 4]);
    assert_eq!(qs[0].try_pop().unwrap().strategy, 0);
    assert_eq!(qs[1].try_pop().unwrap().strategy, 2);
    let sent = flush(&mut pending, |o: &Order| o.venue, &clock, &mut tx, 2);
    assert_eq!(sent, 2);
    assert_eq!(pending.iter().map(|o| o.strategy).collect::<Vec<usize>>(), vec![3]);
    assert_eq!(qs[0].try_pop().unwrap().strategy, 1);
    assert_eq!(qs[1].try_pop().unwrap().strategy, 4);
}

#[test]
fn flush_of_nothing_sends_nothing() {
    let clock = Clock::new();
    let mut pending: Vec<Order> = Vec::new();
    assert_eq!(flush(&mut pending, |_: &Order| 0, &clock, &mut [], 0), 0);
    assert!(pending.is_empty());
}

#[test]
fn flush_routes() {
    let clock = Clock::new();
    let (mut tx, qs) = rings(3, 4);
    let mut qs: Vec<Rx> = qs.into_iter().map(Rx::Aq).collect();
    let mut pending = vec![order(1, 2), order(2, 1)];
    assert_eq!(flush_by_venue(&mut pending, &clock, &mut tx, 2), 2);
    assert_eq!(qs[2].try_pop().unwrap().strategy, 1);
    assert_eq!(qs[1].try_pop().unwrap().strategy, 2);
    let mut pending = vec![order(1, 2), order(2, 1)];
    assert_eq!(flush_by_strategy(&mut pending, &clock, &mut tx, 6), 2);
    assert_eq!(qs[1].try_pop().unwrap().venue, 2);
    assert_eq!(qs[2].try_pop().unwrap().venue, 1);
    let mut pending = vec![order(1, 2), order(2, 1)];
    assert_eq!(flush_to_first(&mut pending, &clock, &mut tx, 0), 2);
    assert_eq!(qs[0].try_pop().unwrap().strategy, 1);
    assert_eq!(qs[0].try_pop().unwrap().strategy, 2);
    assert!(qs[0].try_pop().is_none());
}

#[test]
fn techniques_have_names() {
    let names: Vec<&str> = TECHS.iter().map(|t| t.0).collect();
    assert_eq!(
        names,
        vec![
            "std::sync::mpsc (unbounded)",
            "crossbeam-channel (bounded)",
            "crossbeam ArrayQueue (MPSC ring)",
            "per-producer SPSC + mux",
        ]
    );
    assert_eq!(TECHS[3].1, Tech::SpscMux);
}

#[test]
fn push_at_sets_the_given_stamp() {
    for (_, tech) in TECHS {
        let (mut tx, mut rx) = build(tech, 1, 1, 1);
        assert_eq!(tx[0].push_at(Order::at(1, 2, 7), 3, 99), Ok(()));
        let o = rx.try_pop().unwrap();
        assert_eq!((o.strategy, o.venue, o.due), (1, 2, 7));
        assert_eq!(o.ts, [7, 7, 7, 99, 7, 7, 7, 7]);
    }
    for tech in [Tech::Crossbeam, Tech::ArrayQ, Tech::SpscMux] {
        let (mut tx, mut rx) = build(tech, 1, 1, 1);
        tx[0].push_at(Order::at(0, 0, 0), 0, 1).unwrap();
        let back = tx[0].push_at(Order::at(4, 5, 0), 0, 2).unwrap_err();
        assert_eq!((back.strategy, back.venue, back.ts[0]), (4, 5, 2));
        let back = tx[0].push_at(back, 0, 3).unwrap_err();
        assert_eq!(back.ts, [3, 0, 0, 0, 0, 0, 0, 0]);
        assert_eq!(rx.try_pop().unwrap().ts[0], 1);
        assert!(rx.try_pop().is_none());
    }
}

#[test]
fn a_mux_round_ends_with_the_order_found() {
    assert_eq!(mux_step(None, 4), None);
    assert_eq!(mux_step(Some(order(1, 2)), 4), Some((order(1, 2), 4)));
    let clock = Clock::new();
    let (mut tx, mut rx) = build(Tech::SpscMux, 3, 1, 2);
    tx[1].try_push(&clock, order(1, 0), 0).unwrap();
    tx[1].try_push(&clock, order(1, 1), 0).unwrap();
    tx[2].try_push(&clock, order(2, 0), 0).unwrap();
    let mut got: Vec<(usize, usize)> = Vec::new();
    while let Some(o) = rx.try_pop() {
        got.push((o.strategy, o.venue));
    }
    assert_eq!(got, vec![(1, 0), (2, 0), (1, 1)]);
}

#[test]
fn flush_settles_outcomes() {
    let mut kept: Vec<Order> = Vec::new();
    assert_eq!(settle_flush(&mut kept, 3, Ok(())), 4);
    assert!(kept.is_empty());
    assert_eq!(settle_flush(&mut kept, 3, Err(order(6, 0))), 3);
    assert_eq!(kept, vec![order(6, 0)]);
}

#[test]
fn kept_orders_carry_a_new_stamp() {
    let clock = Clock::new();
    while clock.now() == 0 {}
    let (mut tx, _rx) = build(Tech::ArrayQ, 1, 1, 1);
    let mut pending = vec![order(0, 0), order(1, 0)];
    assert_eq!(flush_to_first(&mut pending, &clock, &mut tx, 2), 1);
    let first = pending[0].ts[2];
    assert!(first > 0);
    while clock.now() == first {}
    assert_eq!(flush_to_first(&mut pending, &clock, &mut tx, 2), 0);
    assert!(pending[0].ts[2] > first);
    assert_eq!((pending[0].strategy, pending[0].ts[1]), (1, 0));
}

#[test]
fn queues_with_room_for_all_give_nothing_back() {
    let clock = Clock::new();
    for (_, tech) in TECHS {
        let (mut tx, _rx) = build(tech, 1, 9, 9);
        for i in 0..9 {
            assert!(tx[0].try_push(&clock, order(i, 0), 0).is_ok());
        }
    }
}
