//! The queues that handoffs are made of, and what the library relies on of them:
//! how each use of a handle goes into the life of its queue, as [`Line`] has it.

use crate::line::{Consumer, Producer};
use crate::order::Order;
use crossbeam_queue::ArrayQueue;
use std::sync::mpsc;
use std::sync::Arc;
use vstd::prelude::*;

verus! {

/// A producer's handle to a `crossbeam_queue::ArrayQueue`. It cannot be polled.
#[verifier::external_body]
pub struct RingTx {
    q: Arc<ArrayQueue<Order>>,
}

/// The consumer's handle to a `crossbeam_queue::ArrayQueue`. There is one for each
/// ring, and nothing can be pushed through it.
#[verifier::external_body]
pub struct RingRx {
    q: Arc<ArrayQueue<Order>>,
}

#[verifier::external_type_specification]
#[verifier::external_body]
#[verifier::reject_recursive_types(T)]
pub struct ExMpscSender<T>(mpsc::Sender<T>);

#[verifier::external_type_specification]
#[verifier::external_body]
#[verifier::reject_recursive_types(T)]
pub struct ExMpscReceiver<T>(mpsc::Receiver<T>);

#[verifier::external_type_specification]
#[verifier::external_body]
#[verifier::reject_recursive_types(T)]
pub struct ExChannelSender<T>(crossbeam_channel::Sender<T>);

#[verifier::external_type_specification]
#[verifier::external_body]
#[verifier::reject_recursive_types(T)]
pub struct ExChannelReceiver<T>(crossbeam_channel::Receiver<T>);

/// The life of the ring behind this handle, and the handle's part in it so far.
pub uninterp spec fn ring_producer(p: RingTx) -> Producer;

/// The life of the ring behind this handle, and the handle's part in it so far.
pub uninterp spec fn ring_consumer(c: RingRx) -> Consumer;

/// The life of the channel behind this sender, and its part in it so far.
pub uninterp spec fn mpsc_producer(p: mpsc::Sender<Order>) -> Producer;

/// The life of the channel behind this receiver, and its part in it so far.
pub uninterp spec fn mpsc_consumer(c: mpsc::Receiver<Order>) -> Consumer;

/// The life of the channel behind this sender, and its part in it so far.
pub uninterp spec fn channel_producer(p: crossbeam_channel::Sender<Order>) -> Producer;

/// The life of the channel behind this receiver, and its part in it so far.
pub uninterp spec fn channel_consumer(c: crossbeam_channel::Receiver<Order>) -> Consumer;

/// The most bytes that a slot of a bounded queue takes.
pub const SLOT_BYTES: usize = 176;

/// The largest capacity that a bounded queue can have: no allocation exceeds
/// `isize::MAX` bytes.
pub open spec fn max_cap() -> int {
    isize::MAX as int / SLOT_BYTES as int
}

/// `ArrayQueue::new`: a new ring of the given capacity, and the two handles to it.
/// The ring is first in, first out, it refuses an order only when it is full, and
/// it is there as long as its handles. It panics on a capacity of zero and on one
/// whose buffer cannot be addressed.
#[verifier::external_body]
pub(crate) fn ring_new(cap: usize) -> (r: (RingTx, RingRx))
    requires
        0 < cap <= max_cap(),
    ensures
        ring_producer(r.0) == Producer::first(ring_consumer(r.1).line),
        ring_consumer(r.1) == Consumer::first(ring_consumer(r.1).line),
        ring_consumer(r.1).line.limit == Some(cap as nat),
        ring_consumer(r.1).line.lawful(),
        ring_consumer(r.1).line.stays_open(),
{
    let q = Arc::new(ArrayQueue::new(cap));
    (RingTx { q: q.clone() }, RingRx { q })
}

/// `ArrayQueue::push`: one offer of the order. The ring takes it or, when it is
/// full, gives it back. When that is rests on the other threads and is left unsaid.
#[verifier::external_body]
pub(crate) fn ring_push(p: &mut RingTx, o: Order) -> (r: Result<(), Order>)
    ensures
        ring_producer(*old(p)).offered(ring_producer(*final(p)), o, r is Ok),
        r matches Err(x) ==> x == o,
{
    p.q.push(o)
}

/// `ArrayQueue::pop`: one poll of the ring by its only consumer. When that is, and
/// so what the ring holds, rests on the other threads and is left unsaid.
#[verifier::external_body]
pub(crate) fn ring_pop(c: &mut RingRx) -> (r: Option<Order>)
    ensures
        ring_consumer(*old(c)).polled(ring_consumer(*final(c)), r),
{
    c.q.pop()
}

/// `Arc::clone`: one more producer's handle to the same ring. Handles are made
/// from the first one alone, so that each has a number of its own.
#[verifier::external_body]
pub(crate) fn ring_share(p: &mut RingTx) -> (r: RingTx)
    requires
        ring_producer(*old(p)).number == 0,
    ensures
        ring_producer(*final(p)) == ring_producer(*old(p)).copied(),
        ring_producer(r) == ring_producer(*old(p)).next_copy(),
{
    RingTx { q: p.q.clone() }
}

/// `std::sync::mpsc::channel`: the two ends of a new unbounded channel, which is
/// first in, first out, and refuses an order only when its receiver is gone.
#[verifier::external_body]
pub(crate) fn mpsc_new() -> (r: (mpsc::Sender<Order>, mpsc::Receiver<Order>))
    ensures
        mpsc_producer(r.0) == Producer::first(mpsc_consumer(r.1).line),
        mpsc_consumer(r.1) == Consumer::first(mpsc_consumer(r.1).line),
        mpsc_consumer(r.1).line.limit is None,
        mpsc_consumer(r.1).line.lawful(),
{
    mpsc::channel()
}

/// `std::sync::mpsc::Sender::send`: one offer of the order. The channel takes it
/// or, when the receiver is gone, gives it back.
#[verifier::external_body]
pub(crate) fn mpsc_send(p: &mut mpsc::Sender<Order>, o: Order) -> (r: Result<(), Order>)
    ensures
        mpsc_producer(*old(p)).offered(mpsc_producer(*final(p)), o, r is Ok),
        r matches Err(x) ==> x == o,
{
    p.send(o).map_err(|e| e.0)
}

/// `std::sync::mpsc::Receiver::try_recv`: one poll of the channel by its only
/// receiver. When that is, and so what the channel holds, rests on the other
/// threads and is left unsaid.
#[verifier::external_body]
pub(crate) fn mpsc_recv(c: &mut mpsc::Receiver<Order>) -> (r: Option<Order>)
    ensures
        mpsc_consumer(*old(c)).polled(mpsc_consumer(*final(c)), r),
{
    c.try_recv().ok()
}

/// `std::sync::mpsc::Sender::clone`: one more sender of the same channel. Senders
/// are made from the first one alone, so that each has a number of its own.
#[verifier::external_body]
pub(crate) fn mpsc_share(p: &mut mpsc::Sender<Order>) -> (r: mpsc::Sender<Order>)
    requires
        mpsc_producer(*old(p)).number == 0,
    ensures
        mpsc_producer(*final(p)) == mpsc_producer(*old(p)).copied(),
        mpsc_producer(r) == mpsc_producer(*old(p)).next_copy(),
{
    p.clone()
}

/// `crossbeam_channel::bounded`: the two ends of a new channel of the given
/// capacity, which is first in, first out, and refuses an order only when it is
/// full or its receiver is gone. It panics on a capacity whose buffer cannot be
/// addressed.
#[verifier::external_body]
pub(crate) fn channel_new(cap: usize) -> (r: (
    crossbeam_channel::Sender<Order>,
    crossbeam_channel::Receiver<Order>,
))
    requires
        cap <= max_cap(),
    ensures
        channel_producer(r.0) == Producer::first(channel_consumer(r.1).line),
        channel_consumer(r.1) == Consumer::first(channel_consumer(r.1).line),
        channel_consumer(r.1).line.limit == Some(cap as nat),
        channel_consumer(r.1).line.lawful(),
{
    crossbeam_channel::bounded(cap)
}

/// `crossbeam_channel::Sender::try_send`: one offer of the order. The channel
/// takes it or, when it is full or disconnected, gives it back. When that is rests
/// on the other threads and is left unsaid.
#[verifier::external_body]
pub(crate) fn channel_send(p: &mut crossbeam_channel::Sender<Order>, o: Order) -> (r: Result<
    (),
    Order,
>)
    ensures
        channel_producer(*old(p)).offered(channel_producer(*final(p)), o, r is Ok),
        r matches Err(x) ==> x == o,
{
    match p.try_send(o) {
        Ok(()) => Ok(()),
        Err(crossbeam_channel::TrySendError::Full(x)) => Err(x),
        Err(crossbeam_channel::TrySendError::Disconnected(x)) => Err(x),
    }
}

/// `crossbeam_channel::Receiver::try_recv`: one poll of the channel by its only
/// receiver. When that is, and so what the channel holds, rests on the other
/// threads and is left unsaid.
#[verifier::external_body]
pub(crate) fn channel_recv(c: &mut crossbeam_channel::Receiver<Order>) -> (r: Option<Order>)
    ensures
        channel_consumer(*old(c)).polled(channel_consumer(*final(c)), r),
{
    c.try_recv().ok()
}

/// `crossbeam_channel::Sender::clone`: one more sender of the same channel.
/// Senders are made from the first one alone, so that each has a number of its own.
#[verifier::external_body]
pub(crate) fn channel_share(p: &mut crossbeam_channel::Sender<Order>) -> (r:
    crossbeam_channel::Sender<Order>)
    requires
        channel_producer(*old(p)).number == 0,
    ensures
        channel_producer(*final(p)) == channel_producer(*old(p)).copied(),
        channel_producer(r) == channel_producer(*old(p)).next_copy(),
{
    p.clone()
}

} // verus!
