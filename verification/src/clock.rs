//! The clock that stamps orders: nanoseconds since the clock was made.

use std::time::Instant;
use vstd::prelude::*;

verus! {

#[verifier::external_type_specification]
#[verifier::external_body]
pub struct ExInstant(Instant);

/// `std::time::Instant::now`: the current instant. Nothing is claimed of it.
#[verifier::external_body]
fn instant_now() -> Instant {
    Instant::now()
}

/// The longest duration, in nanoseconds: a duration has a machine word of whole
/// seconds and less than a second besides.
pub open spec fn longest() -> int {
    u64::MAX * 1_000_000_000 + 999_999_999
}

/// `std::time::Instant::elapsed`, in whole nanoseconds: the time that has
/// passed since `start`. Nothing is claimed of it but that it is a duration: how
/// much time has passed rests on when the call is made, and is left unsaid.
#[verifier::external_body]
fn elapsed_nanos(start: &Instant) -> (t: u128)
    ensures
        t <= longest(),
{
    start.elapsed().as_nanos()
}

/// What `f` returns of `start`.
fn outcome<F: Fn(&Instant) -> u128>(f: F, start: &Instant) -> (t: u128)
    requires
        call_requires(f, (start,)),
    ensures
        call_ensures(f, (start,), t),
{
    f(start)
}

/// A monotonic clock. Its readings are nanoseconds since it was made, so all
/// threads that share one clock stamp on one time line.
#[derive(Clone, Copy, Debug)]
pub struct Clock {
    start: Instant,
}

impl Clock {
    /// `t` is an outcome of asking how much time has passed since this clock was
    /// made.
    pub closed spec fn gives(self, t: u128) -> bool {
        call_ensures(elapsed_nanos, (&self.start,), t)
    }

    /// `t` is a reading of this clock.
    pub open spec fn reads(self, t: u128) -> bool {
        &&& self.gives(t)
        &&& t <= longest()
    }

    /// A clock that reads zero now. Which instant that is rests on when the call
    /// is made, so nothing is promised of it.
    pub fn new() -> Clock {
        Clock { start: instant_now() }
    }

    /// The current reading. Which one it is rests on when the call is made.
    pub fn now(&self) -> (t: u128)
        ensures
            self.reads(t),
    {
        outcome(elapsed_nanos, &self.start)
    }
}

} // verus!
