//! When the node last told the network that it is there.
use std::time::Instant;
use vstd::prelude::*;

verus! {

/// A point in time, as the operating system measures it.
#[verifier::external_type_specification]
#[verifier::external_body]
pub struct ExInstant(Instant);

/// Reads the clock, by `Instant::now` of the standard library. Nothing is claimed of the point
/// in time that comes back.
#[verifier::external_body]
pub(crate) fn instant_now() -> (r: Instant) {
    Instant::now()
}

/// The nanoseconds since `at`, by `Instant::elapsed` of the standard library. Nothing is claimed
/// of them: they depend on when the clock is read.
#[verifier::external_body]
pub(crate) fn nanos_since(at: &Instant) -> (r: u128) {
    at.elapsed().as_nanos()
}

/// Basic connectivity stats.
#[derive(Debug)]
pub struct Stats {
    join_last_sent_at: Option<Instant>,
}

impl View for Stats {
    type V = Option<Instant>;

    /// When the last join message was sent, if one was.
    closed spec fn view(&self) -> Option<Instant> {
        self.join_last_sent_at
    }
}

impl Default for Stats {
    fn default() -> (r: Stats)
        ensures
            r@ == None::<Instant>,
    {
        Stats { join_last_sent_at: None }
    }
}

impl Stats {
    /// No join message was sent yet.
    pub fn new() -> (r: Stats)
        ensures
            r@ == None::<Instant>,
    {
        Default::default()
    }

    /// When the last join message was sent, if one was.
    pub fn join_last_sent_at(&self) -> (r: Option<Instant>)
        ensures
            r == self@,
    {
        self.join_last_sent_at
    }

    /// Notes that a join message was sent just now.
    pub fn mark_join_sent(&mut self)
        ensures
            final(self)@ is Some,
    {
        let now: Instant = instant_now();
        self.mark_join_sent_at(now);
    }

    /// Notes that a join message was sent at `at`.
    pub fn mark_join_sent_at(&mut self, at: Instant)
        ensures
            final(self)@ == Some(at),
    {
        self.join_last_sent_at = Some(at);
    }
}

} // verus!
