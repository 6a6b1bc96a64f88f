use std::time::Instant;
use vstd::prelude::*;

verus! {

#[verifier::external_type_specification]
#[verifier::external_body]
pub struct ExInstant(Instant);

/// `std::time::Instant::now`: the current moment. Nothing is claimed of it.
#[verifier::external_body]
fn instant_now() -> Instant {
    Instant::now()
}

/// `Instant::elapsed` read with `Duration::as_nanos`: the nanoseconds from `origin` to now, 0
/// where `origin` lies ahead. It depends on the clock, so nothing is claimed of it.
#[verifier::external_body]
fn nanos_since(origin: &Instant) -> u128 {
    origin.elapsed().as_nanos()
}

/// The nanoseconds that have passed since the mark, `now` being nanoseconds since the origin.
pub open spec fn passed(now: u128, mark: u128) -> u128 {
    if now >= mark {
        (now - mark) as u128
    } else {
        0
    }
}

/// A cooldown: it is ready once `delay` nanoseconds have passed since its mark.
///
/// Times are held as nanoseconds since the moment the cooldown was made.
pub struct Cooldown {
    origin: Instant,
    mark: u128,
    pub delay: u128,
}

impl Cooldown {
    /// The mark, in nanoseconds since the cooldown was made.
    pub closed spec fn mark(&self) -> u128 {
        self.mark
    }

    /// The delay, in nanoseconds.
    pub closed spec fn delay_ns(&self) -> u128 {
        self.delay
    }

    /// A cooldown of `delay` nanoseconds, marked now.
    pub fn new(delay: u128) -> (r: Self)
        ensures
            r.delay_ns() == delay,
            r.mark() == 0,
    {
        Self { origin: instant_now(), mark: 0, delay }
    }

    /// A cooldown of `ms` milliseconds.
    pub fn ms(ms: u32) -> (r: Self)
        ensures
            r.delay_ns() == ms * 1_000_000,
            r.mark() == 0,
    {
        Self::new(ms as u128 * 1_000_000)
    }

    /// A cooldown of `us` microseconds.
    pub fn us(us: u32) -> (r: Self)
        ensures
            r.delay_ns() == us * 1_000,
            r.mark() == 0,
    {
        Self::new(us as u128 * 1_000)
    }

    /// A cooldown of `ns` nanoseconds.
    pub fn ns(ns: u32) -> (r: Self)
        ensures
            r.delay_ns() == ns,
            r.mark() == 0,
    {
        Self::new(ns as u128)
    }

    /// The nanoseconds passed since the mark when the clock reads `now` nanoseconds since the
    /// origin.
    pub fn dt_at(&self, now: u128) -> (r: u128)
        ensures
            r == passed(now, self.mark()),
    {
        if now >= self.mark {
            now - self.mark
        } else {
            0
        }
    }

    /// Whether the delay has passed since the mark when the clock reads `now`.
    pub fn ready_at(&self, now: u128) -> (r: bool)
        ensures
            r == (passed(now, self.mark()) >= self.delay_ns()),
    {
        self.dt_at(now) >= self.delay
    }

    /// The nanoseconds passed since the mark.
    pub fn dt(&self) -> (r: u128)
        ensures
            exists|now: u128| r == passed(now, self.mark()),
    {
        let now = nanos_since(&self.origin);
        self.dt_at(now)
    }

    /// Whether the delay has passed since the mark.
    pub fn ready(&self) -> (r: bool)
        ensures
            exists|now: u128| r == (passed(now, self.mark()) >= self.delay_ns()),
    {
        let now = nanos_since(&self.origin);
        self.ready_at(now)
    }

    /// The moment the cooldown was made, which all its times count from.
    pub closed spec fn origin(&self) -> Instant {
        self.origin
    }

    /// Moves the mark to `now`, nanoseconds since the origin.
    pub fn reset_at(&mut self, now: u128)
        ensures
            final(self).mark() == now,
            final(self).delay_ns() == old(self).delay_ns(),
            final(self).origin() == old(self).origin(),
    {
        self.mark = now;
    }

    /// Moves the mark to now: to the clock's reading, in nanoseconds since the origin.
    pub fn reset(&mut self)
        ensures
            final(self).delay_ns() == old(self).delay_ns(),
            final(self).origin() == old(self).origin(),
    {
        let now = nanos_since(&self.origin);
        self.reset_at(now);
    }

    /// Moves the mark on by one delay, so that a late tick does not push the next one back.
    pub fn next(&mut self)
        requires
            old(self).mark() + old(self).delay_ns() <= u128::MAX,
        ensures
            final(self).mark() == old(self).mark() + old(self).delay_ns(),
            final(self).delay_ns() == old(self).delay_ns(),
    {
        self.mark = self.mark + self.delay;
    }
}

} // verus!
