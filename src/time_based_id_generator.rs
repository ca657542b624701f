use vstd::prelude::*;

verus! {

/// Relies on `std::time::SystemTime::now` and `SystemTime::duration_since`:
/// the current wall-clock time in whole seconds since the epoch, or `None`
/// when the clock reads before the epoch. Nothing is promised of the value.
#[verifier::external_body]
pub(crate) fn wall_clock_seconds() -> (r: Option<u64>) {
    match std::time::SystemTime::now().duration_since(std::time::UNIX_EPOCH) {
        Ok(d) => Some(d.as_secs()),
        Err(_) => None,
    }
}

/// The wall clock.
pub struct SystemClock;

impl SystemClock {
    /// Seconds since the epoch, as the system clock reads now; `None` when
    /// it reads before the epoch.
    pub fn now(&self) -> (r: Option<u64>) {
        wall_clock_seconds()
    }
}

/// Hands out segment ids: the clock's seconds where they exceed every id
/// given so far and fit an `i64`, else the next integer, so ids strictly
/// increase even when several are asked for within one second or the clock
/// steps back.
pub struct TimeBasedIdGenerator {
    clock: SystemClock,
    last: u64,
}

impl TimeBasedIdGenerator {
    /// The largest id handed out so far (or the floor it started from).
    pub closed spec fn last_issued(&self) -> u64 {
        self.last
    }

    /// A generator that has handed out no id yet.
    pub fn new() -> (r: Self)
        ensures
            r.last_issued() == 0,
    {
        TimeBasedIdGenerator { clock: SystemClock, last: 0 }
    }

    /// A generator whose ids all exceed `floor`.
    pub fn starting_after(floor: u64) -> (r: Self)
        ensures
            r.last_issued() == floor,
    {
        TimeBasedIdGenerator { clock: SystemClock, last: floor }
    }

    /// The next id, larger than every id handed out before: a clock reading
    /// of at most `i64::MAX`, or else the last id plus 1. `None` once
    /// `u64::MAX` has been handed out.
    pub fn next(&mut self) -> (r: Option<u64>)
        ensures
            r is None <==> old(self).last_issued() == u64::MAX,
            r is None ==> *final(self) == *old(self),
            r is Some ==> r.unwrap() > old(self).last_issued() && final(self).last_issued()
                == r.unwrap(),
            r is Some ==> r.unwrap() <= i64::MAX || r.unwrap() == old(self).last_issued() + 1,
    {
        if self.last == u64::MAX {
            return None;
        }
        let id = match self.clock.now() {
            Some(now) if now > self.last && now <= i64::MAX as u64 => now,
            _ => self.last + 1,
        };
        self.last = id;
        Some(id)
    }
}

} // verus!
