//! Clocks: the machine's own, and one that shows what it is told to.

use vstd::prelude::*;
use crate::domain::time::{Duration, Timestamp};
use crate::ports::Clock;

verus! {

/// `std::time::SystemTime`: an instant of the machine's clock. Nothing is
/// seen of what it holds.
#[verifier::external_type_specification]
#[verifier::external_body]
pub struct ExSystemTime(std::time::SystemTime);

/// `std::time::SystemTime::now`: the instant that the machine's clock shows.
/// Nothing is claimed of it.
#[verifier::external_body]
fn machine_time() -> std::time::SystemTime {
    std::time::SystemTime::now()
}

/// `std::time::SystemTime::duration_since`, taken from the Unix epoch: the
/// time from the epoch to `instant`, or `None` where `instant` lies before the
/// epoch. Nothing is claimed of the time.
#[verifier::external_body]
fn time_since_epoch(instant: &std::time::SystemTime) -> Option<core::time::Duration> {
    match instant.duration_since(std::time::UNIX_EPOCH) {
        Ok(elapsed) => Some(elapsed),
        Err(_) => None,
    }
}

/// `core::time::Duration::as_nanos`: the whole nanoseconds of `elapsed`.
/// Nothing is claimed of the number.
#[verifier::external_body]
fn whole_nanos(elapsed: &core::time::Duration) -> u128 {
    elapsed.as_nanos()
}

/// The instant that lies `elapsed` nanoseconds after the Unix epoch, and the
/// epoch itself where nothing has elapsed since because the clock is set
/// before it.
pub fn instant_since_epoch(elapsed: Option<u128>) -> (instant: Timestamp)
    ensures
        instant@ == match elapsed {
            Some(nanos) => nanos as nat,
            None => 0nat,
        },
{
    match elapsed {
        Some(nanos) => Timestamp::from_nanos(nanos),
        None => Timestamp::epoch(),
    }
}

/// The clock of the machine.
#[derive(Debug)]
pub struct SystemClock {}

impl SystemClock {
    /// The clock of this machine.
    pub fn new() -> Self {
        Self {  }
    }
}

impl Clock for SystemClock {
    /// The machine's clock shows what it shows: nothing is known before.
    open spec fn reading(&self) -> Option<Timestamp> {
        None
    }

    /// The instant that the machine's clock shows, as `instant_since_epoch`
    /// gives it. Nothing is known of what the clock shows.
    fn now(&self) -> (instant: Timestamp) {
        let shown = machine_time();
        let elapsed = match time_since_epoch(&shown) {
            Some(elapsed) => Some(whole_nanos(&elapsed)),
            None => None,
        };
        instant_since_epoch(elapsed)
    }
}

/// A clock that stands still until it is advanced.
#[derive(Debug)]
pub struct FakeClock {
    pub clock: Timestamp,
}

impl FakeClock {
    /// A clock that shows the Unix epoch.
    pub fn new() -> (clock: Self)
        ensures
            clock.clock@ == 0,
    {
        Self { clock: Timestamp::epoch() }
    }

    /// Moves the clock forward by `duration`.
    pub fn advance(&mut self, duration: Duration)
        requires
            old(self).clock@ + duration@ <= u128::MAX,
        ensures
            final(self).clock@ == old(self).clock@ + duration@,
    {
        self.clock = Timestamp::from_nanos(self.clock.as_nanos() + duration.as_nanos());
    }
}

impl Clock for FakeClock {
    open spec fn reading(&self) -> Option<Timestamp> {
        Some(self.clock)
    }

    fn now(&self) -> (instant: Timestamp) {
        self.clock
    }
}

} // verus!
