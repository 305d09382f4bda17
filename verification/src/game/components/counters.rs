use vstd::prelude::*;

verus! {

/// A plain signed counter: remaining safe cells, or remaining flags.
pub struct Counter {
    count: i32,
}

/// A whole-seconds counter driven by a wall-clock start instant; it is
/// polled and reports a value only while running and only when the value
/// has grown.
pub struct SecsCounter {
    now: std::time::Instant,
    secs: u64,
    is_idle: bool,
}

impl Counter {
    pub closed spec fn spec_count(self) -> int {
        self.count as int
    }

    pub fn new(count: i32) -> (r: Self)
        ensures
            r.spec_count() == count as int,
    {
        Self { count }
    }

    pub fn get_count(&self) -> (r: i32)
        ensures
            r as int == self.spec_count(),
    {
        self.count
    }

    pub fn set_count(&mut self, count: i32)
        ensures
            final(self).spec_count() == count as int,
    {
        self.count = count;
    }

    pub fn increment(&mut self)
        requires
            old(self).spec_count() < i32::MAX as int,
        ensures
            final(self).spec_count() == old(self).spec_count() + 1,
    {
        self.count = self.count + 1;
    }

    pub fn decrement(&mut self)
        requires
            old(self).spec_count() > i32::MIN as int,
        ensures
            final(self).spec_count() == old(self).spec_count() - 1,
    {
        self.count = self.count - 1;
    }
}

#[verifier::external_type_specification]
#[verifier::external_body]
pub struct ExInstant(std::time::Instant);

/// Relies on std::time::Instant::now for the current instant; nothing can
/// be promised of which instant comes back.
pub assume_specification[ std::time::Instant::now ]() -> std::time::Instant;

/// Relies on std::time::Instant::elapsed for the time since the instant;
/// nothing can be promised of a wall-clock reading.
pub assume_specification[ std::time::Instant::elapsed ](
    t: &std::time::Instant,
) -> core::time::Duration;

/// Relies on core::time::Duration::as_secs; a Duration is opaque here, so
/// nothing is promised of the value.
pub assume_specification[ core::time::Duration::as_secs ](d: &core::time::Duration) -> u64;

impl Default for SecsCounter {
    /// An idle counter that has reported nothing yet.
    fn default() -> (r: Self)
        ensures
            r.spec_idle(),
            r.spec_secs() == 0,
    {
        SecsCounter { now: std::time::Instant::now(), secs: 0, is_idle: true }
    }
}

impl SecsCounter {
    pub closed spec fn spec_secs(self) -> int {
        self.secs as int
    }

    pub closed spec fn spec_idle(self) -> bool {
        self.is_idle
    }

    /// Polls the clock. While idle nothing is reported. While running, the
    /// reported value only ever grows, and a value is reported only when it
    /// is new; which value comes back depends on the wall clock.
    pub fn get_secs(&mut self) -> (r: Option<u64>)
        ensures
            final(self).spec_idle() == old(self).spec_idle(),
            final(self).spec_secs() >= old(self).spec_secs(),
            old(self).spec_idle() ==> *final(self) == *old(self) && r is None,
            r is Some ==> r->0 as int == final(self).spec_secs() && final(self).spec_secs() > old(
                self,
            ).spec_secs(),
            r is None ==> final(self).spec_secs() == old(self).spec_secs(),
            !old(self).spec_idle() && old(self).spec_secs() == 0 ==> r is Some,
    {
        if self.is_idle {
            return None;
        }
        let sampled = self.now.elapsed().as_secs();
        let elapsed = if sampled < u64::MAX {
            sampled + 1
        } else {
            sampled
        };
        if self.secs < elapsed {
            self.secs = elapsed;
            Some(elapsed)
        } else {
            None
        }
    }

    /// Starts (or restarts) the counter from zero at the current instant.
    pub fn start(&mut self)
        ensures
            !final(self).spec_idle(),
            final(self).spec_secs() == 0,
    {
        self.now = std::time::Instant::now();
        self.secs = 0;
        self.is_idle = false;
    }

    /// Freezes the counter at its current value.
    pub fn stop(&mut self)
        ensures
            final(self).spec_idle(),
            final(self).spec_secs() == old(self).spec_secs(),
    {
        self.is_idle = true;
    }
}

} // verus!
