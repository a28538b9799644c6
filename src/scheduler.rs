use vstd::prelude::*;

verus! {

/// Whether a cooldown has elapsed.
#[derive(PartialEq, Eq, Structural, Debug, Clone, Copy)]
pub enum Ready {
    Yes,
    No,
}

/// A cooldown counter: ready once `counter` has reached `cooldown`.
pub struct Schedule {
    pub counter: u64,
    pub cooldown: u64,
}

/// Relies on rand's `Rng::random_range` over the half-open range `lo..hi`,
/// drawn from the thread-local generator: the value lies in that range. It
/// panics only on an empty range, which `requires` leaves out.
#[verifier::external_body]
fn random_in(lo: u64, hi: u64) -> (r: u64)
    requires
        lo < hi,
    ensures
        lo <= r < hi,
{
    rand::Rng::random_range(&mut rand::rng(), lo..hi)
}

/// The cooldowns that `new_rand` draws from lie in `MIN_COOLDOWN..MAX_COOLDOWN`.
pub const MIN_COOLDOWN: u64 = 10;

pub const MAX_COOLDOWN: u64 = 20;

impl Schedule {
    /// A fresh schedule whose cooldown is drawn at random from `10..20`.
    pub fn new_rand() -> (s: Schedule)
        ensures
            s.counter == 0,
            10 <= s.cooldown < 20,
    {
        Schedule { counter: 0, cooldown: random_in(MIN_COOLDOWN, MAX_COOLDOWN) }
    }

    /// A fresh schedule with the given cooldown.
    pub fn new(clock: u64) -> (s: Schedule)
        ensures
            s.counter == 0,
            s.cooldown == clock,
    {
        Schedule { counter: 0, cooldown: clock }
    }

    /// `Yes` exactly when the counter has reached the cooldown.
    pub fn ready(&self) -> (r: Ready)
        ensures
            r == (if self.counter >= self.cooldown { Ready::Yes } else { Ready::No }),
    {
        if self.counter >= self.cooldown {
            Ready::Yes
        } else {
            Ready::No
        }
    }

    pub fn set_counter(&mut self, counter: u64)
        ensures
            final(self).counter == counter,
            final(self).cooldown == old(self).cooldown,
    {
        self.counter = counter;
    }

    /// Advances the counter by one; it saturates at `u64::MAX`.
    pub fn incr_counter(&mut self)
        ensures
            final(self).counter == (if old(self).counter == u64::MAX { u64::MAX } else {
                (old(self).counter + 1) as u64
            }),
            final(self).cooldown == old(self).cooldown,
    {
        self.counter = self.counter.saturating_add(1);
    }
}

impl Default for Schedule {
    fn default() -> (s: Schedule)
        ensures
            s.counter == 0,
            10 <= s.cooldown < 20,
    {
        Schedule::new_rand()
    }
}

} // verus!
