//! A timer: an identifier and an absolute deadline in milliseconds.

use vstd::prelude::*;

verus! {

/// A pending timer. Its identifier is a random 128-bit value; its deadline
/// counts milliseconds since the Unix epoch.
#[derive(Debug, Clone, Copy, PartialEq, Eq, Structural)]
pub struct Timer {
    pub expires_at: u64,
    pub id: u128,
}

/// The order in which timers fall due: by deadline, then by identifier.
pub open spec fn precedes(a: Timer, b: Timer) -> bool {
    a.expires_at < b.expires_at || (a.expires_at == b.expires_at && a.id < b.id)
}

/// Milliseconds from `now` until `expires_at`, or zero once it has passed.
pub open spec fn time_left(expires_at: u64, now: u64) -> u64 {
    if expires_at > now {
        (expires_at - now) as u64
    } else {
        0
    }
}

/// Relies on `uuid::Uuid::new_v4`: a random version-4 identifier, as an
/// integer.
#[verifier::external_body]
fn new_timer_id() -> u128 {
    uuid::Uuid::new_v4().as_u128()
}

impl Timer {
    /// A timer with a fresh random identifier.
    pub fn new(expires_at: u64) -> (r: Timer)
        ensures
            r.expires_at == expires_at,
    {
        Timer { expires_at, id: new_timer_id() }
    }

    /// A timer with a given identifier, as recovery rebuilds it.
    pub fn with_id(expires_at: u64, id: u128) -> (r: Timer)
        ensures
            r == (Timer { expires_at, id }),
    {
        Timer { expires_at, id }
    }

    pub fn is_expired(&self, current_time: u64) -> (r: bool)
        ensures
            r == (current_time >= self.expires_at),
    {
        current_time >= self.expires_at
    }

    pub fn get_time_left(&self, current_time: u64) -> (r: u64)
        ensures
            r == time_left(self.expires_at, current_time),
    {
        if self.expires_at > current_time {
            self.expires_at - current_time
        } else {
            0
        }
    }

    /// Whether `self` falls due before `other`.
    pub fn precedes(&self, other: &Timer) -> (r: bool)
        ensures
            r == precedes(*self, *other),
    {
        self.expires_at < other.expires_at || (self.expires_at == other.expires_at && self.id
            < other.id)
    }
}

} // verus!
