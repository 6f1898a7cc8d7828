//! When a thread that waits for the lock has to sleep.

use vstd::prelude::*;

verus! {

/// How many attempts a waiting thread makes before it sleeps.
pub const SPIN_LIMIT: u32 = 8;

/// For how many nanoseconds a waiting thread sleeps.
pub const SLEEP_NANOS: u64 = 1;

/// Counts the failed attempts since a waiting thread started or last slept.
pub struct Backoff {
    counter: u32,
}

impl View for Backoff {
    type V = nat;

    closed spec fn view(&self) -> nat {
        self.counter as nat
    }
}

impl Backoff {
    /// The count starts over as soon as it reaches the limit.
    #[verifier::type_invariant]
    spec fn below_limit(self) -> bool {
        self.counter < SPIN_LIMIT
    }

    /// No attempt has failed yet.
    pub fn new() -> (backoff: Self)
        ensures
            backoff@ == 0,
        opens_invariants none
        no_unwind
    {
        Backoff { counter: 0 }
    }

    /// Counts one more failed attempt and tells whether the thread has to sleep now, in which case
    /// the count starts over.
    pub fn failed(&mut self) -> (sleep: bool)
        ensures
            old(self)@ < SPIN_LIMIT,
            sleep == (old(self)@ + 1 == SPIN_LIMIT),
            final(self)@ == if sleep { 0 } else { old(self)@ + 1 },
            sleep == (old(self)@ == 7),
        opens_invariants none
        no_unwind
    {
        proof {
            use_type_invariant(&*self);
        }
        let counter: u32 = self.counter + 1;
        if counter == SPIN_LIMIT {
            self.counter = 0;
            true
        } else {
            self.counter = counter;
            false
        }
    }
}

} // verus!
