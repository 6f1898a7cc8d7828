//! A spinlock that gives way under contention.
//!
//! A thread that wants the lock first looks at the lock word with a plain load and tries to take
//! it with an atomic exchange only when the load shows it free, so that waiting threads do not
//! fight over the cache line. After a few failed attempts it sleeps for a moment, so that the
//! thread that holds the lock gets to run.
//!
//! * [`raw`]: the lock itself, [`RawSleepSpinLock`].
//! * [`backoff`]: when a waiting thread has to sleep.
//! * [`trace`]: the operations on lock words that a caller has performed, which the contracts
//!   speak of, and the caller's way to a lock word.
//! * [`attempt`]: what a waiting thread does to the lock word, attempt by attempt.
//! * [`history`]: what holds of a lock word that any number of threads work on, first of all that
//!   the lock is never taken while it is held.
//! * [`callers`]: what holds of callers who keep to the contracts, going by their traces.
//! * [`section`]: what holds of data that is only touched by the lock's holder.
//!
//! No fairness is promised: a thread may wait for as long as others keep taking the lock first.

pub mod attempt;
pub mod backoff;
pub mod callers;
pub mod history;
pub mod raw;
pub mod section;
pub mod trace;

pub use crate::backoff::Backoff;
pub use crate::raw::{LockRound, RawSleepSpinLock};
pub use crate::trace::{Caller, Trace};
