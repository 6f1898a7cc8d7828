# sleep_spin

A spinlock that sleeps for a moment when it meets contention, written and proved in Verus.

A thread that wants the lock looks at the lock word with a relaxed load and tries an atomic exchange
only when the load shows the lock free. After eight failed attempts it sleeps for one nanosecond,
which lets the holder run, and starts again. There is no fairness, no protection against starvation
and no safeguard against priority inversion; the lock is meant for short critical sections.

## Layout

* `src/` is the verified library.
  * `raw.rs`: `RawSleepSpinLock`, with `try_lock`, `lock_round`, `unlock` and `is_locked`.
  * `backoff.rs`: when a waiting thread has to sleep.
  * `trace.rs`: the record of operations on lock words that the contracts speak of, which costs
    nothing at run time, and `Caller`, the way to a lock word.
  * `attempt.rs`: what a waiting thread does to the lock word, and how often it sleeps.
  * `history.rs`: laws on a lock word shared by any number of threads, above all mutual exclusion.
  * `callers.rs`: laws on callers who keep to the contracts, going by their traces.
  * `section.rs`: laws on data that only the holder touches: no update is lost.
* `app/` puts the lock behind `lock_api`: `SleepSpinLock<T>` is a mutex with a guard. Sleeping
  happens here.
* `tests/` runs the library.

## What the laws rest on

An atomic exchange finds the latest write to its word. A relaxed load may find an outdated value;
mutual exclusion does not depend on what loads find. That an unlock is paired with an acquisition is
no premise for callers who keep to the contracts: `unlock` requires it of the trace it is given.

Verus does not check that each entry of a trace is of a real operation: the four functions in
`trace.rs` that perform the atomic operations are trusted to record what they do.

That nothing unrecorded touches a lock word is a matter of privacy. The functions of the lock are
given a `Caller`, which keeps the word to itself, and no reference to the lock; so they can do
nothing to the word that does not lengthen the caller's trace. Outside the library the word is
public, because a constant lock has to name it; code that bypasses `Caller` is not covered.

The laws on guarded data also rest on the memory model: what the last holder wrote before its
release is seen after the acquire that reads that release.
