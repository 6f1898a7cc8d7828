use sleep_spin::backoff::{SLEEP_NANOS, SPIN_LIMIT};
use sleep_spin::raw::{shows_locked, takes_lock, LOCKED, UNLOCKED};
use sleep_spin::{Backoff, Caller, LockRound, RawSleepSpinLock, Trace};
use std::cell::Cell;
use std::sync::atomic::{AtomicU32, Ordering};

/// A caller at the lock with nothing done yet.
fn at(lock: &RawSleepSpinLock) -> Caller<'_> {
    Trace::new().on(&lock.flag)
}

fn new_lock() -> RawSleepSpinLock {
    RawSleepSpinLock::new(&mut Trace::new())
}

fn try_lock(caller: &mut Caller<'_>) -> bool {
    RawSleepSpinLock::try_lock(caller)
}

fn lock_round(caller: &mut Caller<'_>) -> LockRound {
    RawSleepSpinLock::lock_round(caller)
}

fn unlock(caller: &mut Caller<'_>) {
    RawSleepSpinLock::unlock(caller)
}

fn is_locked(caller: &mut Caller<'_>) -> bool {
    RawSleepSpinLock::is_locked(caller)
}

/// Data behind the raw lock.
struct Guarded {
    raw: RawSleepSpinLock,
    data: Cell<u64>,
}

impl Guarded {
    fn new(data: u64) -> Self {
        Guarded {
            raw: new_lock(),
            data: Cell::new(data),
        }
    }

    fn lock(&self) -> Guard<'_> {
        let mut caller = at(&self.raw);
        while let LockRound::Sleep { .. } = lock_round(&mut caller) {}
        Guard {
            data: &self.data,
            caller,
        }
    }

    fn try_lock(&self) -> Option<Guard<'_>> {
        let mut caller = at(&self.raw);
        if try_lock(&mut caller) {
            Some(Guard {
                data: &self.data,
                caller,
            })
        } else {
            None
        }
    }
}

/// Gives the lock up when it is dropped.
struct Guard<'a> {
    data: &'a Cell<u64>,
    caller: Caller<'a>,
}

impl Guard<'_> {
    fn get(&self) -> u64 {
        self.data.get()
    }

    fn set(&mut self, data: u64) {
        self.data.set(data);
    }
}

impl Drop for Guard<'_> {
    fn drop(&mut self) {
        unlock(&mut self.caller);
    }
}

fn word(lock: &RawSleepSpinLock) -> u32 {
    lock.flag.load(Ordering::SeqCst)
}

fn is_acquired(round: LockRound) -> bool {
    matches!(round, LockRound::Acquired)
}

fn is_sleep(round: LockRound) -> bool {
    matches!(round, LockRound::Sleep { nanos: 1 })
}

#[test]
fn test_basic_lock_and_unlock() {
    let lock = Guarded::new(42);
    assert_eq!(lock.lock().get(), 42);

    {
        let mut guard = lock.lock();
        guard.set(100);
    }

    assert_eq!(lock.lock().get(), 100);
}

#[test]
fn test_try_lock() {
    let lock = Guarded::new(10);
    let guard = lock.try_lock();
    assert!(guard.is_some());

    // A second attempt while the lock is held fails at once.
    let second_attempt = lock.try_lock();
    assert!(second_attempt.is_none());

    drop(guard);
    assert!(lock.try_lock().is_some());
}

#[test]
fn guard_increments_once() {
    let lock = Guarded::new(42);
    {
        let mut guard = lock.lock();
        let value = guard.get();
        guard.set(value + 1);
    }
    assert_eq!(lock.lock().get(), 43);
}

#[test]
fn new_lock_is_free() {
    let lock = new_lock();
    assert_eq!(word(&lock), 0);
    assert!(!is_locked(&mut at(&lock)));
}

#[test]
fn constant_lock_is_free() {
    let lock = RawSleepSpinLock {
        flag: AtomicU32::new(UNLOCKED),
    };
    let mut caller = at(&lock);
    assert!(!is_locked(&mut caller));
    assert!(try_lock(&mut caller));
}

#[test]
fn is_locked_follows_the_holder() {
    let lock = new_lock();
    let mut caller = at(&lock);
    assert!(!is_locked(&mut caller));
    assert!(try_lock(&mut caller));
    assert!(is_locked(&mut caller));
    assert!(is_locked(&mut caller));
    unlock(&mut caller);
    assert!(!is_locked(&mut caller));
}

#[test]
fn failed_try_lock_changes_nothing() {
    let lock = new_lock();
    let mut caller = at(&lock);
    assert!(try_lock(&mut caller));
    assert_eq!(word(&lock), 1);
    for _ in 0..3 {
        assert!(!try_lock(&mut caller));
        assert_eq!(word(&lock), 1);
    }
    unlock(&mut caller);
    assert_eq!(word(&lock), 0);
    assert!(try_lock(&mut caller));
}

#[test]
fn round_on_a_free_lock_acquires_it() {
    let lock = new_lock();
    let mut caller = at(&lock);
    assert!(is_acquired(lock_round(&mut caller)));
    assert_eq!(word(&lock), 1);
    assert!(!try_lock(&mut caller));
}

#[test]
fn round_on_a_held_lock_asks_for_a_sleep() {
    let lock = new_lock();
    let mut holder = at(&lock);
    let mut waiter = at(&lock);
    assert!(try_lock(&mut holder));
    for _ in 0..5 {
        assert!(is_sleep(lock_round(&mut waiter)));
        assert!(is_locked(&mut waiter));
    }
    unlock(&mut holder);
    assert!(is_acquired(lock_round(&mut waiter)));
    assert!(!try_lock(&mut holder));
}

#[test]
fn waiting_on_a_held_lock_writes_nothing() {
    // A value that no operation of the lock writes shows that the word was left alone.
    let lock = RawSleepSpinLock {
        flag: AtomicU32::new(7),
    };
    let mut caller = at(&lock);
    assert!(is_sleep(lock_round(&mut caller)));
    assert_eq!(word(&lock), 7);
    assert!(is_locked(&mut caller));
    assert_eq!(word(&lock), 7);
    assert!(!try_lock(&mut caller));
    assert_eq!(word(&lock), 1);
}

#[test]
fn lock_is_taken_once_per_release() {
    let lock = new_lock();
    let mut first = at(&lock);
    let mut second = at(&lock);
    let mut taken: u32 = 0;
    for _ in 0..100 {
        assert!(try_lock(&mut first));
        assert!(!try_lock(&mut second));
        taken += 1;
        unlock(&mut first);
        assert!(is_acquired(lock_round(&mut second)));
        assert!(!try_lock(&mut first));
        taken += 1;
        unlock(&mut second);
    }
    assert_eq!(taken, 200);
    assert_eq!(word(&lock), 0);
}

#[test]
fn trace_goes_on_at_the_lock() {
    let lock = new_lock();
    let mut caller = at(&lock);
    assert!(try_lock(&mut caller));
    let kept: Trace = caller.into_trace();
    assert!(is_locked(&mut at(&lock)));
    let mut caller = kept.on(&lock.flag);
    unlock(&mut caller);
    assert!(!is_locked(&mut caller));
}

#[test]
fn no_update_is_lost_between_two_parties() {
    let lock = Guarded::new(0);
    for _ in 0..16 {
        for _ in 0..200 {
            let mut guard = lock.lock();
            let read = guard.get();
            // Another party cannot come in between the read and the write.
            assert!(lock.try_lock().is_none());
            guard.set(read + 1);
        }
    }
    assert_eq!(lock.lock().get(), 3200);
}

#[test]
fn unlocking_one_lock_leaves_another_held() {
    let mut trace = Trace::new();
    let a = RawSleepSpinLock::new(&mut trace);
    let b = RawSleepSpinLock::new(&mut trace);
    let mut at_a = trace.on(&a.flag);
    assert!(try_lock(&mut at_a));
    let mut at_b = at_a.into_trace().on(&b.flag);
    assert!(try_lock(&mut at_b));
    let mut at_a = at_b.into_trace().on(&a.flag);
    unlock(&mut at_a);
    assert!(!is_locked(&mut at_a));
    let mut at_b = at_a.into_trace().on(&b.flag);
    assert!(is_locked(&mut at_b));
    assert!(!try_lock(&mut at_b));
    assert!(try_lock(&mut at_b.into_trace().on(&a.flag)));
}

fn winners_among(waiters: &mut Vec<Caller<'_>>) -> u32 {
    let mut winners: u32 = 0;
    for _ in 0..4 {
        for waiter in waiters.iter_mut() {
            if is_acquired(lock_round(waiter)) {
                winners += 1;
            }
        }
    }
    winners
}

#[test]
fn one_of_the_waiters_gets_a_freed_lock() {
    let lock = new_lock();
    let mut holder = at(&lock);
    assert!(try_lock(&mut holder));
    let mut waiters = vec![at(&lock), at(&lock), at(&lock)];
    assert_eq!(winners_among(&mut waiters), 0);
    unlock(&mut holder);
    assert_eq!(winners_among(&mut waiters), 1);
    assert!(is_locked(&mut holder));
}

#[test]
fn one_of_the_waiters_gets_a_new_lock() {
    let lock = new_lock();
    let mut waiters = vec![at(&lock), at(&lock), at(&lock)];
    assert_eq!(winners_among(&mut waiters), 1);
    assert!(is_locked(&mut at(&lock)));
}

#[test]
fn lock_is_handed_on_with_its_trace() {
    let lock = Guarded::new(1);
    let guard = lock.lock();
    let handed_on = vec![guard];
    assert!(lock.try_lock().is_none());
    drop(handed_on);
    assert!(lock.try_lock().is_some());
}

#[test]
fn different_updates_follow_each_other() {
    let lock = Guarded::new(5);
    for round in 0..4u64 {
        let mut guard = lock.lock();
        let read = guard.get();
        guard.set(if round % 2 == 0 { read + 3 } else { read * 2 });
    }
    assert_eq!(lock.lock().get(), 38);
}

#[test]
fn backoff_sleeps_at_every_eighth_failure() {
    let mut backoff = Backoff::new();
    let mut sleeps = Vec::new();
    for failure in 1..=24u32 {
        if backoff.failed() {
            sleeps.push(failure);
        }
    }
    assert_eq!(sleeps, vec![8, 16, 24]);
}

#[test]
fn limits_have_their_values() {
    assert_eq!(SPIN_LIMIT, 8);
    assert_eq!(SLEEP_NANOS, 1);
    assert_eq!(UNLOCKED, 0);
    assert_eq!(LOCKED, 1);
}

#[test]
fn only_zero_counts_as_free() {
    assert!(takes_lock(0));
    assert!(!takes_lock(1));
    assert!(!takes_lock(2));
    assert!(!takes_lock(u32::MAX));
    assert!(!shows_locked(0));
    assert!(shows_locked(1));
    assert!(shows_locked(2));
    assert!(shows_locked(u32::MAX));
}

#[test]
fn trace_holds_nothing_at_run_time() {
    assert_eq!(std::mem::size_of::<Trace>(), 0);
}

#[test]
fn lock_can_be_shared_between_threads() {
    fn shareable<T: Send + Sync>(_: &T) {}
    shareable(&new_lock());
}
