//! The lock.

use crate::attempt::{
    attempt_ops, genuine, is_round, law_round_ends_with_the_lock_or_eight_failures,
    law_round_takes_every_chance, ops_of, Attempt,
};
use crate::backoff::{Backoff, SLEEP_NANOS, SPIN_LIMIT};
use crate::history::{holds, law_waiting_thread_holds_iff_won};
use crate::trace::{
    access, accesses, last_op, lemma_ops_on_accesses, lemma_ops_on_new_word, lemma_ops_on_push,
    ops_on, Access, Caller, Op, Trace,
};
use std::sync::atomic::AtomicU32;
use vstd::prelude::*;

verus! {

/// The lock word while nobody holds the lock.
pub const UNLOCKED: u32 = 0;

/// The lock word while somebody holds the lock.
pub const LOCKED: u32 = 1;

/// What a thread that waits for the lock has to do next.
#[must_use]
pub enum LockRound {
    /// Nothing: it has the lock.
    Acquired,
    /// Sleep for that many nanoseconds and start another round.
    Sleep { nanos: u64 },
}

/// A spinlock without data. It has no guard: whoever takes it has to unlock it.
pub struct RawSleepSpinLock {
    /// The lock word. It is public so that a lock can be written down as a constant, with
    /// [`UNLOCKED`] in the word; after that only a [`Caller`] may touch it.
    pub flag: AtomicU32,
}

/// Whether an exchange that found `found` in the lock word has taken the lock.
pub fn takes_lock(found: u32) -> (taken: bool)
    ensures
        taken == (found == 0),
    opens_invariants none
    no_unwind
{
    found == UNLOCKED
}

/// Whether a lock word that holds `value` shows the lock held.
pub fn shows_locked(value: u32) -> (locked: bool)
    ensures
        locked == (value != 0),
    opens_invariants none
    no_unwind
{
    value != UNLOCKED
}

/// An exchange takes the lock where a load of the same value shows it free, and only there.
pub proof fn law_taken_where_shown_free(value: u32, taken: bool, locked: bool)
    requires
        call_ensures(takes_lock, (value,), taken),
        call_ensures(shows_locked, (value,), locked),
    ensures
        taken == !locked,
{
}

/// What the trace tells of a round on `flag`, from `before` to `after`.
proof fn lemma_recorded_round(
    before: Seq<Access>,
    after: Seq<Access>,
    flag: AtomicU32,
    attempts: Seq<Attempt>,
    outcome: LockRound,
)
    requires
        is_round(attempts, outcome),
        after == before + accesses(flag, ops_of(attempts)),
    ensures
        holds(ops_on(after, flag)) == (outcome is Acquired || holds(ops_on(before, flag))),
        before.is_prefix_of(after),
        forall|i: int|
            #![trigger after[i].op]
            before.len() <= i < after.len() ==> after[i].flag == flag && (
            after[i].op is LoadRelaxed || after[i].op is SwapAcquire),
        forall|i: int|
            #![trigger after[i].op]
            before.len() <= i < after.len() && after[i].op == (Op::LoadRelaxed {
                value: 0,
            }) ==> i + 1 < after.len() && after[i + 1].op is SwapAcquire,
        forall|i: int|
            #![trigger after[i].op]
            before.len() <= i < after.len() && after[i].op is SwapAcquire ==> {
                &&& before.len() < i
                &&& after[i - 1].op == (Op::LoadRelaxed { value: 0 })
                &&& after[i].op->new == 1
                &&& after[i].op->found == 0 <==> outcome is Acquired && i == after.len() - 1
            },
        match outcome {
            LockRound::Acquired => {
                &&& after.len() > before.len()
                &&& after.last().op == (Op::SwapAcquire { found: 0, new: 1 })
                &&& 1 <= after.skip(before.len() as int).filter(
                    |a: Access| a.op is LoadRelaxed,
                ).len() <= 8
            },
            LockRound::Sleep { nanos } => {
                &&& nanos == 1
                &&& after.skip(before.len() as int).filter(
                    |a: Access| a.op is LoadRelaxed,
                ).len() == 8
            },
        },
{
    let start = before.len() as int;
    let ops = ops_of(attempts);
    lemma_ops_on_accesses(before, flag, ops, flag);
    law_waiting_thread_holds_iff_won(ops_on(before, flag), attempts);
    law_round_ends_with_the_lock_or_eight_failures(attempts, outcome, flag);
    assert(after.skip(start) == accesses(flag, ops));
    assert forall|i: int|
        #![trigger after[i].op]
        start <= i < after.len() implies after[i] == access(flag, ops[i - start]) by {}
    assert forall|i: int|
        #![trigger after[i].op]
        start <= i < after.len() implies after[i].op is LoadRelaxed || after[i].op is SwapAcquire by {
        law_round_takes_every_chance(attempts, outcome, i - start);
    }
    assert forall|i: int|
        #![trigger after[i].op]
        start <= i < after.len() && after[i].op == (Op::LoadRelaxed { value: 0 }) implies i + 1
        < after.len() && after[i + 1].op is SwapAcquire by {
        law_round_takes_every_chance(attempts, outcome, i - start);
    }
    assert forall|i: int|
        #![trigger after[i].op]
        start <= i < after.len() && after[i].op is SwapAcquire implies {
        &&& start < i
        &&& after[i - 1].op == (Op::LoadRelaxed { value: 0 })
        &&& after[i].op->new == 1
        &&& after[i].op->found == 0 <==> outcome is Acquired && i == after.len() - 1
    } by {
        law_round_takes_every_chance(attempts, outcome, i - start);
    }
}

/// What is done to the lock is done by a [`Caller`] at its word, `trace.on(&lock.flag)`, in place of
/// a reference to the lock: so these functions have no way to the word but the recorded one.
impl RawSleepSpinLock {
    /// A lock that nobody holds. Its word is created and then left alone: the function opens no
    /// invariant, so it performs no operation on the word.
    pub fn new(trace: &mut Trace) -> (lock: Self)
        ensures
            final(trace)@ == old(trace)@.push(access(lock.flag, Op::Init { value: UNLOCKED })),
            forall|i: int|
                0 <= i < old(trace)@.len() ==> (#[trigger] old(trace)@[i]).flag != lock.flag,
            ops_on(final(trace)@, lock.flag) == seq![Op::Init { value: UNLOCKED }],
            final(trace)@ == old(trace)@.push(
                Access { flag: lock.flag, op: Op::Init { value: 0 } },
            ),
        opens_invariants none
        no_unwind
    {
        let flag = trace.create(UNLOCKED);
        proof {
            lemma_ops_on_new_word(old(trace)@, flag);
            lemma_ops_on_push(old(trace)@, flag, Op::Init { value: UNLOCKED }, flag);
        }
        RawSleepSpinLock { flag }
    }

    /// Tries to take the lock, without waiting. It performs one exchange and has the lock if that
    /// found the lock free.
    pub fn try_lock(caller: &mut Caller<'_>) -> (taken: bool)
        ensures
            final(caller).word() == old(caller).word(),
            final(caller)@ == old(caller)@.push(
                access(old(caller).word(), last_op(final(caller)@)),
            ),
            last_op(final(caller)@) matches Op::SwapAcquire { found, new } && new == LOCKED && taken
                == (found == UNLOCKED),
            holds(final(caller).ops()) == (taken || holds(old(caller).ops())),
            final(caller)@ == old(caller)@.push(final(caller)@.last()),
            final(caller)@.last().flag == old(caller).word(),
            final(caller)@.last().op matches Op::SwapAcquire { found, new } && new == 1 && taken
                == (found == 0),
        no_unwind
    {
        let found: u32 = caller.swap_acquire(LOCKED);
        proof {
            let before = old(caller).ops();
            let op = Op::SwapAcquire { found, new: LOCKED };
            lemma_ops_on_push(old(caller)@, caller.word(), op, caller.word());
            assert(before.push(op).drop_last() == before);
        }
        takes_lock(found)
    }

    /// One attempt of a waiting thread: it looks at the lock word and tries to take the lock only
    /// if that showed it free.
    fn attempt(caller: &mut Caller<'_>) -> (taken: (bool, Ghost<Attempt>))
        ensures
            genuine(taken.1@),
            taken.0 == (taken.1@ is Won),
            final(caller).word() == old(caller).word(),
            final(caller)@ == old(caller)@ + accesses(
                old(caller).word(),
                attempt_ops(taken.1@),
            ),
        no_unwind
    {
        let seen: u32 = caller.load_relaxed();
        if shows_locked(seen) {
            return (false, Ghost(Attempt::Busy { seen }));
        }
        let found: u32 = caller.swap_acquire(LOCKED);
        let taken = takes_lock(found);
        let ghost attempt = if taken {
            Attempt::Won
        } else {
            Attempt::Lost { found }
        };
        (taken, Ghost(attempt))
    }

    /// Waits for the lock up to the next sleep. To take the lock, a thread starts rounds and
    /// sleeps in between as it is told, until a round has acquired the lock.
    ///
    /// Whatever other threads do meanwhile, the round makes use of every chance: each load that
    /// finds the word 0 is directly followed by an exchange, and an exchange that finds 0 ends the
    /// round with the lock. Only after exactly eight attempts, each begun with a load, of which none
    /// took the lock, does it ask for a sleep, and that is of exactly one nanosecond.
    pub fn lock_round(caller: &mut Caller<'_>) -> (outcome: LockRound)
        ensures
            final(caller).word() == old(caller).word(),
            exists|attempts: Seq<Attempt>|
                #![trigger ops_of(attempts)]
                is_round(attempts, outcome) && final(caller)@ == old(caller)@ + accesses(
                    old(caller).word(),
                    ops_of(attempts),
                ),
            holds(final(caller).ops()) == (outcome is Acquired || holds(old(caller).ops())),
            old(caller)@.is_prefix_of(final(caller)@),
            forall|i: int|
                #![trigger final(caller)@[i].op]
                old(caller)@.len() <= i < final(caller)@.len() ==> {
                    &&& final(caller)@[i].flag == old(caller).word()
                    &&& final(caller)@[i].op is LoadRelaxed || final(caller)@[i].op is SwapAcquire
                },
            forall|i: int|
                #![trigger final(caller)@[i].op]
                old(caller)@.len() <= i < final(caller)@.len() && final(caller)@[i].op == (
                Op::LoadRelaxed { value: 0 }) ==> {
                    &&& i + 1 < final(caller)@.len()
                    &&& final(caller)@[i + 1].op is SwapAcquire
                },
            forall|i: int|
                #![trigger final(caller)@[i].op]
                old(caller)@.len() <= i < final(caller)@.len()
                    && final(caller)@[i].op is SwapAcquire ==> {
                    &&& old(caller)@.len() < i
                    &&& final(caller)@[i - 1].op == (Op::LoadRelaxed { value: 0 })
                    &&& final(caller)@[i].op->new == 1
                    &&& final(caller)@[i].op->found == 0 <==> outcome is Acquired && i
                        == final(caller)@.len() - 1
                },
            match outcome {
                LockRound::Acquired => {
                    &&& final(caller)@.len() > old(caller)@.len()
                    &&& final(caller)@.last().op == (Op::SwapAcquire { found: 0, new: 1 })
                    &&& 1 <= final(caller)@.skip(old(caller)@.len() as int).filter(
                        |a: Access| a.op is LoadRelaxed,
                    ).len() <= 8
                },
                LockRound::Sleep { nanos } => {
                    &&& nanos == 1
                    &&& final(caller)@.skip(old(caller)@.len() as int).filter(
                        |a: Access| a.op is LoadRelaxed,
                    ).len() == 8
                },
            },
        no_unwind
    {
        let mut backoff = Backoff::new();
        let ghost word = caller.word();
        let ghost mut attempts: Seq<Attempt> = Seq::empty();
        loop
            invariant
                word == old(caller).word(),
                caller.word() == word,
                backoff@ == attempts.len(),
                attempts.len() < SPIN_LIMIT,
                forall|i: int|
                    0 <= i < attempts.len() ==> genuine(#[trigger] attempts[i]) && !(
                    attempts[i] is Won),
                caller@ == old(caller)@ + accesses(word, ops_of(attempts)),
            decreases SPIN_LIMIT - attempts.len(),
        {
            let (taken, attempt) = Self::attempt(caller);
            proof {
                let more = attempts.push(attempt@);
                assert(more.drop_last() == attempts);
                assert(accesses(word, ops_of(more)) == accesses(word, ops_of(attempts)) + accesses(
                    word,
                    attempt_ops(attempt@),
                ));
                attempts = more;
            }
            if taken || backoff.failed() {
                let outcome = if taken {
                    LockRound::Acquired
                } else {
                    LockRound::Sleep { nanos: SLEEP_NANOS }
                };
                proof {
                    assert(caller@ == old(caller)@ + accesses(word, ops_of(attempts)));
                    lemma_recorded_round(old(caller)@, caller@, word, attempts, outcome);
                }
                return outcome;
            }
        }
    }

    /// Gives the lock up. Only the holder may do so: each call has to be paired with a successful
    /// [`try_lock`](Self::try_lock) or a [`lock_round`](Self::lock_round) that acquired the lock,
    /// and goes on with the trace of that call. Whoever hands the lock on hands the trace on with
    /// it.
    pub fn unlock(caller: &mut Caller<'_>)
        requires
            holds(old(caller).ops()),
        ensures
            final(caller).word() == old(caller).word(),
            final(caller)@ == old(caller)@.push(
                access(old(caller).word(), Op::StoreRelease { value: UNLOCKED }),
            ),
            !holds(final(caller).ops()),
            final(caller)@ == old(caller)@.push(final(caller)@.last()),
            final(caller)@.last().flag == old(caller).word(),
            final(caller)@.last().op == (Op::StoreRelease { value: 0 }),
        no_unwind
    {
        caller.store_release(UNLOCKED);
        proof {
            let op = Op::StoreRelease { value: UNLOCKED };
            lemma_ops_on_push(old(caller)@, caller.word(), op, caller.word());
        }
    }

    /// Whether the lock is held, at the moment of the call: other threads may change that at any
    /// time.
    pub fn is_locked(caller: &mut Caller<'_>) -> (locked: bool)
        ensures
            final(caller).word() == old(caller).word(),
            final(caller)@ == old(caller)@.push(
                access(old(caller).word(), last_op(final(caller)@)),
            ),
            last_op(final(caller)@) matches Op::LoadRelaxed { value } && locked == (value
                != UNLOCKED),
            holds(final(caller).ops()) == holds(old(caller).ops()),
            final(caller)@ == old(caller)@.push(final(caller)@.last()),
            final(caller)@.last().flag == old(caller).word(),
            final(caller)@.last().op matches Op::LoadRelaxed { value } && locked == (value != 0),
        no_unwind
    {
        let value: u32 = caller.load_relaxed();
        proof {
            let before = old(caller).ops();
            let op = Op::LoadRelaxed { value };
            lemma_ops_on_push(old(caller)@, caller.word(), op, caller.word());
            assert(before.push(op).drop_last() == before);
        }
        shows_locked(value)
    }
}

} // verus!
